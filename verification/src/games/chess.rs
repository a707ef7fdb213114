//! Standard chess, with the rules of the `cozy-chess` crate.
//!
//! Legality, move generation, check, mate, stalemate, the fifty-move rule
//! and position hashing all come from `cozy_chess::Board`. This module
//! adds what the search interface needs on top: a history of position
//! hashes for threefold repetition, sparse perspective features, and
//! stable perspective-relative action IDs.
//!
//! A position is held as its Shredder FEN text, the form in which
//! `cozy_chess::Board` writes itself out and reads itself back. Every
//! question about a position goes to `cozy-chess` through one small
//! function below; what `cozy-chess` answers is named by an uninterpreted
//! spec function of the FEN text, and the logic built on the answers is
//! verified against those names.
//!
//! Known approximation, standard in chess engines: the position key is
//! the board hash only; the repetition history is not part of it.
//!
//! Features (allowed facts only): piece type and square for both sides
//! (perspective-mirrored ranks), castling rights, en-passant file.

use crate::game::{ActionId, FeatureId, Game, Outcome, Player};
use crate::text::{digit_char, push_ascii, push_digit};
use cozy_chess::{Board, BoardBuilder, GameStatus, Move, Piece, Square};
use vstd::prelude::*;

verus! {

/// Feature layout: `square(64) x piece(6) x own/opp(2)` = 768, then 4
/// castling rights (own short, own long, opp short, opp long), then 8
/// en-passant files.
const FEATURE_COUNT: usize = 780;

/// Action layout: `from(64) x to(64)` = 4096 for normal moves and queen
/// promotions, plus `3 underpromotion pieces x 8 from-files x 3
/// directions` = 72.
const ACTION_COUNT: usize = 4168;

/// A move as plain values: source square, destination square (square
/// index `8 * rank + file`, a1 = 0, h8 = 63) and promotion piece index
/// (pawn 0, knight 1, bishop 2, rook 3, queen 4, king 5).
pub type MoveTriple = (u8, u8, Option<u8>);

/// What `BoardBuilder::from_board` reports of a position, as plain values.
pub struct BoardFields {
    /// Per square: `(piece index, colour index)` (white 0, black 1).
    pub squares: Vec<Option<(u8, u8)>>,
    /// Colour index of the side to move.
    pub side: u8,
    /// Castling rook files: white short, white long, black short, black long.
    pub castles: Vec<Option<u8>>,
    /// File of the en-passant square.
    pub en_passant: Option<u8>,
    pub halfmove: u8,
}

/// Mathematical view of [`BoardFields`].
pub struct FieldsModel {
    pub squares: Seq<Option<(u8, u8)>>,
    pub side: u8,
    pub castles: Seq<Option<u8>>,
    pub en_passant: Option<u8>,
    pub halfmove: u8,
}

impl View for BoardFields {
    type V = FieldsModel;

    open spec fn view(&self) -> FieldsModel {
        FieldsModel {
            squares: self.squares@,
            side: self.side,
            castles: self.castles@,
            en_passant: self.en_passant,
            halfmove: self.halfmove,
        }
    }
}

impl FieldsModel {
    /// The ranges that `cozy-chess`'s types give each field.
    pub open spec fn in_range(self) -> bool {
        &&& self.squares.len() == 64
        &&& forall|i: int|
            0 <= i < 64 ==> (#[trigger] self.squares[i] matches Some(pc) ==> pc.0 < 6 && pc.1 < 2)
        &&& self.side < 2
        &&& self.castles.len() == 4
        &&& forall|i: int| 0 <= i < 4 ==> (#[trigger] self.castles[i] matches Some(f) ==> f < 8)
        &&& self.en_passant matches Some(f) ==> f < 8
    }
}

/// A move triple whose squares and promotion piece are in range: squares
/// below 64, promotion to knight, bishop, rook or queen.
pub open spec fn triple_in_range(t: MoveTriple) -> bool {
    &&& t.0 < 64
    &&& t.1 < 64
    &&& t.2 matches Some(p) ==> 1 <= p <= 4
}

/// `text.parse::<Board>()`: on success the board written back as Shredder
/// FEN (`format!("{:#}", board)`), on failure the parse error's text.
pub uninterp spec fn cozy_fen(text: Seq<char>) -> Result<Seq<char>, Seq<char>>;

/// The moves `Board::generate_moves` lists for the position, in the order
/// it lists them.
pub uninterp spec fn cozy_moves(fen: Seq<char>) -> Seq<MoveTriple>;

/// The position after `Board::play(mv)`, as Shredder FEN.
pub uninterp spec fn cozy_after(fen: Seq<char>, mv: MoveTriple) -> Seq<char>;

/// `Board::status`: won (the side to move is mated) 0, drawn 1, ongoing 2.
pub uninterp spec fn cozy_status(fen: Seq<char>) -> u8;

/// `Board::hash`.
pub uninterp spec fn cozy_hash(fen: Seq<char>) -> u64;

/// `BoardBuilder::from_board` of the position.
pub uninterp spec fn cozy_fields(fen: Seq<char>) -> FieldsModel;

/// `Board::checkers().is_empty()`: the side to move is not in check.
pub uninterp spec fn cozy_no_checkers(fen: Seq<char>) -> bool;

/// `text.parse::<cozy_chess::Move>()`, a move in UCI notation.
pub uninterp spec fn cozy_uci_move(text: Seq<char>) -> Option<MoveTriple>;

/// `format!("{:?}", text)`: the text quoted and escaped.
pub uninterp spec fn str_debug(text: Seq<char>) -> Seq<char>;

/// The positions this module works with: FEN texts that `cozy-chess`
/// reads and writes back unchanged.
pub open spec fn fen_ok(fen: Seq<char>) -> bool {
    cozy_fen(fen) == Ok::<Seq<char>, Seq<char>>(fen)
}

/// The standard start position in Shredder FEN.
pub open spec fn start_fen() -> Seq<char> {
    "rnbqkbnr/pppppppp/8/8/8/8/PPPPPPPP/RNBQKBNR w HAha - 0 1"@
}

/// Calls `Board::startpos()` and writes it out with `format!("{:#}", ..)`.
/// Claimed: the text is the standard start position in Shredder FEN (the
/// example of `Board`'s `Display` documentation) and reads back unchanged.
#[verifier::external_body]
fn cozy_start() -> (fen: String)
    ensures
        fen@ == start_fen(),
        fen_ok(fen@),
{
    format!("{:#}", Board::startpos())
}

/// Calls `text.parse::<Board>()` and, on success, writes the board out with
/// `format!("{:#}", ..)`; on failure it returns the error's `Display` text.
/// Claimed: the result is the named one, and a board that was read writes
/// itself out as a text that reads back unchanged.
#[verifier::external_body]
fn cozy_parse(text: &str) -> (r: Result<String, String>)
    ensures
        match r {
            Ok(fen) => cozy_fen(text@) == Ok::<Seq<char>, Seq<char>>(fen@) && fen_ok(fen@),
            Err(e) => cozy_fen(text@) == Err::<Seq<char>, Seq<char>>(e@),
        },
{
    match text.parse::<Board>() {
        Ok(board) => Ok(format!("{board:#}")),
        Err(e) => Err(e.to_string()),
    }
}

/// Calls `Board::generate_moves` and lists every move of every piece, in
/// the order generated. Claimed: the list is the named one; squares are
/// below 64 and promotions are to knight, bishop, rook or queen (the
/// types and the generator's promotion loop); and it is far shorter than
/// `u32::MAX` (the generator reports each piece of the side to move at
/// most once, with at most 64 destinations and 4 promotion choices).
#[verifier::external_body]
fn cozy_legal(fen: &str) -> (moves: Vec<MoveTriple>)
    requires
        fen_ok(fen@),
    ensures
        moves@ == cozy_moves(fen@),
        forall|i: int| 0 <= i < moves@.len() ==> triple_in_range(#[trigger] moves@[i]),
        moves@.len() <= 0xffff_ffff,
{
    let board: Board = fen.parse().unwrap();
    let mut moves = Vec::new();
    board.generate_moves(|pm| {
        moves.extend(pm.into_iter().map(|m| (m.from as u8, m.to as u8, m.promotion.map(|p| p as u8))));
        false
    });
    moves
}

/// The facts of a position that playing needs, as `Board` reports them.
pub struct PositionFacts {
    /// `Board::hash`.
    pub hash: u64,
    /// `Board::status`: won 0, drawn 1, ongoing 2.
    pub status: u8,
    /// `Board::halfmove_clock`.
    pub halfmove: u8,
    /// Colour index of `Board::side_to_move`.
    pub side: u8,
}

/// Calls `Board::hash`, `Board::status`, `Board::halfmove_clock` and
/// `Board::side_to_move` on the parsed position. Claimed: they are the
/// named facts, in the ranges of their types, and an ongoing game has a
/// legal move (`status` answers "ongoing" only when `generate_moves` finds
/// one).
#[verifier::external_body]
fn cozy_facts(fen: &str) -> (f: PositionFacts)
    requires
        fen_ok(fen@),
    ensures
        f.hash == cozy_hash(fen@),
        f.status == cozy_status(fen@),
        f.halfmove == cozy_fields(fen@).halfmove,
        f.side == cozy_fields(fen@).side,
        f.status <= 2,
        f.side < 2,
        f.status == 2 ==> cozy_moves(fen@).len() > 0,
{
    let board: Board = fen.parse().unwrap();
    let status = match board.status() {
        GameStatus::Won => 0,
        GameStatus::Drawn => 1,
        GameStatus::Ongoing => 2,
    };
    PositionFacts { hash: board.hash(), status, halfmove: board.halfmove_clock(), side: board.side_to_move() as u8 }
}

/// Calls `Board::play`, which panics on an illegal move (excluded here),
/// writes the new board out as Shredder FEN and reads its facts as
/// `cozy_facts` does. Claimed: the new position is the named one, reads
/// back unchanged, the facts are its named facts, and its move list is
/// short (as `cozy_legal` says of every position).
#[verifier::external_body]
pub(crate) fn cozy_play(fen: &str, mv: MoveTriple) -> (after: (String, PositionFacts))
    requires
        fen_ok(fen@),
        cozy_moves(fen@).contains(mv),
    ensures
        after.0@ == cozy_after(fen@, mv),
        fen_ok(after.0@),
        after.1.hash == cozy_hash(after.0@),
        after.1.status == cozy_status(after.0@),
        after.1.halfmove == cozy_fields(after.0@).halfmove,
        after.1.side == cozy_fields(after.0@).side,
        after.1.status <= 2,
        after.1.side < 2,
        after.1.status == 2 ==> cozy_moves(after.0@).len() > 0,
        cozy_moves(after.0@).len() <= 0xffff_ffff,
{
    let mut board: Board = fen.parse().unwrap();
    let promotion = mv.2.map(|p| Piece::index(p as usize));
    board.play(Move { from: Square::index(mv.0 as usize), to: Square::index(mv.1 as usize), promotion });
    let status = match board.status() {
        GameStatus::Won => 0,
        GameStatus::Drawn => 1,
        GameStatus::Ongoing => 2,
    };
    let facts = PositionFacts { hash: board.hash(), status, halfmove: board.halfmove_clock(), side: board.side_to_move() as u8 };
    (format!("{board:#}"), facts)
}

/// Calls `BoardBuilder::from_board` and copies its fields out as plain
/// values. Claimed: they are the named ones, in the ranges of their types.
#[verifier::external_body]
pub(crate) fn cozy_board_fields(fen: &str) -> (f: BoardFields)
    requires
        fen_ok(fen@),
    ensures
        f@ == cozy_fields(fen@),
        f@.in_range(),
{
    let b = BoardBuilder::from_board(&fen.parse::<Board>().unwrap());
    BoardFields {
        squares: b.board.iter().map(|s| s.map(|(p, c)| (p as u8, c as u8))).collect(),
        side: b.side_to_move as u8,
        castles: b.castle_rights.iter().flat_map(|r| [r.short, r.long]).map(|f| f.map(|f| f as u8)).collect(),
        en_passant: b.en_passant.map(|sq| sq.file() as u8),
        halfmove: b.halfmove_clock,
    }
}

/// Calls `Board::checkers().is_empty()`. Claimed: the answer is the named one.
#[verifier::external_body]
pub(crate) fn cozy_not_in_check(fen: &str) -> (b: bool)
    requires
        fen_ok(fen@),
    ensures
        b == cozy_no_checkers(fen@),
{
    fen.parse::<Board>().unwrap().checkers().is_empty()
}

/// Calls `text.parse::<cozy_chess::Move>()`. Claimed: the move is the
/// named one, with squares below 64; and a text made of two square
/// names (file letter, rank digit) and an optional promotion letter
/// `n`, `b`, `r` or `q` parses to those squares and that piece (the
/// parser reads squares from characters 0..2 and 2..4 as
/// `rank * 8 + file`, and a promotion from character 4).
#[verifier::external_body]
fn cozy_parse_move(text: &str) -> (m: Option<MoveTriple>)
    ensures
        m == cozy_uci_move(text@),
        m matches Some(t) ==> t.0 < 64 && t.1 < 64,
        forall|a: int, b: int, p: Option<u8>|
            #![trigger square_name(a), square_name(b), promo_suffix(p)]
            0 <= a < 64 && 0 <= b < 64 && (p matches Some(x) ==> 1 <= x <= 4) && text@ == square_name(a)
                + square_name(b) + promo_suffix(p) ==> m == Some((a as u8, b as u8, p)),
{
    text.parse::<Move>().ok().map(|m| (m.from as u8, m.to as u8, m.promotion.map(|p| p as u8)))
}

/// Calls `format!("{:?}", text)`. Claimed: the text is the named one.
#[verifier::external_body]
pub(crate) fn debug_quote(text: &str) -> (q: String)
    ensures
        q@ == str_debug(text@),
{
    format!("{text:?}")
}
// ---- moves and their order ----

/// A chess move: source and destination square indices and the
/// promotion piece index, as in [`MoveTriple`].
#[derive(Clone, Copy, PartialEq, Eq, PartialOrd, Ord, Debug, Hash, Structural)]
pub struct ChessMove {
    pub from: u8,
    pub to: u8,
    pub promotion: Option<u8>,
}

impl ChessMove {
    pub open spec fn triple(self) -> MoveTriple {
        (self.from, self.to, self.promotion)
    }
}

pub open spec fn move_of(t: MoveTriple) -> ChessMove {
    ChessMove { from: t.0, to: t.1, promotion: t.2 }
}

/// Promotion in the move order: none first, then by piece index.
pub open spec fn promo_rank(p: Option<u8>) -> int {
    match p {
        None => 0,
        Some(x) => x + 1,
    }
}

/// Move order: by source, then destination, then promotion.
pub open spec fn move_lt(a: ChessMove, b: ChessMove) -> bool {
    a.from < b.from || (a.from == b.from && (a.to < b.to || (a.to == b.to && promo_rank(a.promotion)
        < promo_rank(b.promotion))))
}

/// First index at or after `i` whose move sorts after `x`.
pub open spec fn insert_pos(s: Seq<ChessMove>, x: ChessMove, i: int) -> int
    decreases s.len() - i,
{
    if i < 0 || i >= s.len() {
        s.len() as int
    } else if move_lt(x, s[i]) {
        i
    } else {
        insert_pos(s, x, i + 1)
    }
}

/// Insertion sort by `move_lt`.
pub open spec fn sort_spec(s: Seq<ChessMove>) -> Seq<ChessMove>
    decreases s.len(),
{
    if s.len() == 0 {
        Seq::empty()
    } else {
        let sorted = sort_spec(s.drop_last());
        sorted.insert(insert_pos(sorted, s.last(), 0), s.last())
    }
}

proof fn lemma_insert_pos(s: Seq<ChessMove>, x: ChessMove, i: int)
    requires
        0 <= i <= s.len(),
    ensures
        i <= insert_pos(s, x, i) <= s.len(),
    decreases s.len() - i,
{
    if i < s.len() && !move_lt(x, s[i]) {
        lemma_insert_pos(s, x, i + 1);
    }
}

/// Sorting keeps the length and only lists moves of its input.
proof fn lemma_sort_members(s: Seq<ChessMove>)
    ensures
        sort_spec(s).len() == s.len(),
        forall|x: ChessMove| sort_spec(s).contains(x) ==> s.contains(x),
    decreases s.len(),
{
    if s.len() > 0 {
        let rest = s.drop_last();
        lemma_sort_members(rest);
        let sorted = sort_spec(rest);
        lemma_insert_pos(sorted, s.last(), 0);
        let p = insert_pos(sorted, s.last(), 0);
        assert forall|x: ChessMove| sort_spec(s).contains(x) implies s.contains(x) by {
            let j = choose|j: int| 0 <= j < sort_spec(s).len() && sort_spec(s)[j] == x;
            if j == p {
                assert(s[s.len() - 1] == x);
            } else {
                let k = if j < p { j } else { j - 1 };
                assert(sorted[k] == x);
                assert(sorted.contains(x));
                assert(rest.contains(x));
                let m = choose|m: int| 0 <= m < rest.len() && rest[m] == x;
                assert(rest[m] == s[m]);
                assert(s[m] == x);
            }
        }
    }
}

fn move_less(a: ChessMove, b: ChessMove) -> (r: bool)
    ensures
        r == move_lt(a, b),
{
    let pa: u16 = match a.promotion {
        None => 0,
        Some(x) => x as u16 + 1,
    };
    let pb: u16 = match b.promotion {
        None => 0,
        Some(x) => x as u16 + 1,
    };
    a.from < b.from || (a.from == b.from && (a.to < b.to || (a.to == b.to && pa < pb)))
}

/// Sorted copy of a move list.
fn sort_moves(v: &Vec<ChessMove>) -> (r: Vec<ChessMove>)
    ensures
        r@ == sort_spec(v@),
{
    let mut r: Vec<ChessMove> = Vec::new();
    let mut i: usize = 0;
    while i < v.len()
        invariant
            i <= v@.len(),
            r@ == sort_spec(v@.take(i as int)),
        decreases v@.len() - i,
    {
        let x = v[i];
        let mut p: usize = 0;
        proof {
            lemma_sort_members(v@.take(i as int));
        }
        while p < r.len() && !move_less(x, r[p])
            invariant
                p <= r@.len(),
                insert_pos(r@, x, 0) == insert_pos(r@, x, p as int),
            decreases r@.len() - p,
        {
            p += 1;
        }
        proof {
            assert(v@.take(i + 1).drop_last() =~= v@.take(i as int));
            assert(v@.take(i + 1).last() == x);
        }
        r.insert(p, x);
        i += 1;
    }
    assert(v@.take(v@.len() as int) =~= v@);
    r
}

// ---- feature order ----

/// First index at or after `i` whose entry is greater than `x`.
pub open spec fn insert_pos_u32(s: Seq<u32>, x: u32, i: int) -> int
    decreases s.len() - i,
{
    if i < 0 || i >= s.len() {
        s.len() as int
    } else if x < s[i] {
        i
    } else {
        insert_pos_u32(s, x, i + 1)
    }
}

/// Ascending insertion sort.
pub open spec fn sort_u32(s: Seq<u32>) -> Seq<u32>
    decreases s.len(),
{
    if s.len() == 0 {
        Seq::empty()
    } else {
        let sorted = sort_u32(s.drop_last());
        sorted.insert(insert_pos_u32(sorted, s.last(), 0), s.last())
    }
}

proof fn lemma_insert_pos_u32(s: Seq<u32>, x: u32, i: int)
    requires
        0 <= i <= s.len(),
    ensures
        i <= insert_pos_u32(s, x, i) <= s.len(),
    decreases s.len() - i,
{
    if i < s.len() && !(x < s[i]) {
        lemma_insert_pos_u32(s, x, i + 1);
    }
}

proof fn lemma_sort_u32_len(s: Seq<u32>)
    ensures
        sort_u32(s).len() == s.len(),
    decreases s.len(),
{
    if s.len() > 0 {
        lemma_sort_u32_len(s.drop_last());
        lemma_insert_pos_u32(sort_u32(s.drop_last()), s.last(), 0);
    }
}

/// Sort a feature list in place, ascending.
fn sort_features(v: &mut Vec<u32>)
    ensures
        final(v)@ == sort_u32(old(v)@),
{
    let mut r: Vec<u32> = Vec::new();
    let mut i: usize = 0;
    while i < v.len()
        invariant
            i <= v@.len(),
            r@ == sort_u32(v@.take(i as int)),
        decreases v@.len() - i,
    {
        let x = v[i];
        let mut p: usize = 0;
        proof {
            lemma_sort_u32_len(v@.take(i as int));
        }
        while p < r.len() && !(x < r[p])
            invariant
                p <= r@.len(),
                insert_pos_u32(r@, x, 0) == insert_pos_u32(r@, x, p as int),
            decreases r@.len() - p,
        {
            p += 1;
        }
        proof {
            assert(v@.take(i + 1).drop_last() =~= v@.take(i as int));
            assert(v@.take(i + 1).last() == x);
        }
        r.insert(p, x);
        i += 1;
    }
    assert(v@.take(v@.len() as int) =~= v@);
    *v = r;
}

// ---- positions ----

/// Standard chess rules object.
pub struct Chess;

/// Game state: the position (Shredder FEN), the hashes of the positions
/// since the last irreversible move (for threefold repetition), and the
/// cached outcome.
#[derive(PartialEq, Debug)]
pub struct ChessState {
    fen: String,
    hash: u64,
    side: u8,
    history: Vec<u64>,
    outcome: Option<Outcome>,
}

impl ChessState {
    /// The position is one that `cozy-chess` reads back unchanged.
    #[verifier::type_invariant]
    spec fn readable(self) -> bool {
        fen_ok(self.fen@)
    }
}

impl Clone for ChessState {
    fn clone(&self) -> (c: ChessState)
        ensures
            Chess.model(&c) == Chess.model(self),
    {
        proof {
            use_type_invariant(self);
        }
        let history = self.history.clone();
        assert(history@ =~= self.history@);
        ChessState {
            fen: self.fen.clone(),
            hash: self.hash,
            side: self.side,
            history,
            outcome: self.outcome,
        }
    }
}

/// Undo record: the previous position, and either the history that an
/// irreversible move cleared or nothing (the move pushed one hash).
pub struct ChessUndo {
    fen: String,
    hash: u64,
    side: u8,
    cleared_history: Option<Vec<u64>>,
    prev_outcome: Option<Outcome>,
}

impl ChessUndo {
    /// The saved position is one that `cozy-chess` reads back unchanged.
    #[verifier::type_invariant]
    spec fn readable(self) -> bool {
        fen_ok(self.fen@)
    }
}

/// Mathematical view of a chess state.
pub struct ChessModel {
    pub fen: Seq<char>,
    /// The board hash of `fen`, cached.
    pub hash: u64,
    /// The colour index of the side to move, cached.
    pub side: u8,
    pub history: Seq<u64>,
    pub outcome: Option<Outcome>,
}

/// Mathematical view of an undo record.
pub struct ChessUndoModel {
    pub fen: Seq<char>,
    pub hash: u64,
    pub side: u8,
    pub cleared: Option<Seq<u64>>,
    pub prev_outcome: Option<Outcome>,
}

/// The player of a `cozy-chess` colour index (white 0 moves first).
pub open spec fn player_of(color: u8) -> Player {
    if color == 0 {
        Player::One
    } else {
        Player::Two
    }
}

/// How often `key` occurs in `history`.
pub open spec fn repeats(history: Seq<u64>, key: u64) -> nat
    decreases history.len(),
{
    if history.len() == 0 {
        0
    } else {
        repeats(history.drop_last(), key) + if history.last() == key {
            1nat
        } else {
            0nat
        }
    }
}

/// The outcome of a position with a repetition history: mate is a win
/// for the side that did not move into it, stalemate and the fifty-move
/// rule (both reported by `Board::status`) are draws, and so is a third
/// occurrence of the position.
pub open spec fn outcome_of(fen: Seq<char>, history: Seq<u64>) -> Option<Outcome> {
    let status = cozy_status(fen);
    if status == 0 {
        Some(Outcome::Win(player_of(cozy_fields(fen).side).other()))
    } else if status == 1 {
        Some(Outcome::Draw)
    } else if repeats(history, cozy_hash(fen)) >= 2 {
        Some(Outcome::Draw)
    } else if cozy_moves(fen).len() == 0 || cozy_moves(fen).len() > 0xffff_ffff {
        // Never taken: `Board::status` reports an ongoing game only when
        // there is a legal move, and the move list is short.
        Some(Outcome::Draw)
    } else {
        None
    }
}

/// The legal moves of a position, sorted into the stable order the
/// search needs (an impossibly long list counts as none).
pub open spec fn chess_moves(fen: Seq<char>) -> Seq<ChessMove> {
    if cozy_moves(fen).len() <= 0xffff_ffff {
        sort_spec(cozy_moves(fen).map_values(|t: MoveTriple| move_of(t)))
    } else {
        Seq::empty()
    }
}

/// A fresh position with an empty history.
pub open spec fn fresh_model(fen: Seq<char>) -> ChessModel {
    ChessModel {
        fen,
        hash: cozy_hash(fen),
        side: cozy_fields(fen).side,
        history: Seq::empty(),
        outcome: outcome_of(fen, Seq::empty()),
    }
}

/// The message for a FEN text that `cozy-chess` refuses.
pub open spec fn bad_fen_message(text: Seq<char>, error: Seq<char>) -> Seq<char> {
    "bad FEN "@ + str_debug(text) + ": "@ + error
}

/// Square seen from `side`: ranks are flipped for Black so that forward
/// is always toward higher ranks (`Square::relative_to`).
pub open spec fn persp(square: int, side: u8) -> int {
    if side == 0 {
        square
    } else {
        (7 - square / 8) * 8 + square % 8
    }
}

/// Piece features of squares `0..n`, in square order.
pub open spec fn piece_features(f: FieldsModel, n: int) -> Seq<u32>
    decreases n,
{
    if n <= 0 {
        Seq::empty()
    } else {
        let rest = piece_features(f, n - 1);
        match f.squares[n - 1] {
            Some(pc) => rest.push(
                (persp(n - 1, f.side) * 12 + pc.0 * 2 + if pc.1 == f.side {
                    0int
                } else {
                    1int
                }) as u32,
            ),
            None => rest,
        }
    }
}

/// Castling-right features: own short, own long, opponent short,
/// opponent long, each present when the right is.
pub open spec fn right_features(f: FieldsModel) -> Seq<u32> {
    let own = 2 * f.side;
    let opp = 2 * (1 - f.side);
    (if f.castles[own] is Some {
        seq![768u32]
    } else {
        Seq::empty()
    }) + (if f.castles[own + 1] is Some {
        seq![769u32]
    } else {
        Seq::empty()
    }) + (if f.castles[opp] is Some {
        seq![770u32]
    } else {
        Seq::empty()
    }) + (if f.castles[opp + 1] is Some {
        seq![771u32]
    } else {
        Seq::empty()
    })
}

/// The en-passant file feature.
pub open spec fn ep_features(f: FieldsModel) -> Seq<u32> {
    match f.en_passant {
        Some(file) => seq![(772 + file) as u32],
        None => Seq::empty(),
    }
}

/// The sorted active features of a position.
pub open spec fn features_spec(f: FieldsModel) -> Seq<u32> {
    sort_u32(piece_features(f, 64) + right_features(f) + ep_features(f))
}

/// Action ID of a move for the side `side`: `from * 64 + to` in
/// perspective squares for ordinary moves and queen promotions; the
/// underpromotions follow, by piece, source file and direction.
pub open spec fn action_spec(side: u8, mv: ChessMove) -> int {
    let from = persp(mv.from as int, side);
    let to = persp(mv.to as int, side);
    if mv.from >= 64 || mv.to >= 64 {
        0
    } else if mv.promotion is Some && 1 <= mv.promotion->0 <= 3 {
        4096 + (mv.promotion->0 - 1) * 24 + (from % 8) * 3 + (to % 8 - from % 8 + 1)
    } else {
        from * 64 + to
    }
}

/// Promotions and captures (en passant included: a pawn changing file
/// onto an empty square). Castling is king-takes-own-rook, no capture.
pub open spec fn tactical_spec(f: FieldsModel, mv: ChessMove) -> bool {
    if mv.promotion is Some {
        true
    } else if mv.from >= 64 || mv.to >= 64 {
        false
    } else {
        match f.squares[mv.to as int] {
            Some(pc) => pc.1 != f.side,
            None => f.squares[mv.from as int] matches Some(pc) && pc.0 == 0 && mv.from % 8 != mv.to % 8,
        }
    }
}

/// The mover's king moving onto the mover's own rook: castling in
/// `cozy-chess`'s encoding.
pub open spec fn own_rook_target_spec(f: FieldsModel, mv: ChessMove) -> bool {
    &&& f.squares[mv.from as int] matches Some(pc) && pc.0 == 5
    &&& f.squares[mv.to as int] matches Some(qc) && qc.1 == f.side
}

/// Standard castling notation (king two squares over) to `cozy-chess`'s
/// king-takes-rook: e1g1, e1c1, e8g8, e8c8.
pub open spec fn castle_translation(from: u8, to: u8) -> Option<(u8, u8)> {
    if from == 4 && to == 6 {
        Some((4u8, 7u8))
    } else if from == 4 && to == 2 {
        Some((4u8, 0u8))
    } else if from == 60 && to == 62 {
        Some((60u8, 63u8))
    } else if from == 60 && to == 58 {
        Some((60u8, 56u8))
    } else {
        None
    }
}

/// The legal move that a UCI text names, standard castling notation
/// included.
pub open spec fn parsed_move(legal: Seq<ChessMove>, text: Seq<char>) -> Option<ChessMove> {
    match cozy_uci_move(text) {
        None => None,
        Some(t) => if legal.contains(move_of(t)) {
            Some(move_of(t))
        } else {
            match castle_translation(t.0, t.1) {
                Some(ft) => if legal.contains(ChessMove { from: ft.0, to: ft.1, promotion: None }) {
                    Some(ChessMove { from: ft.0, to: ft.1, promotion: None })
                } else {
                    None
                },
                None => None,
            }
        },
    }
}

fn player_of_color(color: u8) -> (p: Player)
    ensures
        p == player_of(color),
{
    if color == 0 {
        Player::One
    } else {
        Player::Two
    }
}

fn count_repeats(history: &Vec<u64>, key: u64) -> (n: usize)
    ensures
        n == repeats(history@, key),
{
    let mut n: usize = 0;
    let mut i: usize = 0;
    while i < history.len()
        invariant
            i <= history@.len(),
            n == repeats(history@.take(i as int), key),
            n <= i,
        decreases history@.len() - i,
    {
        proof {
            assert(history@.take(i + 1).drop_last() =~= history@.take(i as int));
        }
        if history[i] == key {
            n += 1;
        }
        i += 1;
    }
    assert(history@.take(history@.len() as int) =~= history@);
    n
}

impl Chess {
    /// Unmaking a move with the record that making it returned gives back
    /// the position, its history and its outcome.
    pub proof fn lemma_make_unmake(&self, m: ChessModel, mv: ChessMove)
        ensures
            self.restore(self.next(m, mv), mv, self.undo(m, mv)) == m,
    {
        let fen = cozy_after(m.fen, mv.triple());
        if cozy_fields(fen).halfmove != 0 {
            assert(m.history.push(m.hash).drop_last() =~= m.history);
        }
    }

    /// A move listed by `moves` is one that `cozy-chess` generated.
    pub proof fn lemma_listed(&self, m: ChessModel, mv: ChessMove)
        requires
            self.moves(m).contains(mv),
        ensures
            cozy_moves(m.fen).contains(mv.triple()),
    {
        let mapped = cozy_moves(m.fen).map_values(|t: MoveTriple| move_of(t));
        lemma_sort_members(mapped);
        assert(mapped.contains(mv));
        let i = choose|i: int| 0 <= i < mapped.len() && mapped[i] == mv;
        assert(cozy_moves(m.fen)[i] == mv.triple());
    }

    pub fn new() -> (c: Chess) {
        Chess
    }

    pub fn cell_count(&self) -> (n: u32)
        ensures
            n == 64,
    {
        64
    }

    pub fn feature_count(&self) -> (n: usize)
        ensures
            n == 780,
    {
        FEATURE_COUNT
    }

    pub fn action_count(&self) -> (n: usize)
        ensures
            n == 4168,
    {
        ACTION_COUNT
    }

    /// Outcome of a position with a history, from the position's facts.
    fn compute_outcome(&self, facts: &PositionFacts, history: &Vec<u64>, fen: Ghost<Seq<char>>) -> (o: Option<
        Outcome,
    >)
        requires
            facts.hash == cozy_hash(fen@),
            facts.status == cozy_status(fen@),
            facts.side == cozy_fields(fen@).side,
            facts.status <= 2,
            facts.status == 2 ==> cozy_moves(fen@).len() > 0,
            cozy_moves(fen@).len() <= 0xffff_ffff,
        ensures
            o == outcome_of(fen@, history@),
    {
        if facts.status == 0 {
            Some(Outcome::Win(player_of_color(facts.side).opponent()))
        } else if facts.status == 1 {
            Some(Outcome::Draw)
        } else if count_repeats(history, facts.hash) >= 2 {
            Some(Outcome::Draw)
        } else {
            None
        }
    }

    fn state_of(&self, fen: String) -> (s: ChessState)
        requires
            fen_ok(fen@),
        ensures
            self.model(&s) == fresh_model(fen@),
            self.valid(self.model(&s)),
    {
        let history: Vec<u64> = Vec::new();
        let facts = cozy_facts(fen.as_str());
        let _ = cozy_legal(fen.as_str());
        let outcome = self.compute_outcome(&facts, &history, Ghost(fen@));
        ChessState { fen, hash: facts.hash, side: facts.side, history, outcome }
    }

    /// Build a state from a FEN (or Shredder FEN) text; the history starts
    /// empty.
    pub fn state_from_fen(&self, fen: &str) -> (r: Result<ChessState, String>)
        ensures
            match cozy_fen(fen@) {
                Ok(canon) => r matches Ok(s) && self.model(&s) == fresh_model(canon) && self.valid(
                    self.model(&s),
                ),
                Err(e) => r matches Err(msg) && msg@ == bad_fen_message(fen@, e),
            },
    {
        match cozy_parse(fen) {
            Ok(canon) => Ok(self.state_of(canon)),
            Err(e) => {
                let mut msg = String::from_str("bad FEN ");
                let quoted = debug_quote(fen);
                msg.append(quoted.as_str());
                msg.append(": ");
                msg.append(e.as_str());
                Err(msg)
            },
        }
    }

    /// The position as Shredder FEN.
    pub fn fen<'a>(&self, state: &'a ChessState) -> (f: &'a str)
        ensures
            f@ == self.model(state).fen,
            fen_ok(f@),
    {
        proof {
            use_type_invariant(state);
        }
        state.fen.as_str()
    }

    /// Is `mv` the mover's king moving onto the mover's own rook, i.e.
    /// castling in `cozy-chess`'s encoding? (UCI notation differs.)
    pub fn is_own_rook_target(&self, state: &ChessState, mv: ChessMove) -> (t: bool)
        requires
            self.valid(self.model(state)),
            mv.from < 64,
            mv.to < 64,
        ensures
            t == own_rook_target_spec(cozy_fields(self.model(state).fen), mv),
    {
        proof {
            use_type_invariant(state);
        }
        let f = cozy_board_fields(state.fen.as_str());
        let king = match f.squares[mv.from as usize] {
            Some(pc) => pc.0 == 5,
            None => false,
        };
        let own = match f.squares[mv.to as usize] {
            Some(pc) => pc.1 == f.side,
            None => false,
        };
        king && own
    }
}

impl Game for Chess {
    type State = ChessState;
    type Move = ChessMove;
    type Undo = ChessUndo;
    type Model = ChessModel;
    type UndoModel = ChessUndoModel;

    open spec fn wf(&self) -> bool {
        true
    }

    closed spec fn model(&self, s: &ChessState) -> ChessModel {
        ChessModel { fen: s.fen@, hash: s.hash, side: s.side, history: s.history@, outcome: s.outcome }
    }

    /// States that can arise: the cached hash, side and outcome are the
    /// position's.
    open spec fn valid(&self, m: ChessModel) -> bool {
        &&& m.hash == cozy_hash(m.fen)
        &&& m.side == cozy_fields(m.fen).side
        &&& m.outcome == outcome_of(m.fen, m.history)
    }

    open spec fn initial(&self) -> ChessModel {
        fresh_model(start_fen())
    }

    open spec fn side(&self, m: ChessModel) -> Player {
        player_of(m.side)
    }

    open spec fn result(&self, m: ChessModel) -> Option<Outcome> {
        m.outcome
    }

    /// The board hash (`Board::hash`).
    open spec fn key(&self, m: ChessModel) -> u64 {
        m.hash
    }

    open spec fn moves(&self, m: ChessModel) -> Seq<ChessMove> {
        chess_moves(m.fen)
    }

    /// After a move: the new position, and a history that an irreversible
    /// move (halfmove clock back to zero) clears and any other move
    /// extends by the previous position's hash.
    open spec fn next(&self, m: ChessModel, mv: ChessMove) -> ChessModel {
        let fen = cozy_after(m.fen, mv.triple());
        let history = if cozy_fields(fen).halfmove == 0 {
            Seq::empty()
        } else {
            m.history.push(m.hash)
        };
        ChessModel {
            fen,
            hash: cozy_hash(fen),
            side: cozy_fields(fen).side,
            history,
            outcome: outcome_of(fen, history),
        }
    }

    closed spec fn undo_model(&self, u: &ChessUndo) -> ChessUndoModel {
        ChessUndoModel {
            fen: u.fen@,
            hash: u.hash,
            side: u.side,
            cleared: match u.cleared_history {
                Some(h) => Some(h@),
                None => None,
            },
            prev_outcome: u.prev_outcome,
        }
    }

    open spec fn undo(&self, m: ChessModel, mv: ChessMove) -> ChessUndoModel {
        let fen = cozy_after(m.fen, mv.triple());
        ChessUndoModel {
            fen: m.fen,
            hash: m.hash,
            side: m.side,
            cleared: if cozy_fields(fen).halfmove == 0 {
                Some(m.history)
            } else {
                None
            },
            prev_outcome: m.outcome,
        }
    }

    open spec fn restore(&self, m: ChessModel, mv: ChessMove, u: ChessUndoModel) -> ChessModel {
        ChessModel {
            fen: u.fen,
            hash: u.hash,
            side: u.side,
            history: match u.cleared {
                Some(h) => h,
                None => m.history.drop_last(),
            },
            outcome: u.prev_outcome,
        }
    }

    open spec fn features(&self, m: ChessModel) -> Seq<FeatureId> {
        features_spec(cozy_fields(m.fen))
    }

    open spec fn action(&self, m: ChessModel, mv: ChessMove) -> ActionId {
        action_spec(m.side, mv) as ActionId
    }

    open spec fn tactical(&self, m: ChessModel, mv: ChessMove) -> bool {
        tactical_spec(cozy_fields(m.fen), mv)
    }

    /// Chess positions can repeat.
    open spec fn acyclic(&self) -> bool {
        false
    }

    open spec fn height(&self, m: ChessModel) -> nat {
        0
    }

    proof fn lemma_initial_valid(&self) {
    }

    proof fn lemma_step(&self, m: ChessModel, mv: ChessMove) {
        self.lemma_make_unmake(m, mv);
    }

    proof fn lemma_live_has_moves(&self, m: ChessModel) {
        let l = cozy_moves(m.fen);
        assert(l.len() > 0 && l.len() <= 0xffff_ffff);
        lemma_sort_members(l.map_values(|t: MoveTriple| move_of(t)));
    }

    proof fn lemma_height_decreases(&self, m: ChessModel, mv: ChessMove) {
    }

    proof fn lemma_height_bounded(&self, m: ChessModel) {
    }

    proof fn lemma_moves_bounded(&self, m: ChessModel) {
        let l = cozy_moves(m.fen);
        if l.len() <= 0xffff_ffff {
            lemma_sort_members(l.map_values(|t: MoveTriple| move_of(t)));
        }
    }

    fn initial_state(&self) -> (s: ChessState) {
        self.state_of(cozy_start())
    }

    fn side_to_move(&self, state: &ChessState) -> (p: Player) {
        player_of_color(state.side)
    }

    /// Clear `moves` and append the legal moves, sorted.
    fn legal_moves(&self, state: &ChessState, moves: &mut Vec<ChessMove>) {
        proof {
            use_type_invariant(state);
        }
        let triples = cozy_legal(state.fen.as_str());
        let mut list: Vec<ChessMove> = Vec::new();
        let mut i: usize = 0;
        while i < triples.len()
            invariant
                i <= triples@.len(),
                list@ == triples@.take(i as int).map_values(|t: MoveTriple| move_of(t)),
            decreases triples@.len() - i,
        {
            let t = triples[i];
            list.push(ChessMove { from: t.0, to: t.1, promotion: t.2 });
            proof {
                assert(triples@.take(i + 1).map_values(|t: MoveTriple| move_of(t)) =~= triples@.take(
                    i as int,
                ).map_values(|t: MoveTriple| move_of(t)).push(move_of(t)));
            }
            i += 1;
        }
        assert(triples@.take(triples@.len() as int) =~= triples@);
        *moves = sort_moves(&list);
    }

    /// Play a legal move and return the record that undoes it.
    fn make_move(&self, state: &mut ChessState, mv: ChessMove) -> (u: ChessUndo) {
        proof {
            use_type_invariant(&*state);
            self.lemma_listed(self.model(state), mv);
        }
        let (after, facts) = cozy_play(state.fen.as_str(), (mv.from, mv.to, mv.promotion));
        let ghost new_fen = after@;
        let ghost old_model = self.model(state);
        let mut prev = ChessState { fen: after, hash: facts.hash, side: facts.side, history: Vec::new(), outcome: None };
        std::mem::swap(&mut prev, state);
        let ChessState { fen: prev_fen, hash: prev_hash, side: prev_side, history, outcome: prev_outcome } = prev;
        let mut history = history;
        assert(history@ == old_model.history);
        let cleared_history = if facts.halfmove == 0 {
            let taken = history;
            history = Vec::new();
            Some(taken)
        } else {
            history.push(prev_hash);
            None
        };
        let outcome = self.compute_outcome(&facts, &history, Ghost(new_fen));
        state.history = history;
        state.outcome = outcome;
        ChessUndo { fen: prev_fen, hash: prev_hash, side: prev_side, cleared_history, prev_outcome }
    }

    /// Undo `make_move`.
    fn unmake_move(&self, state: &mut ChessState, mv: ChessMove, u: ChessUndo) {
        proof {
            use_type_invariant(&u);
        }
        let ghost p = choose|p: ChessModel|
            #![trigger self.next(p, mv)]
            {
                &&& self.valid(p)
                &&& self.result(p) is None
                &&& self.moves(p).contains(mv)
                &&& self.next(p, mv) == self.model(state)
                &&& self.undo(p, mv) == self.undo_model(&u)
            };
        proof {
            self.lemma_make_unmake(p, mv);
        }
        let ChessUndo { fen, hash, side, cleared_history, prev_outcome } = u;
        let ghost cur = self.model(state);
        let mut now = ChessState { fen, hash, side, history: Vec::new(), outcome: prev_outcome };
        std::mem::swap(&mut now, state);
        let ChessState { history: current, .. } = now;
        assert(current@ == cur.history);
        let history = match cleared_history {
            Some(h) => h,
            None => {
                let mut h = current;
                h.pop();
                h
            },
        };
        state.history = history;
    }

    fn outcome(&self, state: &ChessState) -> (o: Option<Outcome>) {
        state.outcome
    }

    fn position_key(&self, state: &ChessState) -> (k: u64) {
        state.hash
    }

    /// Clear `features` and append the active feature IDs, ascending.
    fn encode_features(&self, state: &ChessState, features: &mut Vec<FeatureId>)
    {
        proof {
            use_type_invariant(state);
        }
        let f = cozy_board_fields(state.fen.as_str());
        let ghost fm = f@;
        let side = f.side;
        let mut out: Vec<u32> = Vec::new();
        let mut sq: usize = 0;
        while sq < 64
            invariant
                sq <= 64,
                fm == f@,
                fm.in_range(),
                side == fm.side,
                out@ == piece_features(fm, sq as int),
                out@.len() <= sq,
            decreases 64 - sq,
        {
            match f.squares[sq] {
                Some(pc) => {
                    let s = sq as u32;
                    let ps: u32 = if side == 0 {
                        s
                    } else {
                        (7 - s / 8) * 8 + s % 8
                    };
                    let own: u32 = if pc.1 == side {
                        0
                    } else {
                        1
                    };
                    out.push(ps * 12 + pc.0 as u32 * 2 + own);
                },
                None => {},
            }
            sq += 1;
        }
        let own = 2 * side as usize;
        let opp = 2 * (1 - side) as usize;
        let ghost pieces = out@;
        if f.castles[own].is_some() {
            out.push(768);
        }
        if f.castles[own + 1].is_some() {
            out.push(769);
        }
        if f.castles[opp].is_some() {
            out.push(770);
        }
        if f.castles[opp + 1].is_some() {
            out.push(771);
        }
        assert(out@ =~= pieces + right_features(fm));
        let ghost with_rights = out@;
        match f.en_passant {
            Some(file) => {
                out.push(772 + file as u32);
            },
            None => {},
        }
        assert(out@ =~= with_rights + ep_features(fm));
        sort_features(&mut out);
        *features = out;
    }

    /// Stable action ID of a move for the side to move.
    fn action_id(&self, state: &ChessState, mv: ChessMove) -> (a: ActionId) {
        if mv.from >= 64 || mv.to >= 64 {
            return 0;
        }
        let (from, to): (u32, u32) = if state.side == 0 {
            (mv.from as u32, mv.to as u32)
        } else {
            let a = mv.from as u32;
            let b = mv.to as u32;
            ((7 - a / 8) * 8 + a % 8, (7 - b / 8) * 8 + b % 8)
        };
        match mv.promotion {
            Some(p) => {
                if 1 <= p && p <= 3 {
                    let from_file = from % 8;
                    let to_file = to % 8;
                    4096 + (p as u32 - 1) * 24 + from_file * 3 + to_file + 1 - from_file
                } else {
                    from * 64 + to
                }
            },
            None => from * 64 + to,
        }
    }

    /// Does this move capture or promote?
    fn is_tactical(&self, state: &ChessState, mv: ChessMove) -> (t: bool)
    {
        if mv.promotion.is_some() {
            return true;
        }
        if mv.from >= 64 || mv.to >= 64 {
            return false;
        }
        proof {
            use_type_invariant(state);
        }
        let f = cozy_board_fields(state.fen.as_str());
        match f.squares[mv.to as usize] {
            Some(pc) => pc.1 != f.side,
            None => match f.squares[mv.from as usize] {
                Some(pc) => pc.0 == 0 && mv.from % 8 != mv.to % 8,
                None => false,
            },
        }
    }

    fn clone_state(&self, state: &ChessState) -> (c: ChessState) {
        proof {
            use_type_invariant(state);
        }
        let history = state.history.clone();
        assert(history@ =~= state.history@);
        ChessState { fen: state.fen.clone(), hash: state.hash, side: state.side, history, outcome: state.outcome }
    }

    fn same_move(&self, a: ChessMove, b: ChessMove) -> (r: bool) {
        a == b
    }
}

impl Default for Chess {
    fn default() -> (c: Chess) {
        Chess
    }
}

/// Does `list` hold `mv`?
fn list_has(list: &Vec<ChessMove>, mv: ChessMove) -> (b: bool)
    ensures
        b == list@.contains(mv),
{
    let mut i: usize = 0;
    while i < list.len()
        invariant
            i <= list@.len(),
            forall|j: int| 0 <= j < i ==> list@[j] != mv,
        decreases list@.len() - i,
    {
        if list[i] == mv {
            return true;
        }
        i += 1;
    }
    false
}

/// Parse a UCI move text against a state's legal moves, translating
/// standard castling notation (`e1g1`) to `cozy-chess`'s king-takes-rook.
pub fn parse_move_text(game: &Chess, state: &ChessState, text: &str) -> (r: Option<ChessMove>)
    requires
        game.valid(game.model(state)),
    ensures
        r == parsed_move(game.moves(game.model(state)), text@),
        forall|mv: ChessMove|
            #![trigger uci_text(cozy_fields(game.model(state).fen), mv)]
            uci_round_trips(game.moves(game.model(state)), cozy_fields(game.model(state).fen), mv)
                && text@ == uci_text(cozy_fields(game.model(state).fen), mv) ==> r == Some(mv),
{
    let mut legal: Vec<ChessMove> = Vec::new();
    game.legal_moves(state, &mut legal);
    let parsed = cozy_parse_move(text);
    proof {
        let f = cozy_fields(game.model(state).fen);
        assert forall|mv: ChessMove|
            #![trigger uci_text(cozy_fields(game.model(state).fen), mv)]
            uci_round_trips(game.moves(game.model(state)), f, mv) && text@ == uci_text(f, mv) implies parsed_move(
            game.moves(game.model(state)),
            text@,
        ) == Some(mv) by {
            lemma_uci_spelling(f, mv);
            let sp = spelled(f, mv);
            assert(square_name(sp.0) == square_name(sp.0));
            assert(parsed == Some((sp.0 as u8, sp.1 as u8, sp.2)));
            lemma_uci_round_trip(game.moves(game.model(state)), f, mv, text@);
        }
    }
    match parsed {
        None => None,
        Some(t) => {
            let mv = ChessMove { from: t.0, to: t.1, promotion: t.2 };
            if list_has(&legal, mv) {
                return Some(mv);
            }
            let translated: Option<(u8, u8)> = if t.0 == 4 && t.1 == 6 {
                Some((4, 7))
            } else if t.0 == 4 && t.1 == 2 {
                Some((4, 0))
            } else if t.0 == 60 && t.1 == 62 {
                Some((60, 63))
            } else if t.0 == 60 && t.1 == 58 {
                Some((60, 56))
            } else {
                None
            };
            match translated {
                Some(ft) => {
                    let castle = ChessMove { from: ft.0, to: ft.1, promotion: None };
                    if list_has(&legal, castle) {
                        Some(castle)
                    } else {
                        None
                    }
                },
                None => None,
            }
        },
    }
}

/// The king's two-square step that standard notation writes for a
/// castling move in `cozy-chess`'s king-takes-rook encoding.
pub open spec fn king_step(mv: ChessMove) -> ChessMove {
    ChessMove {
        from: mv.from,
        to: if mv.to > mv.from {
            (mv.from + 2) as u8
        } else {
            (mv.from - 2) as u8
        },
        promotion: None,
    }
}

/// A listed move whose UCI text names it: squares on the board, a
/// promotion to knight, bishop, rook or queen, and, for castling, no
/// promotion and no listed move that is the king's plain two-square step.
pub open spec fn uci_round_trips(legal: Seq<ChessMove>, f: FieldsModel, mv: ChessMove) -> bool {
    &&& legal.contains(mv)
    &&& triple_in_range(mv.triple())
    &&& castle_text(f.side, mv.from, mv.to) is Some && own_rook_target_spec(f, mv) ==> {
        &&& mv.promotion is None
        &&& !legal.contains(king_step(mv))
    }
}

/// The squares and promotion that the UCI text of `mv` spells.
pub open spec fn spelled(f: FieldsModel, mv: ChessMove) -> (int, int, Option<u8>) {
    if castle_text(f.side, mv.from, mv.to) is Some && own_rook_target_spec(f, mv) {
        (mv.from as int, king_step(mv).to as int, None)
    } else {
        (mv.from as int, mv.to as int, mv.promotion)
    }
}

/// The UCI text of a move is its spelled squares and promotion letter.
proof fn lemma_uci_spelling(f: FieldsModel, mv: ChessMove)
    requires
        triple_in_range(mv.triple()),
    ensures
        uci_text(f, mv) == square_name(spelled(f, mv).0) + square_name(spelled(f, mv).1) + promo_suffix(
            spelled(f, mv).2,
        ),
        0 <= spelled(f, mv).0 < 64,
        0 <= spelled(f, mv).1 < 64,
{
    if castle_text(f.side, mv.from, mv.to) is Some && own_rook_target_spec(f, mv) {
        reveal_strlit("e1g1");
        reveal_strlit("e1c1");
        reveal_strlit("e8g8");
        reveal_strlit("e8c8");
        let t = uci_text(f, mv);
        let u = square_name(spelled(f, mv).0) + square_name(spelled(f, mv).1) + promo_suffix(spelled(f, mv).2);
        assert(t =~= u);
    }
}

/// The move that parsing a spelled text and translating standard castling
/// gives, for a listed move that round-trips, is that move.
proof fn lemma_uci_round_trip(legal: Seq<ChessMove>, f: FieldsModel, mv: ChessMove, text: Seq<char>)
    requires
        uci_round_trips(legal, f, mv),
        cozy_uci_move(text) == Some((spelled(f, mv).0 as u8, spelled(f, mv).1 as u8, spelled(f, mv).2)),
    ensures
        parsed_move(legal, text) == Some(mv),
{
}

/// Name of a square, file letter then rank digit (`e4`).
pub open spec fn square_name(square: int) -> Seq<char> {
    seq![((97 + square % 8) as u8) as char, digit_char((square / 8 + 1) as nat)]
}

/// The promotion letter of a UCI move, `?` for a piece that cannot be
/// promoted to.
pub open spec fn promo_suffix(p: Option<u8>) -> Seq<char> {
    match p {
        None => Seq::empty(),
        Some(x) => if x == 1 {
            seq!['n']
        } else if x == 2 {
            seq!['b']
        } else if x == 3 {
            seq!['r']
        } else if x == 4 {
            seq!['q']
        } else {
            seq!['?']
        },
    }
}

/// Standard notation of the side's castling moves in `cozy-chess`'s
/// king-takes-rook encoding.
pub open spec fn castle_text(side: u8, from: u8, to: u8) -> Option<Seq<char>> {
    if side == 0 && from == 4 && to == 7 {
        Some("e1g1"@)
    } else if side == 0 && from == 4 && to == 0 {
        Some("e1c1"@)
    } else if side != 0 && from == 60 && to == 63 {
        Some("e8g8"@)
    } else if side != 0 && from == 60 && to == 56 {
        Some("e8c8"@)
    } else {
        None
    }
}

/// A move in standard UCI notation: castling as the king's two-square
/// step, everything else as source, destination and promotion letter.
pub open spec fn uci_text(f: FieldsModel, mv: ChessMove) -> Seq<char> {
    if castle_text(f.side, mv.from, mv.to) is Some && own_rook_target_spec(f, mv) {
        castle_text(f.side, mv.from, mv.to)->0
    } else {
        square_name(mv.from as int) + square_name(mv.to as int) + promo_suffix(mv.promotion)
    }
}

fn push_square(s: &mut String, square: u8)
    requires
        square < 64,
    ensures
        final(s)@ == old(s)@ + square_name(square as int),
{
    push_ascii(s, 97 + square % 8);
    push_digit(s, (square / 8 + 1) as u64);
}

/// Render a move as a standard UCI string (castling back to
/// king-two-files notation).
pub fn format_uci_move(state: &ChessState, mv: ChessMove) -> (s: String)
    requires
        Chess.valid(Chess.model(state)),
        mv.from < 64,
        mv.to < 64,
    ensures
        s@ == uci_text(cozy_fields(Chess.model(state).fen), mv),
{
    let game = Chess::new();
    let white = state.side == 0;
    let castle = if white && mv.from == 4 && mv.to == 7 {
        Some("e1g1")
    } else if white && mv.from == 4 && mv.to == 0 {
        Some("e1c1")
    } else if !white && mv.from == 60 && mv.to == 63 {
        Some("e8g8")
    } else if !white && mv.from == 60 && mv.to == 56 {
        Some("e8c8")
    } else {
        None
    };
    // Only actual castling (king on its start square moving onto an own
    // rook) uses the translation.
    if let Some(text) = castle {
        if game.is_own_rook_target(state, mv) {
            return String::from_str(text);
        }
    }
    let mut text = String::new();
    push_square(&mut text, mv.from);
    push_square(&mut text, mv.to);
    match mv.promotion {
        Some(p) => {
            if p == 1 {
                push_ascii(&mut text, 110);
            } else if p == 2 {
                push_ascii(&mut text, 98);
            } else if p == 3 {
                push_ascii(&mut text, 114);
            } else if p == 4 {
                push_ascii(&mut text, 113);
            } else {
                text.append("?");
                proof {
                    reveal_strlit("?");
                }
            }
        },
        None => {},
    }
    text
}

} // verus!
