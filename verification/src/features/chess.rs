//! State-action measurements for standard chess.
//!
//! The same rule-level vocabulary as the Forward Chess move features,
//! minus orientation (chess pieces have none): moving/captured piece
//! type, promotion choice, check after the move, destination and source
//! attack facts, relative destination rank, castling, en passant. No
//! piece values, no strategic signs: the ranker learns them.

use crate::features::{
    indices_between, indices_ok, lemma_between_concat, lemma_between_ok, lemma_between_widen, lemma_ok_concat,
    FeatureEntry, MoveFeatures,
};
use crate::game::Game;
use crate::games::chess::{
    cozy_after, cozy_board_fields, cozy_fields, cozy_moves, cozy_no_checkers, cozy_not_in_check,
    cozy_play, own_rook_target_spec, persp, triple_in_range, BoardFields, Chess, ChessMove,
    ChessState, FieldsModel,
};
use crate::text::{decimal, push_decimal};
use vstd::prelude::*;

verus! {

// Move-feature index layout (dimension 25).
/// Moving piece type: indices 0..6.
pub const MF_MOVING: u32 = 0;
/// Captured piece type: indices 6..12.
pub const MF_CAPTURED: u32 = 6;
pub const MF_IS_CAPTURE: u32 = 12;
/// Promotion choice N, B, R, Q: indices 13..17.
pub const MF_PROMO_CHOICE: u32 = 13;
pub const MF_IS_PROMO: u32 = 17;
pub const MF_GIVES_CHECK: u32 = 18;
pub const MF_DEST_ATTACKED: u32 = 19;
pub const MF_DEST_DEFENDED: u32 = 20;
pub const MF_SOURCE_ATTACKED: u32 = 21;
pub const MF_DEST_REL_RANK: u32 = 22;
pub const MF_IS_CASTLE: u32 = 23;
pub const MF_IS_EP: u32 = 24;
pub const CHESS_MOVE_FEATURE_DIMENSION: usize = 25;

/// Does square `(file, rank)` exist and hold `piece` of `color`?
pub open spec fn holds(squares: Seq<Option<(u8, u8)>>, file: int, rank: int, piece: u8, color: u8) -> bool {
    &&& 0 <= file < 8
    &&& 0 <= rank < 8
    &&& squares[rank * 8 + file] == Some((piece, color))
}

/// The first piece met walking from `(file, rank)` (inclusive) in steps
/// of `(df, dr)`, within `steps` squares and the board.
pub open spec fn ray_first(
    squares: Seq<Option<(u8, u8)>>,
    file: int,
    rank: int,
    df: int,
    dr: int,
    steps: nat,
) -> Option<(u8, u8)>
    decreases steps,
{
    if steps == 0 || file < 0 || file >= 8 || rank < 0 || rank >= 8 {
        None
    } else {
        match squares[rank * 8 + file] {
            Some(pc) => Some(pc),
            None => ray_first(squares, file + df, rank + dr, df, dr, (steps - 1) as nat),
        }
    }
}

/// The slider met first from `(file, rank)` in direction `(df, dr)` is a
/// piece of `color` of type `a` or `b`.
pub open spec fn slider_on(
    squares: Seq<Option<(u8, u8)>>,
    file: int,
    rank: int,
    df: int,
    dr: int,
    color: u8,
    a: u8,
    b: u8,
) -> bool {
    ray_first(squares, file + df, rank + dr, df, dr, 7) matches Some(pc) && pc.1 == color && (pc.0 == a
        || pc.0 == b)
}

/// Is `square` attacked by any piece of `by`? Knights and kings by their
/// jump and step patterns; pawns from the squares that a pawn of the
/// other colour on `square` would attack; bishops, rooks and queens as
/// the first piece along their lines.
#[verifier::opaque]
pub open spec fn attacked_spec(f: FieldsModel, square: int, by: u8) -> bool {
    let s = f.squares;
    let x = square % 8;
    let y = square / 8;
    let pawn_rank = if by == 0 {
        y - 1
    } else {
        y + 1
    };
    ||| holds(s, x + 1, y + 2, 1, by) || holds(s, x + 2, y + 1, 1, by) || holds(s, x + 2, y - 1, 1, by)
        || holds(s, x + 1, y - 2, 1, by) || holds(s, x - 1, y - 2, 1, by) || holds(s, x - 2, y - 1, 1, by)
        || holds(s, x - 2, y + 1, 1, by) || holds(s, x - 1, y + 2, 1, by)
    ||| holds(s, x + 1, y + 1, 5, by) || holds(s, x + 1, y, 5, by) || holds(s, x + 1, y - 1, 5, by)
        || holds(s, x, y - 1, 5, by) || holds(s, x - 1, y - 1, 5, by) || holds(s, x - 1, y, 5, by)
        || holds(s, x - 1, y + 1, 5, by) || holds(s, x, y + 1, 5, by)
    ||| holds(s, x - 1, pawn_rank, 0, by) || holds(s, x + 1, pawn_rank, 0, by)
    ||| slider_on(s, x, y, 1, 1, by, 2, 4) || slider_on(s, x, y, 1, -1, by, 2, 4) || slider_on(
        s,
        x,
        y,
        -1,
        -1,
        by,
        2,
        4,
    ) || slider_on(s, x, y, -1, 1, by, 2, 4)
    ||| slider_on(s, x, y, 1, 0, by, 3, 4) || slider_on(s, x, y, -1, 0, by, 3, 4) || slider_on(
        s,
        x,
        y,
        0,
        1,
        by,
        3,
        4,
    ) || slider_on(s, x, y, 0, -1, by, 3, 4)
}

pub open spec fn entry_if(b: bool, index: u32, value: i32) -> Seq<FeatureEntry> {
    if b {
        seq![(index, value)]
    } else {
        Seq::empty()
    }
}

/// A pawn changing file onto an empty square: en passant.
pub open spec fn is_ep_spec(f: FieldsModel, mv: ChessMove) -> bool {
    &&& f.squares[mv.from as int] matches Some(pc) && pc.0 == 0
    &&& mv.from % 8 != mv.to % 8
    &&& f.squares[mv.to as int] is None
}

/// Captured piece and capture flags; castling (onto the mover's own rook)
/// captures nothing.
pub open spec fn capture_entries(f: FieldsModel, mv: ChessMove) -> Seq<FeatureEntry> {
    if own_rook_target_spec(f, mv) {
        Seq::empty()
    } else {
        match f.squares[mv.to as int] {
            Some(victim) => seq![((MF_CAPTURED + victim.0) as u32, 1i32), (MF_IS_CAPTURE, 1i32)],
            None => if is_ep_spec(f, mv) {
                seq![(MF_CAPTURED, 1i32), (MF_IS_CAPTURE, 1i32), (MF_IS_EP, 1i32)]
            } else {
                Seq::empty()
            },
        }
    }
}

/// Promotion choice (knight 0 .. queen 3) and the promotion flag.
pub open spec fn promotion_entries(mv: ChessMove) -> Seq<FeatureEntry> {
    match mv.promotion {
        Some(p) => seq![((MF_PROMO_CHOICE + p - 1) as u32, 1i32), (MF_IS_PROMO, 1i32)],
        None => Seq::empty(),
    }
}

/// Rank of the destination seen from the side to move.
pub open spec fn rel_rank_spec(f: FieldsModel, mv: ChessMove) -> int {
    persp(mv.to as int, f.side) / 8
}

/// The features of a move, given whether it gives check.
#[verifier::opaque]
pub open spec fn move_features(f: FieldsModel, mv: ChessMove, gives_check: bool) -> Seq<FeatureEntry> {
    let piece = match f.squares[mv.from as int] {
        Some(pc) => pc.0,
        None => 0u8,
    };
    seq![((MF_MOVING + piece) as u32, 1i32)] + capture_entries(f, mv) + after_capture(f, mv, gives_check)
}

/// Name of a piece index.
pub open spec fn piece_name(p: int) -> Seq<char> {
    if p == 0 {
        "Pawn"@
    } else if p == 1 {
        "Knight"@
    } else if p == 2 {
        "Bishop"@
    } else if p == 3 {
        "Rook"@
    } else if p == 4 {
        "Queen"@
    } else {
        "King"@
    }
}

/// Stable, human-readable name of a feature index.
pub open spec fn chess_feature_name(index: u32) -> Seq<char> {
    if index < MF_CAPTURED {
        "moving/"@ + piece_name(index - MF_MOVING)
    } else if index < MF_IS_CAPTURE {
        "captured/"@ + piece_name(index - MF_CAPTURED)
    } else if index == MF_IS_CAPTURE {
        "is_capture"@
    } else if index < MF_IS_PROMO {
        "promo_choice/"@ + if index == 13 {
            "N"@
        } else if index == 14 {
            "B"@
        } else if index == 15 {
            "R"@
        } else {
            "Q"@
        }
    } else if index == MF_IS_PROMO {
        "is_promotion"@
    } else if index == MF_GIVES_CHECK {
        "gives_check"@
    } else if index == MF_DEST_ATTACKED {
        "dest_attacked"@
    } else if index == MF_DEST_DEFENDED {
        "dest_defended"@
    } else if index == MF_SOURCE_ATTACKED {
        "source_attacked"@
    } else if index == MF_DEST_REL_RANK {
        "dest_relative_rank"@
    } else if index == MF_IS_CASTLE {
        "is_castle"@
    } else if index == MF_IS_EP {
        "is_en_passant"@
    } else {
        "unknown/"@ + decimal(index as nat)
    }
}

/// Does `(file, rank)` exist and hold `piece` of `color`?
fn holds_at(squares: &Vec<Option<(u8, u8)>>, file: i8, rank: i8, piece: u8, color: u8) -> (b: bool)
    requires
        squares@.len() == 64,
    ensures
        b == holds(squares@, file as int, rank as int, piece, color),
{
    if 0 <= file && file < 8 && 0 <= rank && rank < 8 {
        let i = (rank as usize) * 8 + file as usize;
        match squares[i] {
            Some(pc) => pc.0 == piece && pc.1 == color,
            None => false,
        }
    } else {
        false
    }
}

/// The first piece from `(file + df, rank + dr)` outward.
fn first_on_ray(squares: &Vec<Option<(u8, u8)>>, file: i8, rank: i8, df: i8, dr: i8) -> (r: Option<(u8, u8)>)
    requires
        squares@.len() == 64,
        0 <= file < 8,
        0 <= rank < 8,
        -1 <= df <= 1,
        -1 <= dr <= 1,
    ensures
        r == ray_first(squares@, file + df, rank + dr, df as int, dr as int, 7),
{
    let mut x: i8 = file + df;
    let mut y: i8 = rank + dr;
    let mut steps: u8 = 7;
    while steps > 0 && 0 <= x && x < 8 && 0 <= y && y < 8
        invariant
            squares@.len() == 64,
            -1 <= df <= 1,
            -1 <= dr <= 1,
            -1 <= x <= 8,
            -1 <= y <= 8,
            ray_first(squares@, x as int, y as int, df as int, dr as int, steps as nat) == ray_first(
                squares@,
                file + df,
                rank + dr,
                df as int,
                dr as int,
                7,
            ),
        decreases steps,
    {
        let i = (y as usize) * 8 + x as usize;
        match squares[i] {
            Some(pc) => {
                return Some(pc);
            },
            None => {},
        }
        x = x + df;
        y = y + dr;
        steps = steps - 1;
    }
    None
}

fn slider_at(squares: &Vec<Option<(u8, u8)>>, file: i8, rank: i8, df: i8, dr: i8, color: u8, a: u8, b: u8) -> (r: bool)
    requires
        squares@.len() == 64,
        0 <= file < 8,
        0 <= rank < 8,
        -1 <= df <= 1,
        -1 <= dr <= 1,
    ensures
        r == slider_on(squares@, file as int, rank as int, df as int, dr as int, color, a, b),
{
    match first_on_ray(squares, file, rank, df, dr) {
        Some(pc) => pc.1 == color && (pc.0 == a || pc.0 == b),
        None => false,
    }
}

/// Is `square` attacked by any piece of `by`?
fn square_attacked(f: &BoardFields, square: u8, by: u8) -> (r: bool)
    requires
        f@.in_range(),
        square < 64,
    ensures
        r == attacked_spec(f@, square as int, by),
{
    reveal(attacked_spec);
    let s = &f.squares;
    let x = (square % 8) as i8;
    let y = (square / 8) as i8;
    let knight = holds_at(s, x + 1, y + 2, 1, by) || holds_at(s, x + 2, y + 1, 1, by) || holds_at(
        s,
        x + 2,
        y - 1,
        1,
        by,
    ) || holds_at(s, x + 1, y - 2, 1, by) || holds_at(s, x - 1, y - 2, 1, by) || holds_at(
        s,
        x - 2,
        y - 1,
        1,
        by,
    ) || holds_at(s, x - 2, y + 1, 1, by) || holds_at(s, x - 1, y + 2, 1, by);
    let king = holds_at(s, x + 1, y + 1, 5, by) || holds_at(s, x + 1, y, 5, by) || holds_at(
        s,
        x + 1,
        y - 1,
        5,
        by,
    ) || holds_at(s, x, y - 1, 5, by) || holds_at(s, x - 1, y - 1, 5, by) || holds_at(
        s,
        x - 1,
        y,
        5,
        by,
    ) || holds_at(s, x - 1, y + 1, 5, by) || holds_at(s, x, y + 1, 5, by);
    let pawn_rank = if by == 0 {
        y - 1
    } else {
        y + 1
    };
    let pawn = holds_at(s, x - 1, pawn_rank, 0, by) || holds_at(s, x + 1, pawn_rank, 0, by);
    let diagonal = slider_at(s, x, y, 1, 1, by, 2, 4) || slider_at(s, x, y, 1, -1, by, 2, 4)
        || slider_at(s, x, y, -1, -1, by, 2, 4) || slider_at(s, x, y, -1, 1, by, 2, 4);
    let straight = slider_at(s, x, y, 1, 0, by, 3, 4) || slider_at(s, x, y, -1, 0, by, 3, 4)
        || slider_at(s, x, y, 0, 1, by, 3, 4) || slider_at(s, x, y, 0, -1, by, 3, 4);
    knight || king || pawn || diagonal || straight
}

/// Chess move-feature extractor.
pub struct ChessMoveFeatures;

impl ChessMoveFeatures {
    pub fn new(game: &Chess) -> (e: ChessMoveFeatures) {
        ChessMoveFeatures
    }

    pub fn dimension(&self) -> (d: usize)
        ensures
            d == CHESS_MOVE_FEATURE_DIMENSION,
    {
        CHESS_MOVE_FEATURE_DIMENSION
    }

    /// Clear `out` and append the features of a legal move, whose source
    /// square holds the moving piece.
    #[verifier::rlimit(40)]
    #[verifier::spinoff_prover]
    pub fn extract(&mut self, game: &Chess, state: &ChessState, mv: ChessMove, out: &mut Vec<FeatureEntry>)
        requires
            game.valid(game.model(state)),
            game.moves(game.model(state)).contains(mv),
            triple_in_range(mv.triple()),
            cozy_fields(game.model(state).fen).squares[mv.from as int] is Some,
        ensures
            final(out)@ == move_features(
                cozy_fields(game.model(state).fen),
                mv,
                !cozy_no_checkers(cozy_after(game.model(state).fen, mv.triple())),
            ),
            cozy_fields(game.model(state).fen).in_range(),
    {
        proof {
            game.lemma_listed(game.model(state), mv);
        }
        let fen = game.fen(state);
        let f = cozy_board_fields(fen);
        let castle = game.is_own_rook_target(state, mv);
        let (after, _) = cozy_play(fen, (mv.from, mv.to, mv.promotion));
        let check = !cozy_not_in_check(after.as_str());
        let mut v = base_entries(&f, mv, castle);
        let mut rest = measured_entries(&f, mv, check, castle);
        let ghost (a, b) = (v@, rest@);
        v.append(&mut rest);
        proof {
            let fm = f@;
            assert(v@ =~= move_features(fm, mv, check)) by {
                reveal(move_features);
                assert(v@ =~= a + b);
            }
        }
        *out = v;
    }

    /// `extract` for a legal move whose source square holds a piece, which
    /// every legal move's does; `false`, with `out` left as it was, when the
    /// square is empty.
    pub fn extract_if_occupied(
        &mut self,
        game: &Chess,
        state: &ChessState,
        mv: ChessMove,
        out: &mut Vec<FeatureEntry>,
    ) -> (done: bool)
        requires
            game.valid(game.model(state)),
            game.moves(game.model(state)).contains(mv),
            triple_in_range(mv.triple()),
        ensures
            done == cozy_fields(game.model(state).fen).squares[mv.from as int] is Some,
            done ==> final(out)@ == move_features(
                cozy_fields(game.model(state).fen),
                mv,
                !cozy_no_checkers(cozy_after(game.model(state).fen, mv.triple())),
            ),
            !done ==> final(out)@ == old(out)@,
    {
        let f = cozy_board_fields(game.fen(state));
        if f.squares[mv.from as usize].is_some() {
            self.extract(game, state, mv, out);
            true
        } else {
            false
        }
    }

    /// Stable, human-readable name of a feature index.
    pub fn feature_name(&self, index: u32) -> (s: String)
        ensures
            s@ == chess_feature_name(index),
    {
        if index < MF_CAPTURED {
            let mut s = String::from_str("moving/");
            s.append(piece_text(index - MF_MOVING).as_str());
            s
        } else if index < MF_IS_CAPTURE {
            let mut s = String::from_str("captured/");
            s.append(piece_text(index - MF_CAPTURED).as_str());
            s
        } else if index == MF_IS_CAPTURE {
            String::from_str("is_capture")
        } else if index < MF_IS_PROMO {
            let mut s = String::from_str("promo_choice/");
            if index == 13 {
                s.append("N");
            } else if index == 14 {
                s.append("B");
            } else if index == 15 {
                s.append("R");
            } else {
                s.append("Q");
            }
            s
        } else if index == MF_IS_PROMO {
            String::from_str("is_promotion")
        } else if index == MF_GIVES_CHECK {
            String::from_str("gives_check")
        } else if index == MF_DEST_ATTACKED {
            String::from_str("dest_attacked")
        } else if index == MF_DEST_DEFENDED {
            String::from_str("dest_defended")
        } else if index == MF_SOURCE_ATTACKED {
            String::from_str("source_attacked")
        } else if index == MF_DEST_REL_RANK {
            String::from_str("dest_relative_rank")
        } else if index == MF_IS_CASTLE {
            String::from_str("is_castle")
        } else if index == MF_IS_EP {
            String::from_str("is_en_passant")
        } else {
            let mut s = String::from_str("unknown/");
            push_decimal(&mut s, index as u64);
            s
        }
    }
}

/// The moving piece, the capture and the promotion entries.
fn base_entries(f: &BoardFields, mv: ChessMove, castle: bool) -> (v: Vec<FeatureEntry>)
    requires
        f@.in_range(),
        triple_in_range(mv.triple()),
        f@.squares[mv.from as int] is Some,
        castle == own_rook_target_spec(f@, mv),
    ensures
        v@ == seq![
            ((MF_MOVING + match f@.squares[mv.from as int] {
                Some(pc) => pc.0,
                None => 0u8,
            }) as u32, 1i32),
        ] + capture_entries(f@, mv) + promotion_entries(mv),
{
    let piece = match f.squares[mv.from as usize] {
        Some(pc) => pc.0,
        None => 0,
    };
    let mut v: Vec<FeatureEntry> = Vec::new();
    v.push((MF_MOVING + piece as u32, 1));
    if !castle {
        match f.squares[mv.to as usize] {
            Some(victim) => {
                v.push((MF_CAPTURED + victim.0 as u32, 1));
                v.push((MF_IS_CAPTURE, 1));
            },
            None => {
                if piece == 0 && mv.from % 8 != mv.to % 8 {
                    v.push((MF_CAPTURED, 1));
                    v.push((MF_IS_CAPTURE, 1));
                    v.push((MF_IS_EP, 1));
                }
            },
        }
    }
    match mv.promotion {
        Some(p) => {
            v.push((MF_PROMO_CHOICE + p as u32 - 1, 1));
            v.push((MF_IS_PROMO, 1));
        },
        None => {},
    }
    v
}

/// Check, attack, relative-rank and castling entries.
fn measured_entries(f: &BoardFields, mv: ChessMove, check: bool, castle: bool) -> (v: Vec<FeatureEntry>)
    requires
        f@.in_range(),
        triple_in_range(mv.triple()),
    ensures
        v@ == entry_if(check, MF_GIVES_CHECK, 1) + entry_if(
            attacked_spec(f@, mv.to as int, (1 - f@.side) as u8),
            MF_DEST_ATTACKED,
            1,
        ) + entry_if(attacked_spec(f@, mv.to as int, f@.side), MF_DEST_DEFENDED, 1) + entry_if(
            attacked_spec(f@, mv.from as int, (1 - f@.side) as u8),
            MF_SOURCE_ATTACKED,
            1,
        ) + entry_if(rel_rank_spec(f@, mv) != 0, MF_DEST_REL_RANK, rel_rank_spec(f@, mv) as i32)
            + entry_if(castle, MF_IS_CASTLE, 1),
{
    let side = f.side;
    let them: u8 = 1 - side;
    let mut v: Vec<FeatureEntry> = Vec::new();
    if check {
        v.push((MF_GIVES_CHECK, 1));
    }
    let dest_attacked = square_attacked(f, mv.to, them);
    if dest_attacked {
        v.push((MF_DEST_ATTACKED, 1));
    }
    let dest_defended = square_attacked(f, mv.to, side);
    if dest_defended {
        v.push((MF_DEST_DEFENDED, 1));
    }
    let source_attacked = square_attacked(f, mv.from, them);
    if source_attacked {
        v.push((MF_SOURCE_ATTACKED, 1));
    }
    let to = mv.to as i32;
    let rel_rank: i32 = if side == 0 {
        to / 8
    } else {
        7 - to / 8
    };
    assert(rel_rank == rel_rank_spec(f@, mv));
    if rel_rank != 0 {
        v.push((MF_DEST_REL_RANK, rel_rank));
    }
    if castle {
        v.push((MF_IS_CASTLE, 1));
    }
    assert(v@ =~= entry_if(check, MF_GIVES_CHECK, 1) + entry_if(dest_attacked, MF_DEST_ATTACKED, 1)
        + entry_if(dest_defended, MF_DEST_DEFENDED, 1) + entry_if(source_attacked, MF_SOURCE_ATTACKED, 1)
        + entry_if(rel_rank != 0, MF_DEST_REL_RANK, rel_rank) + entry_if(castle, MF_IS_CASTLE, 1));
    v
}

fn piece_text(p: u32) -> (s: String)
    ensures
        s@ == piece_name(p as int),
{
    if p == 0 {
        String::from_str("Pawn")
    } else if p == 1 {
        String::from_str("Knight")
    } else if p == 2 {
        String::from_str("Bishop")
    } else if p == 3 {
        String::from_str("Rook")
    } else if p == 4 {
        String::from_str("Queen")
    } else {
        String::from_str("King")
    }
}


proof fn lemma_one_in(c: bool, index: u32, v: i32)
    ensures
        indices_between(entry_if(c, index, v), index as int, index + 1),
{
}

/// The entries after the capture entries: promotion, check, attack,
/// rank and castle entries.
pub open spec fn after_capture(f: FieldsModel, mv: ChessMove, check: bool) -> Seq<FeatureEntry> {
    let rr = rel_rank_spec(f, mv);
    promotion_entries(mv) + entry_if(check, MF_GIVES_CHECK, 1) + entry_if(
        attacked_spec(f, mv.to as int, (1 - f.side) as u8),
        MF_DEST_ATTACKED,
        1,
    ) + entry_if(attacked_spec(f, mv.to as int, f.side), MF_DEST_DEFENDED, 1) + entry_if(
        attacked_spec(f, mv.from as int, (1 - f.side) as u8),
        MF_SOURCE_ATTACKED,
        1,
    ) + entry_if(rr != 0, MF_DEST_REL_RANK, rr as i32) + entry_if(own_rook_target_spec(f, mv), MF_IS_CASTLE, 1)
}

proof fn lemma_after_capture(f: FieldsModel, mv: ChessMove, check: bool)
    requires
        triple_in_range(mv.triple()),
    ensures
        indices_between(after_capture(f, mv, check), 13, 24),
{
    let rr = rel_rank_spec(f, mv);
    let promo = promotion_entries(mv);
    assert(indices_between(promo, 13, 18));
    let e1 = entry_if(check, MF_GIVES_CHECK, 1);
    let e2 = entry_if(attacked_spec(f, mv.to as int, (1 - f.side) as u8), MF_DEST_ATTACKED, 1);
    let e3 = entry_if(attacked_spec(f, mv.to as int, f.side), MF_DEST_DEFENDED, 1);
    let e4 = entry_if(attacked_spec(f, mv.from as int, (1 - f.side) as u8), MF_SOURCE_ATTACKED, 1);
    let e5 = entry_if(rr != 0, MF_DEST_REL_RANK, rr as i32);
    let e6 = entry_if(own_rook_target_spec(f, mv), MF_IS_CASTLE, 1);
    lemma_one_in(check, MF_GIVES_CHECK, 1);
    lemma_one_in(attacked_spec(f, mv.to as int, (1 - f.side) as u8), MF_DEST_ATTACKED, 1);
    lemma_one_in(attacked_spec(f, mv.to as int, f.side), MF_DEST_DEFENDED, 1);
    lemma_one_in(attacked_spec(f, mv.from as int, (1 - f.side) as u8), MF_SOURCE_ATTACKED, 1);
    lemma_one_in(rr != 0, MF_DEST_REL_RANK, rr as i32);
    lemma_one_in(own_rook_target_spec(f, mv), MF_IS_CASTLE, 1);
    lemma_between_concat(promo, e1, 13, 18, 19);
    lemma_between_concat(promo + e1, e2, 13, 19, 20);
    lemma_between_concat(promo + e1 + e2, e3, 13, 20, 21);
    lemma_between_concat(promo + e1 + e2 + e3, e4, 13, 21, 22);
    lemma_between_concat(promo + e1 + e2 + e3 + e4, e5, 13, 22, 23);
    lemma_between_concat(promo + e1 + e2 + e3 + e4 + e5, e6, 13, 23, 24);
}

/// Move features have unique indices below the move-feature dimension
/// (the en-passant flag, filed with the capture entries, is the one
/// index out of order).
#[verifier::spinoff_prover]
proof fn lemma_chess_move_indices(f: FieldsModel, mv: ChessMove, check: bool)
    requires
        f.in_range(),
        triple_in_range(mv.triple()),
        f.squares[mv.from as int] is Some,
    ensures
        indices_ok(move_features(f, mv, check), CHESS_MOVE_FEATURE_DIMENSION as int),
{
    let piece = match f.squares[mv.from as int] {
        Some(pc) => pc.0,
        None => 0u8,
    };
    assert(piece < 6) by {
        assert(f.squares[mv.from as int] matches Some(pc) ==> pc.0 < 6);
    }
    let first = seq![((MF_MOVING + piece) as u32, 1i32)];
    assert(indices_between(first, 0, 6));
    let cap = capture_entries(f, mv);
    let rest = after_capture(f, mv, check);
    lemma_after_capture(f, mv, check);
    let all = move_features(f, mv, check);
    assert(all == first + cap + rest) by {
        reveal(move_features);
    }
    if !own_rook_target_spec(f, mv) && f.squares[mv.to as int] is None && is_ep_spec(f, mv) {
        let pair = seq![(MF_CAPTURED, 1i32), (MF_IS_CAPTURE, 1i32)];
        let last = seq![(MF_IS_EP, 1i32)];
        assert(cap =~= pair + last);
        lemma_between_concat(first, pair, 0, 6, 13);
        lemma_between_ok(first + pair, CHESS_MOVE_FEATURE_DIMENSION as int);
        lemma_between_ok(last, CHESS_MOVE_FEATURE_DIMENSION as int);
        lemma_ok_concat(first + pair, last, CHESS_MOVE_FEATURE_DIMENSION as int);
        lemma_between_widen(rest, 13, 24, 0, 25);
        lemma_between_ok(rest, CHESS_MOVE_FEATURE_DIMENSION as int);
        let head = first + pair + last;
        assert forall|i: int| 0 <= i < head.len() implies #[trigger] head[i].0 < 13 || head[i].0 == 24 by {
            if i < (first + pair).len() {
                assert(head[i] == (first + pair)[i]);
            } else {
                assert(head[i] == last[i - (first + pair).len()]);
            }
        }
        lemma_ok_concat(head, rest, CHESS_MOVE_FEATURE_DIMENSION as int);
        assert(all =~= head + rest);
    } else {
        assert(indices_between(cap, 6, 13)) by {
            if !own_rook_target_spec(f, mv) {
                match f.squares[mv.to as int] {
                    Some(victim) => {
                        assert(f.squares[mv.to as int] matches Some(pc) ==> pc.0 < 6);
                    },
                    None => {},
                }
            }
        }
        lemma_between_concat(first, cap, 0, 6, 13);
        lemma_between_concat(first + cap, rest, 0, 13, 24);
        lemma_between_ok(first + cap + rest, CHESS_MOVE_FEATURE_DIMENSION as int);
    }
}

impl MoveFeatures<Chess> for ChessMoveFeatures {
    open spec fn spec_dimension(&self) -> int {
        CHESS_MOVE_FEATURE_DIMENSION as int
    }

    open spec fn measures(&self, game: &Chess, state: &ChessState, mv: ChessMove) -> bool {
        &&& game.valid(game.model(state))
        &&& game.moves(game.model(state)).contains(mv)
        &&& triple_in_range(mv.triple())
        &&& cozy_fields(game.model(state).fen).squares[mv.from as int] is Some
    }

    fn dimension(&self) -> (d: usize) {
        ChessMoveFeatures::dimension(self)
    }

    fn extract(&mut self, game: &Chess, state: &ChessState, mv: ChessMove, out: &mut Vec<FeatureEntry>) {
        ChessMoveFeatures::extract(self, game, state, mv, out);
        proof {
            let m = game.model(state);
            lemma_chess_move_indices(cozy_fields(m.fen), mv, !cozy_no_checkers(cozy_after(m.fen, mv.triple())));
        }
    }

    fn feature_name(&self, index: u32) -> (s: String) {
        ChessMoveFeatures::feature_name(self, index)
    }
}
} // verus!
