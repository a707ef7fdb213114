//! Forward Chess: chess in which a piece may move to or attack a square
//! only if the rank displacement measured in the piece's *ahead*
//! direction is `>= 0`. Promoted pieces are created with reversed
//! orientation, so orientation is separate from colour.
//!
//! Positions can repeat (threefold repetition is a draw), so the acyclic
//! exact solver does not apply; the retrograde solver handles the reduced
//! rulesets.
//!
//! Cells are indexed `cell = rank * width + file`, rank 0 being White's
//! home rank. A cell holds `0` (empty) or the packed code
//! `1 + piece + 6 * [owner is Two] + 12 * [reversed]`.

use crate::game::{ActionId, FeatureId, Game, Outcome, Player};
use crate::games::grid::{run_measure, unit_step, zfold, zobrist_fold};
use crate::text::{decimal, printable, push_ascii, push_decimal};
use crate::zobrist::chacha12_u64s;
use vstd::prelude::*;
use vstd::string::StringSliceAdditionalSpecFns;

pub mod tablebase;

verus! {

/// Fixed seed for Zobrist key generation.
const ZOBRIST_SEED: u64 = 0xf0c4_ad5e_0a11_5eed;

const EMPTY: u8 = 0;

#[derive(Clone, Copy, PartialEq, Eq, PartialOrd, Ord, Debug, Hash, Structural)]
pub enum Piece {
    Pawn,
    Knight,
    Bishop,
    Rook,
    Queen,
    King,
}

/// Index of a piece kind (declaration order).
pub open spec fn piece_index(p: Piece) -> int {
    match p {
        Piece::Pawn => 0,
        Piece::Knight => 1,
        Piece::Bishop => 2,
        Piece::Rook => 3,
        Piece::Queen => 4,
        Piece::King => 5,
    }
}

pub open spec fn piece_of_index(i: int) -> Piece {
    if i == 0 {
        Piece::Pawn
    } else if i == 1 {
        Piece::Knight
    } else if i == 2 {
        Piece::Bishop
    } else if i == 3 {
        Piece::Rook
    } else if i == 4 {
        Piece::Queen
    } else {
        Piece::King
    }
}

/// Owner of a nonempty cell code.
pub open spec fn code_owner(code: u8) -> Player {
    if ((code - 1) / 6) % 2 == 0 {
        Player::One
    } else {
        Player::Two
    }
}

pub open spec fn code_piece(code: u8) -> Piece {
    piece_of_index((code - 1) % 6)
}

pub open spec fn code_reversed(code: u8) -> bool {
    (code - 1) / 12 == 1
}

/// The cell code of a piece.
pub open spec fn pack_code(owner: Player, piece: Piece, reversed: bool) -> u8 {
    (1 + piece_index(piece) + (if owner == Player::Two {
        6int
    } else {
        0int
    }) + (if reversed {
        12int
    } else {
        0int
    })) as u8
}

fn piece_idx(p: Piece) -> (r: u8)
    ensures
        r == piece_index(p),
{
    match p {
        Piece::Pawn => 0,
        Piece::Knight => 1,
        Piece::Bishop => 2,
        Piece::Rook => 3,
        Piece::Queen => 4,
        Piece::King => 5,
    }
}

fn pack(owner: Player, piece: Piece, reversed: bool) -> (c: u8)
    ensures
        c == pack_code(owner, piece, reversed),
        1 <= c <= 24,
{
    let two: u8 = if owner == Player::Two {
        6
    } else {
        0
    };
    let rev: u8 = if reversed {
        12
    } else {
        0
    };
    1 + piece_idx(piece) + two + rev
}

fn unpack(code: u8) -> (r: (Player, Piece, bool))
    requires
        1 <= code <= 24,
    ensures
        r == (code_owner(code), code_piece(code), code_reversed(code)),
{
    let index = code - 1;
    let piece = match index % 6 {
        0 => Piece::Pawn,
        1 => Piece::Knight,
        2 => Piece::Bishop,
        3 => Piece::Rook,
        4 => Piece::Queen,
        _ => Piece::King,
    };
    let owner = if (index / 6) % 2 == 0 {
        Player::One
    } else {
        Player::Two
    };
    (owner, piece, index / 12 == 1)
}

/// Packing then unpacking gives the piece back.
pub proof fn lemma_pack_unpack(owner: Player, piece: Piece, reversed: bool)
    ensures
        1 <= pack_code(owner, piece, reversed) <= 24,
        code_owner(pack_code(owner, piece, reversed)) == owner,
        code_piece(pack_code(owner, piece, reversed)) == piece,
        code_reversed(pack_code(owner, piece, reversed)) == reversed,
{
}

/// Named reduced rulesets.
#[derive(Clone, Copy, PartialEq, Eq, Debug, Structural)]
pub enum Ruleset {
    Tiny,
    Small,
    Medium,
    Full,
}

pub open spec fn ruleset_dims(r: Ruleset) -> (u16, u16) {
    match r {
        Ruleset::Tiny => (3, 4),
        Ruleset::Small => (4, 4),
        Ruleset::Medium => (6, 6),
        Ruleset::Full => (8, 8),
    }
}

pub open spec fn ruleset_castles(r: Ruleset) -> bool {
    r == Ruleset::Full
}

pub open spec fn ruleset_code(r: Ruleset) -> u8 {
    match r {
        Ruleset::Tiny => 0,
        Ruleset::Small => 1,
        Ruleset::Medium => 2,
        Ruleset::Full => 3,
    }
}

impl Ruleset {
    pub fn label(self) -> (s: &'static str)
        ensures
            s@ == match self {
                Ruleset::Tiny => "tiny"@,
                Ruleset::Small => "small"@,
                Ruleset::Medium => "medium"@,
                Ruleset::Full => "full"@,
            },
    {
        match self {
            Ruleset::Tiny => "tiny",
            Ruleset::Small => "small",
            Ruleset::Medium => "medium",
            Ruleset::Full => "full",
        }
    }

    fn dimensions(self) -> (r: (u16, u16))
        ensures
            r == ruleset_dims(self),
    {
        match self {
            Ruleset::Tiny => (3, 4),
            Ruleset::Small => (4, 4),
            Ruleset::Medium => (6, 6),
            Ruleset::Full => (8, 8),
        }
    }

    /// Does the ruleset allow castling?
    pub fn castles_exec(self) -> (r: bool)
        ensures
            r == ruleset_castles(self),
    {
        self.castling()
    }

    fn castling(self) -> (r: bool)
        ensures
            r == ruleset_castles(self),
    {
        match self {
            Ruleset::Full => true,
            _ => false,
        }
    }

    /// The ruleset's code in tablebase headers.
    pub fn code(self) -> (r: u8)
        ensures
            r == ruleset_code(self),
    {
        match self {
            Ruleset::Tiny => 0,
            Ruleset::Small => 1,
            Ruleset::Medium => 2,
            Ruleset::Full => 3,
        }
    }
}

/// Rules object for one Forward Chess ruleset.
pub struct ForwardChess {
    ruleset: Ruleset,
    width: u16,
    height: u16,
    /// `zobrist[24 * cell + code - 1]`
    zobrist: Vec<u64>,
    zobrist_side: u64,
    zobrist_castle: Vec<u64>,
    zobrist_ep: Vec<u64>,
}

/// A move. Castling is encoded as the king's two-file step.
#[derive(Clone, Copy, PartialEq, Eq, PartialOrd, Ord, Debug, Structural)]
pub struct FcMove {
    pub from: u16,
    pub to: u16,
    pub promotion: Option<Piece>,
}

/// Position core: everything except the repetition history.
#[derive(Clone, PartialEq, Debug)]
pub struct FcCore {
    cells: Vec<u8>,
    to_move: Player,
    /// `[white short, white long, black short, black long]`
    castling: [bool; 4],
    /// The square a double-stepping pawn crossed, if capturable now.
    ep: Option<u16>,
    halfmove: u16,
    key: u64,
    outcome: Option<Outcome>,
}

/// Full game state: core plus hashes since the last irreversible move.
#[derive(Clone, PartialEq, Debug)]
pub struct FcState {
    core: FcCore,
    history: Vec<u64>,
}

/// Undo record: the whole prior core, and the history if the move
/// cleared it.
pub struct FcUndo {
    prior: FcCore,
    cleared_history: Option<Vec<u64>>,
}

/// Mathematical view of a position core.
#[verifier::ext_equal]
pub struct CoreModel {
    pub cells: Seq<u8>,
    pub to_move: Player,
    pub castling: Seq<bool>,
    pub ep: Option<u16>,
    pub halfmove: u16,
    pub key: u64,
    pub outcome: Option<Outcome>,
}

/// Mathematical view of a state.
#[verifier::ext_equal]
pub struct FcModel {
    pub core: CoreModel,
    pub history: Seq<u64>,
}

/// Mathematical view of an undo record.
#[verifier::ext_equal]
pub struct FcUndoModel {
    pub prior: CoreModel,
    pub cleared_history: Option<Seq<u64>>,
}

pub closed spec fn core_view(c: FcCore) -> CoreModel {
    CoreModel {
        cells: c.cells@,
        to_move: c.to_move,
        castling: c.castling@,
        ep: c.ep,
        halfmove: c.halfmove,
        key: c.key,
        outcome: c.outcome,
    }
}

/// Forward rank step of an owner.
pub open spec fn forward_of(owner: Player) -> int {
    match owner {
        Player::One => 1,
        Player::Two => -1,
    }
}

/// A piece's ahead direction: its owner's forward, flipped when reversed.
pub open spec fn ahead_of(owner: Player, reversed: bool) -> int {
    if reversed {
        -forward_of(owner)
    } else {
        forward_of(owner)
    }
}

pub open spec fn abs(x: int) -> int {
    if x < 0 {
        -x
    } else {
        x
    }
}

pub open spec fn sign(x: int) -> int {
    if x > 0 {
        1
    } else if x < 0 {
        -1
    } else {
        0
    }
}

/// Coordinate `a` moved `i` steps in direction `d`.
pub open spec fn walk(a: int, i: int, d: int) -> int {
    if d > 0 {
        a + i
    } else if d < 0 {
        a - i
    } else {
        a
    }
}

/// Cell `i` steps from `from` toward `target`.
pub open spec fn ray_cell(w: int, from: int, target: int, i: int) -> int {
    let (fx, fy) = (from % w, from / w);
    let (tx, ty) = (target % w, target / w);
    walk(fy, i, sign(ty - fy)) * w + walk(fx, i, sign(tx - fx))
}

/// Number of steps from `from` to an aligned `target`.
pub open spec fn ray_len(w: int, from: int, target: int) -> int {
    vstd::math::max(abs(target % w - from % w), abs(target / w - from / w))
}

/// Rank, file or diagonal alignment.
pub open spec fn aligned(w: int, from: int, target: int) -> bool {
    let df = target % w - from % w;
    let dr = target / w - from / w;
    df == 0 || dr == 0 || abs(df) == abs(dr)
}

/// Every square strictly between `from` and `target` is empty.
pub open spec fn ray_clear_spec(cells: Seq<u8>, w: int, from: int, target: int) -> bool {
    forall|i: int| 1 <= i < ray_len(w, from, target) ==> cells[#[trigger] ray_cell(w, from, target, i)] == 0
}

/// Does the piece `code` on `from` attack `target`?
pub open spec fn fc_attacks(cells: Seq<u8>, w: int, from: int, code: u8, target: int) -> bool {
    if from == target {
        false
    } else {
        let ahead = ahead_of(code_owner(code), code_reversed(code));
        let df = target % w - from % w;
        let dr = (target / w - from / w) * ahead;
        match code_piece(code) {
            Piece::Pawn => dr == 1 && abs(df) == 1,
            Piece::Knight => (abs(df) == 1 && dr == 2) || (abs(df) == 2 && dr == 1),
            Piece::King => 0 <= dr <= 1 && abs(df) <= 1,
            Piece::Rook => ((df == 0 && dr > 0) || (dr == 0 && df != 0)) && ray_clear_spec(
                cells,
                w,
                from,
                target,
            ),
            Piece::Bishop => abs(df) == dr && dr > 0 && ray_clear_spec(cells, w, from, target),
            Piece::Queen => ((df == 0 && dr > 0) || (dr == 0 && df != 0) || (abs(df) == dr && dr
                > 0)) && ray_clear_spec(cells, w, from, target),
        }
    }
}

/// Is `target` attacked by a piece of `attacker` on cells `0..i`?
pub open spec fn attacked_upto(cells: Seq<u8>, w: int, target: int, attacker: Player, i: int) -> bool
    decreases i,
{
    if i <= 0 {
        false
    } else {
        attacked_upto(cells, w, target, attacker, i - 1) || {
            let code = cells[i - 1];
            code != 0 && code_owner(code) == attacker && fc_attacks(cells, w, i - 1, code, target)
        }
    }
}

/// First cell at or after `start` holding `code` (`cells.len()` if none).
pub open spec fn find_code(cells: Seq<u8>, code: u8, start: int) -> int
    decreases cells.len() - start,
{
    if start < 0 || start >= cells.len() {
        cells.len() as int
    } else if cells[start] == code {
        start
    } else {
        find_code(cells, code, start + 1)
    }
}

/// Square of `owner`'s king (`cells.len()` if it has none).
pub open spec fn king_at(cells: Seq<u8>, owner: Player) -> int {
    find_code(cells, pack_code(owner, Piece::King, false), 0)
}

/// Is `p`'s king attacked?
pub open spec fn in_check_spec(cells: Seq<u8>, w: int, p: Player) -> bool {
    let k = king_at(cells, p);
    k < cells.len() && attacked_upto(cells, w, k, p.other(), cells.len() as int)
}

proof fn lemma_find_code(cells: Seq<u8>, code: u8, start: int)
    requires
        0 <= start <= cells.len(),
    ensures
        start <= find_code(cells, code, start) <= cells.len(),
        find_code(cells, code, start) < cells.len() ==> cells[find_code(cells, code, start)] == code,
    decreases cells.len() - start,
{
    if start < cells.len() && cells[start] != code {
        lemma_find_code(cells, code, start + 1);
    }
}

impl ForwardChess {
    pub open spec fn n(&self) -> int {
        self.w() * self.h()
    }

    pub closed spec fn w(&self) -> int {
        self.width as int
    }

    pub closed spec fn h(&self) -> int {
        self.height as int
    }

    pub closed spec fn spec_ruleset(&self) -> Ruleset {
        self.ruleset
    }

    pub closed spec fn wf_rules(&self) -> bool {
        &&& (self.width, self.height) == ruleset_dims(self.ruleset)
        &&& 3 <= self.width <= 8
        &&& 4 <= self.height <= 8
        &&& 12 <= self.n() <= 64
        &&& self.zobrist@.len() == 24 * self.n()
        &&& self.zobrist_castle@.len() == 4
        &&& self.zobrist_ep@.len() == self.width
    }

    /// Zobrist key of a position core.
    pub closed spec fn key_of(&self, cells: Seq<u8>, to_move: Player, castling: Seq<bool>, ep: Option<u16>) -> u64 {
        let board = zfold(self.zobrist@, 24, cells, self.n());
        let side = if to_move == Player::Two {
            self.zobrist_side
        } else {
            0u64
        };
        let c0 = if castling[0] {
            self.zobrist_castle@[0]
        } else {
            0u64
        };
        let c1 = if castling[1] {
            self.zobrist_castle@[1]
        } else {
            0u64
        };
        let c2 = if castling[2] {
            self.zobrist_castle@[2]
        } else {
            0u64
        };
        let c3 = if castling[3] {
            self.zobrist_castle@[3]
        } else {
            0u64
        };
        let e = match ep {
            Some(sq) => self.zobrist_ep@[(sq % self.width) as int],
            None => 0u64,
        };
        board ^ side ^ c0 ^ c1 ^ c2 ^ c3 ^ e
    }

    pub fn new(ruleset: Ruleset) -> (g: ForwardChess)
        ensures
            g.wf_rules(),
            g.spec_ruleset() == ruleset,
            (g.w(), g.h()) == (ruleset_dims(ruleset).0 as int, ruleset_dims(ruleset).1 as int),
    {
        let (width, height) = ruleset.dimensions();
        assert(3 <= width <= 8 && 4 <= height <= 8) by {
            match ruleset {
                Ruleset::Tiny => {},
                Ruleset::Small => {},
                Ruleset::Medium => {},
                Ruleset::Full => {},
            }
        }
        assert(width as int * height as int <= 64) by (nonlinear_arith)
            requires
                3 <= width <= 8,
                4 <= height <= 8,
        ;
        let cells = width as usize * height as usize;
        let total = 24 * cells + 1 + 4 + width as usize;
        let draws = chacha12_u64s(ZOBRIST_SEED, total);
        let mut zobrist: Vec<u64> = Vec::new();
        let mut i: usize = 0;
        while i < 24 * cells
            invariant
                cells <= 64,
                total == 24 * cells + 5 + width,
                i <= 24 * cells,
                draws@.len() == total,
                zobrist@.len() == i,
            decreases 24 * cells - i,
        {
            zobrist.push(draws[i]);
            i += 1;
        }
        let zobrist_side = draws[24 * cells];
        let mut zobrist_castle: Vec<u64> = Vec::new();
        let mut j: usize = 0;
        while j < 4
            invariant
                cells <= 64,
                total == 24 * cells + 5 + width,
                draws@.len() == total,
                j <= 4,
                zobrist_castle@.len() == j,
            decreases 4 - j,
        {
            zobrist_castle.push(draws[24 * cells + 1 + j]);
            j += 1;
        }
        let mut zobrist_ep: Vec<u64> = Vec::new();
        let mut k: usize = 0;
        while k < width as usize
            invariant
                cells <= 64,
                total == 24 * cells + 5 + width,
                draws@.len() == total,
                k <= width,
                zobrist_ep@.len() == k,
            decreases width - k,
        {
            zobrist_ep.push(draws[24 * cells + 5 + k]);
            k += 1;
        }
        assert(width as int * height as int >= 12) by (nonlinear_arith)
            requires
                3 <= width,
                4 <= height,
        ;
        ForwardChess { ruleset, width, height, zobrist, zobrist_side, zobrist_castle, zobrist_ep }
    }

    pub fn ruleset(&self) -> (r: Ruleset)
        ensures
            r == self.spec_ruleset(),
    {
        self.ruleset
    }

    pub fn width(&self) -> (w: u16)
        ensures
            w == self.w(),
    {
        self.width
    }

    pub fn height(&self) -> (h: u16)
        ensures
            h == self.h(),
    {
        self.height
    }

    pub fn cell_count(&self) -> (n: u32)
        requires
            self.wf_rules(),
        ensures
            n == self.n(),
            12 <= n <= 64,
    {
        assert(12 <= self.width as int * self.height as int <= 64) by (nonlinear_arith)
            requires
                3 <= self.width <= 8,
                4 <= self.height <= 8,
        ;
        self.width as u32 * self.height as u32
    }

    /// 24 features per cell (piece x own/opp x orientation) plus 4
    /// castling rights plus `width` en-passant files.
    pub fn feature_count(&self) -> (n: usize)
        requires
            self.wf_rules(),
        ensures
            n == self.n() * 24 + 4 + self.w(),
    {
        self.cell_count() as usize * 24 + 4 + self.width as usize
    }

    /// `from x to` plus underpromotion slots (piece x from-file x dir).
    pub fn action_count(&self) -> (n: usize)
        requires
            self.wf_rules(),
        ensures
            n == self.n() * self.n() + 3 * self.w() * 3,
    {
        let cells = self.cell_count() as usize;
        assert(cells * cells <= 64 * 64) by (nonlinear_arith)
            requires
                cells <= 64,
        ;
        cells * cells + 3 * self.width as usize * 3
    }

    fn cell(&self, file: u16, rank: u16) -> (c: u16)
        requires
            self.wf_rules(),
            file < self.width,
            rank < self.height,
        ensures
            c == rank * self.w() + file,
            c < self.n(),
    {
        proof {
            crate::games::grid::lemma_cell_index(self.w(), self.h(), file as int, rank as int);
        }
        rank * self.width + file
    }

    /// The king's initial square: White's on the middle file of rank 1,
    /// Black's the 180-degree rotation of it.
    pub open spec fn king_home_spec(&self, owner: Player) -> int {
        let white = self.w() / 2;
        match owner {
            Player::One => white,
            Player::Two => self.n() - 1 - white,
        }
    }

    pub fn king_home(&self, owner: Player) -> (c: u16)
        requires
            self.wf_rules(),
        ensures
            c == self.king_home_spec(owner),
    {
        let white = self.cell(self.width / 2, 0);
        match owner {
            Player::One => white,
            Player::Two => self.cell_count() as u16 - 1 - white,
        }
    }

    fn compute_key(&self, core: &FcCore) -> (k: u64)
        requires
            self.wf_rules(),
            core.cells@.len() == self.n(),
            forall|c: int| 0 <= c < core.cells@.len() ==> #[trigger] core.cells@[c] <= 24,
        ensures
            k == self.key_of(core.cells@, core.to_move, core.castling@, core.ep),
    {
        let board = zobrist_fold(&self.zobrist, 24, &core.cells);
        let side: u64 = if core.to_move == Player::Two {
            self.zobrist_side
        } else {
            0
        };
        let c0: u64 = if core.castling[0] {
            self.zobrist_castle[0]
        } else {
            0
        };
        let c1: u64 = if core.castling[1] {
            self.zobrist_castle[1]
        } else {
            0
        };
        let c2: u64 = if core.castling[2] {
            self.zobrist_castle[2]
        } else {
            0
        };
        let c3: u64 = if core.castling[3] {
            self.zobrist_castle[3]
        } else {
            0
        };
        let e: u64 = match core.ep {
            Some(sq) => self.zobrist_ep[(sq % self.width) as usize],
            None => 0,
        };
        board ^ side ^ c0 ^ c1 ^ c2 ^ c3 ^ e
    }
}


/// Apply `mv` to a bare board with en-passant context: returns the new
/// board and whether the move was irreversible (pawn move or capture).
pub open spec fn apply_spec(cells: Seq<u8>, w: int, ep: Option<u16>, mv: FcMove) -> (Seq<u8>, bool) {
    let from = mv.from as int;
    let to = mv.to as int;
    let code = cells[from];
    let piece = code_piece(code);
    let owner = code_owner(code);
    let irr0 = piece == Piece::Pawn || cells[to] != 0;
    let is_ep = piece == Piece::Pawn && ep == Some(mv.to) && cells[to] == 0;
    let c1 = if is_ep {
        cells.update((from / w) * w + to % w, 0)
    } else {
        cells
    };
    let is_castle = piece == Piece::King && abs(to % w - from % w) == 2;
    let rank = from / w;
    let rook_from = if to % w > from % w {
        rank * w + w - 1
    } else {
        rank * w
    };
    let rook_to = if to % w > from % w {
        rank * w + from % w + 1
    } else {
        rank * w + from % w - 1
    };
    let c2 = if is_castle {
        c1.update(rook_to, c1[rook_from]).update(rook_from, 0)
    } else {
        c1
    };
    let placed = match mv.promotion {
        Some(p) => pack_code(owner, p, true),
        None => code,
    };
    (c2.update(from, 0).update(to, placed), irr0 || is_ep)
}

/// Would `mv` leave the mover's king attacked?
#[verifier::opaque]
pub open spec fn leaves_in_check(cells: Seq<u8>, w: int, ep: Option<u16>, mover: Player, mv: FcMove) -> bool {
    in_check_spec(apply_spec(cells, w, ep, mv).0, w, mover)
}

/// Board facts every function on cells relies on.
pub open spec fn board_ok(cells: Seq<u8>, n: int) -> bool {
    &&& cells.len() == n
    &&& forall|c: int| 0 <= c < n ==> #[trigger] cells[c] <= 24
}

proof fn lemma_coords(w: int, h: int, c: int)
    requires
        0 < w,
        0 <= c < w * h,
    ensures
        0 <= c % w < w,
        0 <= c / w < h,
        c == (c / w) * w + c % w,
{
    crate::games::grid::lemma_cell_coords(w, h, c);
}

proof fn lemma_index(w: int, h: int, x: int, y: int)
    requires
        0 <= x < w,
        0 <= y < h,
    ensures
        0 <= y * w + x < w * h,
        (y * w + x) % w == x,
        (y * w + x) / w == y,
{
    crate::games::grid::lemma_cell_index(w, h, x, y);
}

impl ForwardChess {
    /// Are the squares strictly between `from` and the aligned `target`
    /// empty?
    fn ray_clear(&self, cells: &Vec<u8>, from: u16, target: u16) -> (r: bool)
        requires
            self.wf_rules(),
            board_ok(cells@, self.n()),
            from < self.n(),
            target < self.n(),
            aligned(self.w(), from as int, target as int),
        ensures
            r == ray_clear_spec(cells@, self.w(), from as int, target as int),
    {
        let ghost w = self.w();
        let ghost h = self.h();
        proof {
            lemma_coords(w, h, from as int);
            lemma_coords(w, h, target as int);
        }
        let fx = (from % self.width) as i32;
        let fy = (from / self.width) as i32;
        let tx = (target % self.width) as i32;
        let ty = (target / self.width) as i32;
        let dx: i32 = if tx > fx {
            1
        } else if tx < fx {
            -1
        } else {
            0
        };
        let dy: i32 = if ty > fy {
            1
        } else if ty < fy {
            -1
        } else {
            0
        };
        let adx = if tx >= fx {
            tx - fx
        } else {
            fx - tx
        };
        let ady = if ty >= fy {
            ty - fy
        } else {
            fy - ty
        };
        let k = if adx >= ady {
            adx
        } else {
            ady
        };
        assert(k == ray_len(w, from as int, target as int));
        let mut i: i32 = 1;
        while i < k
            invariant
                self.wf_rules(),
                board_ok(cells@, self.n()),
                w == self.w(),
                h == self.h(),
                fx == from as int % w,
                fy == from as int / w,
                tx == target as int % w,
                ty == target as int / w,
                0 <= fx < w,
                0 <= fy < h,
                0 <= tx < w,
                0 <= ty < h,
                dx == sign(tx - fx),
                dy == sign(ty - fy),
                k == ray_len(w, from as int, target as int),
                aligned(w, from as int, target as int),
                1 <= i,
                k <= 8,
                forall|j: int| 1 <= j < i && j < k ==> cells@[#[trigger] ray_cell(w, from as int, target as int, j)] == 0,
            decreases k - i,
        {
            let x = if dx > 0 {
                fx + i
            } else if dx < 0 {
                fx - i
            } else {
                fx
            };
            let y = if dy > 0 {
                fy + i
            } else if dy < 0 {
                fy - i
            } else {
                fy
            };
            assert(0 <= x < w && 0 <= y < h);
            proof {
                lemma_index(w, h, x as int, y as int);
            }
            assert(ray_cell(w, from as int, target as int, i as int) == y * w + x);
            let c = (y * self.width as i32 + x) as usize;
            if cells[c] != EMPTY {
                return false;
            }
            i += 1;
        }
        true
    }

    /// Does the piece on `from` (with `code`) attack `target`?
    pub fn attacks(&self, cells: &Vec<u8>, from: u16, code: u8, target: u16) -> (r: bool)
        requires
            self.wf_rules(),
            board_ok(cells@, self.n()),
            from < self.n(),
            target < self.n(),
            1 <= code <= 24,
        ensures
            r == fc_attacks(cells@, self.w(), from as int, code, target as int),
    {
        if from == target {
            return false;
        }
        let ghost w = self.w();
        let ghost h = self.h();
        proof {
            lemma_coords(w, h, from as int);
            lemma_coords(w, h, target as int);
        }
        let (owner, piece, reversed) = unpack(code);
        let ahead: i32 = match (owner, reversed) {
            (Player::One, false) => 1,
            (Player::One, true) => -1,
            (Player::Two, false) => -1,
            (Player::Two, true) => 1,
        };
        let df = (target % self.width) as i32 - (from % self.width) as i32;
        let dr_board = (target / self.width) as i32 - (from / self.width) as i32;
        let dr = if ahead > 0 {
            dr_board
        } else {
            -dr_board
        };
        assert(dr == (target as int / w - from as int / w) * ahead) by (nonlinear_arith)
            requires
                (ahead > 0 ==> dr == dr_board),
                (ahead < 0 ==> dr == -dr_board),
                ahead == 1 || ahead == -1,
                dr_board == target as int / w - from as int / w,
        ;
        let adf = if df < 0 {
            -df
        } else {
            df
        };
        match piece {
            Piece::Pawn => dr == 1 && adf == 1,
            Piece::Knight => (adf == 1 && dr == 2) || (adf == 2 && dr == 1),
            Piece::King => 0 <= dr && dr <= 1 && adf <= 1,
            Piece::Rook => ((df == 0 && dr > 0) || (dr == 0 && df != 0)) && self.ray_clear(cells, from, target),
            Piece::Bishop => adf == dr && dr > 0 && self.ray_clear(cells, from, target),
            Piece::Queen => ((df == 0 && dr > 0) || (dr == 0 && df != 0) || (adf == dr && dr > 0))
                && self.ray_clear(cells, from, target),
        }
    }

    /// Is `target` attacked by any piece of `attacker`?
    fn square_attacked(&self, cells: &Vec<u8>, target: u16, attacker: Player) -> (r: bool)
        requires
            self.wf_rules(),
            board_ok(cells@, self.n()),
            target < self.n(),
        ensures
            r == attacked_upto(cells@, self.w(), target as int, attacker, self.n()),
    {
        let n = cells.len();
        let mut cell: usize = 0;
        while cell < n
            invariant
                self.wf_rules(),
                board_ok(cells@, self.n()),
                n == self.n(),
                target < self.n(),
                cell <= n,
                !attacked_upto(cells@, self.w(), target as int, attacker, cell as int),
            decreases n - cell,
        {
            let code = cells[cell];
            if code != EMPTY {
                let (owner, _, _) = unpack(code);
                if owner == attacker && self.attacks(cells, cell as u16, code, target) {
                    proof {
                        lemma_attacked_mono(cells@, self.w(), target as int, attacker, cell + 1, n as int);
                    }
                    return true;
                }
            }
            cell += 1;
        }
        false
    }

    /// Is `target` attacked by any piece of `attacker`?
    pub fn cell_attacked_by(&self, cells: &Vec<u8>, target: u16, attacker: Player) -> (r: bool)
        requires
            self.wf_rules(),
            board_ok(cells@, self.n()),
            target < self.n(),
        ensures
            r == attacked_upto(cells@, self.w(), target as int, attacker, self.n()),
    {
        self.square_attacked(cells, target, attacker)
    }

    /// Square of `owner`'s king, or the cell count if it has none.
    fn king_square(&self, cells: &Vec<u8>, owner: Player) -> (k: u16)
        requires
            self.wf_rules(),
            board_ok(cells@, self.n()),
        ensures
            k == king_at(cells@, owner),
    {
        let king = pack(owner, Piece::King, false);
        let n = cells.len();
        let mut c: usize = 0;
        while c < n
            invariant
                n == cells@.len(),
                n <= 64,
                c <= n,
                king == pack_code(owner, Piece::King, false),
                find_code(cells@, king, 0) == find_code(cells@, king, c as int),
            decreases n - c,
        {
            if cells[c] == king {
                return c as u16;
            }
            c += 1;
        }
        n as u16
    }

    /// Is `p`'s king attacked on this board?
    pub(crate) fn king_in_check(&self, cells: &Vec<u8>, p: Player) -> (r: bool)
        requires
            self.wf_rules(),
            board_ok(cells@, self.n()),
        ensures
            r == in_check_spec(cells@, self.w(), p),
    {
        let k = self.king_square(cells, p);
        if (k as usize) < cells.len() {
            self.square_attacked(cells, k, p.opponent())
        } else {
            false
        }
    }

    /// Apply `mv` to a bare board (shared by `make_move` and the legality
    /// filter); returns whether the move was irreversible.
    pub(crate) fn apply_to_cells(&self, cells: &mut Vec<u8>, ep: Option<u16>, mv: FcMove) -> (irreversible: bool)
        requires
            self.wf_rules(),
            board_ok(old(cells)@, self.n()),
            mv.from < self.n(),
            mv.to < self.n(),
            mv.from != mv.to,
            1 <= old(cells)@[mv.from as int] <= 24,
            code_piece(old(cells)@[mv.from as int]) == Piece::King && abs(mv.to as int % self.w() - mv.from as int % self.w()) == 2
                ==> mv.from as int / self.w() == mv.to as int / self.w(),
        ensures
            (final(cells)@, irreversible) == apply_spec(old(cells)@, self.w(), ep, mv),
            board_ok(final(cells)@, self.n()),
    {
        let ghost w = self.w();
        let ghost h = self.h();
        let ghost c0 = cells@;
        proof {
            lemma_coords(w, h, mv.from as int);
            lemma_coords(w, h, mv.to as int);
        }
        let from = mv.from as usize;
        let to = mv.to as usize;
        let code = cells[from];
        let (owner, piece, _reversed) = unpack(code);
        let mut irreversible = piece == Piece::Pawn;
        if cells[to] != EMPTY {
            irreversible = true;
        }
        let is_ep = match ep {
            Some(e) => piece == Piece::Pawn && e == mv.to && cells[to] == EMPTY,
            None => false,
        };
        if is_ep {
            let captured = self.cell(mv.to % self.width, mv.from / self.width);
            cells.set(captured as usize, EMPTY);
            irreversible = true;
        }
        let ghost c1 = cells@;
        let ff = mv.from % self.width;
        let tf = mv.to % self.width;
        let is_castle = piece == Piece::King && (if tf > ff {
            tf - ff
        } else {
            ff - tf
        }) == 2;
        if is_castle {
            let rank = mv.from / self.width;
            let (rook_from, rook_to) = if tf > ff {
                (self.cell(self.width - 1, rank), self.cell(ff + 1, rank))
            } else {
                (self.cell(0, rank), self.cell(ff - 1, rank))
            };
            let rook = cells[rook_from as usize];
            cells.set(rook_to as usize, rook);
            cells.set(rook_from as usize, EMPTY);
        }
        let ghost c2 = cells@;
        cells.set(from, EMPTY);
        let placed = match mv.promotion {
            Some(promoted) => pack(owner, promoted, true),
            None => code,
        };
        cells.set(to, placed);
        proof {
            let spec = apply_spec(c0, w, ep, mv);
            assert(c1 == (if is_ep {
                c0.update((mv.from as int / w) * w + mv.to as int % w, 0)
            } else {
                c0
            }));
            assert(cells@ =~= spec.0);
        }
        irreversible
    }
}

proof fn lemma_attacked_mono(cells: Seq<u8>, w: int, target: int, attacker: Player, i: int, j: int)
    requires
        0 <= i <= j,
        attacked_upto(cells, w, target, attacker, i),
    ensures
        attacked_upto(cells, w, target, attacker, j),
    decreases j,
{
    if i < j {
        lemma_attacked_mono(cells, w, target, attacker, i, j - 1);
    }
}


/// The move if it does not leave the mover in check, else nothing.
pub open spec fn legal_one(cells: Seq<u8>, w: int, ep: Option<u16>, mover: Player, mv: FcMove) -> Seq<FcMove> {
    if !leaves_in_check(cells, w, ep, mover, mv) {
        seq![mv]
    } else {
        Seq::empty()
    }
}

/// The legal moves from `from` to `to`: the four promotions (knight,
/// bishop, rook, queen) when `promo`, else the plain move.
#[verifier::opaque]
pub open spec fn push_spec(cells: Seq<u8>, w: int, ep: Option<u16>, mover: Player, from: int, to: int, promo: bool) -> Seq<FcMove> {
    let mv = |p: Option<Piece>| FcMove { from: from as u16, to: to as u16, promotion: p };
    if promo {
        legal_one(cells, w, ep, mover, mv(Some(Piece::Knight))) + legal_one(cells, w, ep, mover, mv(Some(Piece::Bishop)))
            + legal_one(cells, w, ep, mover, mv(Some(Piece::Rook))) + legal_one(cells, w, ep, mover, mv(Some(Piece::Queen)))
    } else {
        legal_one(cells, w, ep, mover, mv(None))
    }
}

pub open spec fn on_board(w: int, h: int, x: int, y: int) -> bool {
    0 <= x < w && 0 <= y < h
}

/// Last rank of an owner's natural pawns.
pub open spec fn last_rank(owner: Player, h: int) -> int {
    match owner {
        Player::One => h - 1,
        Player::Two => 0,
    }
}

/// Starting rank of an owner's pawns.
pub open spec fn pawn_home_rank(owner: Player, h: int) -> int {
    match owner {
        Player::One => 1,
        Player::Two => h - 2,
    }
}

/// Pawn moves of the mover's pawn on `from` (pushes, then captures to the
/// left and right).
pub open spec fn pawn_spec(cells: Seq<u8>, w: int, h: int, ep: Option<u16>, mover: Player, from: int, ahead: int) -> Seq<FcMove> {
    pawn_push_spec(cells, w, h, ep, mover, from, ahead) + pawn_capture_spec(cells, w, h, ep, mover, from, ahead, -1)
        + pawn_capture_spec(cells, w, h, ep, mover, from, ahead, 1)
}

/// Single push (promoting on the last rank), then the double push from
/// the pawn's home rank.
#[verifier::opaque]
pub open spec fn pawn_push_spec(cells: Seq<u8>, w: int, h: int, ep: Option<u16>, mover: Player, from: int, ahead: int) -> Seq<FcMove> {
    let fx = from % w;
    let fy = from / w;
    let last = last_rank(mover, h);
    let step = fy + ahead;
    let dbl = fy + 2 * ahead;
    if on_board(w, h, fx, step) && cells[step * w + fx] == 0 {
        push_spec(cells, w, ep, mover, from, step * w + fx, step == last) + if fy == pawn_home_rank(mover, h)
            && on_board(w, h, fx, dbl) && dbl != last && cells[dbl * w + fx] == 0 {
            push_spec(cells, w, ep, mover, from, dbl * w + fx, false)
        } else {
            Seq::empty()
        }
    } else {
        Seq::empty()
    }
}

#[verifier::opaque]
pub open spec fn pawn_capture_spec(cells: Seq<u8>, w: int, h: int, ep: Option<u16>, mover: Player, from: int, ahead: int, dx: int) -> Seq<FcMove> {
    let cx = from % w + dx;
    let cy = from / w + ahead;
    if !on_board(w, h, cx, cy) {
        Seq::empty()
    } else {
        let t = cy * w + cx;
        let occ = cells[t];
        if (occ != 0 && code_owner(occ) != mover) || ep == Some(t as u16) {
            push_spec(cells, w, ep, mover, from, t, cy == last_rank(mover, h))
        } else {
            Seq::empty()
        }
    }
}

/// A single leap or step by `(dx, dr)` in the piece's ahead frame, onto
/// an empty or enemy square.
#[verifier::opaque]
pub open spec fn leap_spec(cells: Seq<u8>, w: int, h: int, ep: Option<u16>, mover: Player, from: int, ahead: int, dx: int, dr: int) -> Seq<FcMove> {
    let tx = from % w + dx;
    let ty = from / w + dr * ahead;
    if on_board(w, h, tx, ty) && (cells[ty * w + tx] == 0 || code_owner(cells[ty * w + tx]) != mover) {
        push_spec(cells, w, ep, mover, from, ty * w + tx, false)
    } else {
        Seq::empty()
    }
}

/// Slides from `(x, y)` onward in direction `(dx, dy)`: every empty
/// square, then a first enemy piece.
pub open spec fn ray_spec(cells: Seq<u8>, w: int, h: int, ep: Option<u16>, mover: Player, from: int, x: int, y: int, dx: int, dy: int) -> Seq<FcMove>
    decreases run_measure(w, h, x, y, dx, dy),
    when unit_step(dx, dy)
{
    if !on_board(w, h, x, y) {
        Seq::empty()
    } else {
        let occ = cells[y * w + x];
        if occ == 0 {
            push_spec(cells, w, ep, mover, from, y * w + x, false) + ray_spec(cells, w, h, ep, mover, from, x + dx, y + dy, dx, dy)
        } else if code_owner(occ) != mover {
            push_spec(cells, w, ep, mover, from, y * w + x, false)
        } else {
            Seq::empty()
        }
    }
}

#[verifier::opaque]
pub open spec fn slide_spec(cells: Seq<u8>, w: int, h: int, ep: Option<u16>, mover: Player, from: int, ahead: int, dx: int, dr: int) -> Seq<FcMove> {
    ray_spec(cells, w, h, ep, mover, from, from % w + dx, from / w + dr * ahead, dx, dr * ahead)
}

/// Squares `x, x + dir, ...` of rank `rank` up to (not including)
/// `stop` are empty.
pub open spec fn files_clear(cells: Seq<u8>, w: int, rank: int, x: int, stop: int, dir: int) -> bool
    decreases (if dir > 0 { stop - x } else { x - stop }),
    when dir == 1 || dir == -1
{
    if (dir > 0 && x >= stop) || (dir <= 0 && x <= stop) {
        true
    } else {
        cells[rank * w + x] == 0 && files_clear(cells, w, rank, x + dir, stop, dir)
    }
}

#[verifier::opaque]
pub open spec fn knight_spec(cells: Seq<u8>, w: int, h: int, ep: Option<u16>, mover: Player, from: int, ahead: int) -> Seq<FcMove> {
    leap_spec(cells, w, h, ep, mover, from, ahead, 1, 2) + leap_spec(cells, w, h, ep, mover, from, ahead, -1, 2)
        + leap_spec(cells, w, h, ep, mover, from, ahead, 2, 1) + leap_spec(cells, w, h, ep, mover, from, ahead, -2, 1)
}

#[verifier::opaque]
pub open spec fn king_step_spec(cells: Seq<u8>, w: int, h: int, ep: Option<u16>, mover: Player, from: int, ahead: int) -> Seq<FcMove> {
    leap_spec(cells, w, h, ep, mover, from, ahead, -1, 0) + leap_spec(cells, w, h, ep, mover, from, ahead, 1, 0)
        + leap_spec(cells, w, h, ep, mover, from, ahead, -1, 1) + leap_spec(cells, w, h, ep, mover, from, ahead, 0, 1)
        + leap_spec(cells, w, h, ep, mover, from, ahead, 1, 1)
}

/// Rook rays: ahead, right, left.
#[verifier::opaque]
pub open spec fn rook_spec(cells: Seq<u8>, w: int, h: int, ep: Option<u16>, mover: Player, from: int, ahead: int) -> Seq<FcMove> {
    slide_spec(cells, w, h, ep, mover, from, ahead, 0, 1) + slide_spec(cells, w, h, ep, mover, from, ahead, 1, 0)
        + slide_spec(cells, w, h, ep, mover, from, ahead, -1, 0)
}

/// Bishop rays: ahead-right, ahead-left.
#[verifier::opaque]
pub open spec fn bishop_spec(cells: Seq<u8>, w: int, h: int, ep: Option<u16>, mover: Player, from: int, ahead: int) -> Seq<FcMove> {
    slide_spec(cells, w, h, ep, mover, from, ahead, 1, 1) + slide_spec(cells, w, h, ep, mover, from, ahead, -1, 1)
}

impl ForwardChess {
    /// One castling side: right `base + right`, rook on `rook_file`,
    /// king stepping by `dir`.
    #[verifier::opaque]
    pub open spec fn castle_side_spec(&self, cells: Seq<u8>, castling: Seq<bool>, ep: Option<u16>, mover: Player, king_from: int, right: int, rook_file: int, dir: int) -> Seq<FcMove> {
        let w = self.w();
        let home = if mover == Player::One { 0 } else { self.h() - 1 };
        let base = if mover == Player::One { 0int } else { 2int };
        let kx = king_from % w;
        let rook_code = cells[home * w + rook_file];
        let enemy = mover.other();
        if !castling[base + right] {
            Seq::empty()
        } else if rook_code == 0 || code_owner(rook_code) != mover || code_piece(rook_code) != Piece::Rook || code_reversed(rook_code) {
            Seq::empty()
        } else if !files_clear(cells, w, home, kx + dir, rook_file, dir) {
            Seq::empty()
        } else if kx + 2 * dir < 0 || kx + 2 * dir >= w {
            Seq::empty()
        } else if attacked_upto(cells, w, home * w + kx + dir, enemy, self.n()) || attacked_upto(cells, w, home * w + kx + 2 * dir, enemy, self.n()) {
            Seq::empty()
        } else {
            legal_one(cells, w, ep, mover, FcMove { from: king_from as u16, to: (home * w + kx + 2 * dir) as u16, promotion: None })
        }
    }

    /// Castling moves of the king on `king_from`.
    #[verifier::opaque]
    pub open spec fn castle_spec(&self, cells: Seq<u8>, castling: Seq<bool>, ep: Option<u16>, mover: Player, king_from: int) -> Seq<FcMove> {
        if !ruleset_castles(self.spec_ruleset()) || king_from != self.king_home_spec(mover) || attacked_upto(cells, self.w(), king_from, mover.other(), self.n()) {
            Seq::empty()
        } else {
            self.castle_side_spec(cells, castling, ep, mover, king_from, 0, self.w() - 1, 1)
                + self.castle_side_spec(cells, castling, ep, mover, king_from, 1, 0, -1)
        }
    }

    /// Legal moves of the mover's piece on `from`, in generation order.
    pub open spec fn piece_spec(&self, cells: Seq<u8>, castling: Seq<bool>, ep: Option<u16>, mover: Player, from: int) -> Seq<FcMove> {
        let w = self.w();
        let h = self.h();
        let code = cells[from];
        let ahead = ahead_of(code_owner(code), code_reversed(code));
        match code_piece(code) {
            Piece::Pawn => pawn_spec(cells, w, h, ep, mover, from, ahead),
            Piece::Knight => knight_spec(cells, w, h, ep, mover, from, ahead),
            Piece::King => king_step_spec(cells, w, h, ep, mover, from, ahead) + self.castle_spec(cells, castling, ep, mover, from),
            Piece::Rook => rook_spec(cells, w, h, ep, mover, from, ahead),
            Piece::Bishop => bishop_spec(cells, w, h, ep, mover, from, ahead),
            Piece::Queen => rook_spec(cells, w, h, ep, mover, from, ahead) + bishop_spec(cells, w, h, ep, mover, from, ahead),
        }
    }

    /// Legal moves of the mover's pieces on cells `0..i`, in generation
    /// order.
    pub open spec fn gen_spec(&self, cells: Seq<u8>, castling: Seq<bool>, ep: Option<u16>, mover: Player, i: int) -> Seq<FcMove>
        decreases i,
    {
        if i <= 0 {
            Seq::empty()
        } else {
            self.gen_spec(cells, castling, ep, mover, i - 1) + if cells[i - 1] != 0 && code_owner(cells[i - 1]) == mover {
                self.piece_spec(cells, castling, ep, mover, i - 1)
            } else {
                Seq::empty()
            }
        }
    }
}


/// What `apply_spec` needs of a move to stay on the board.
pub open spec fn apply_ok(cells: Seq<u8>, w: int, n: int, from: int, to: int) -> bool {
    &&& 0 <= from < n
    &&& 0 <= to < n
    &&& from != to
    &&& 1 <= cells[from] <= 24
    &&& code_piece(cells[from]) == Piece::King && abs(to % w - from % w) == 2 ==> from / w == to / w
    &&& oriented(cells, w, from, to)
}

/// The core law: a piece moves only to ranks at or ahead of its own,
/// measured in its ahead direction.
pub open spec fn oriented(cells: Seq<u8>, w: int, from: int, to: int) -> bool {
    let ahead = ahead_of(code_owner(cells[from]), code_reversed(cells[from]));
    &&& ahead == 1 ==> to / w >= from / w
    &&& ahead == -1 ==> to / w <= from / w
}

impl ForwardChess {
    /// Would `mv` leave the mover's king in check?
    fn move_leaves_king_in_check(&self, core: &FcCore, mv: FcMove) -> (r: bool)
        requires
            self.wf_rules(),
            board_ok(core.cells@, self.n()),
            apply_ok(core.cells@, self.w(), self.n(), mv.from as int, mv.to as int),
        ensures
            r == leaves_in_check(core.cells@, self.w(), core.ep, core.to_move, mv),
    {
        let mut cells = core.cells.clone();
        assert(cells@ =~= core.cells@);
        self.apply_to_cells(&mut cells, core.ep, mv);
        proof {
            reveal(leaves_in_check);
        }
        self.king_in_check(&cells, core.to_move)
    }

    fn push_one(&self, core: &FcCore, mv: FcMove, moves: &mut Vec<FcMove>)
        requires
            self.wf_rules(),
            board_ok(core.cells@, self.n()),
            apply_ok(core.cells@, self.w(), self.n(), mv.from as int, mv.to as int),
        ensures
            final(moves)@ == old(moves)@ + legal_one(core.cells@, self.w(), core.ep, core.to_move, mv),
    {
        if !self.move_leaves_king_in_check(core, mv) {
            moves.push(mv);
        } else {
            assert(moves@ =~= old(moves)@ + Seq::<FcMove>::empty());
        }
    }

    /// Append the legal moves from `from` to `to` (all four promotions
    /// when `promo`).
    fn push_legal(&self, core: &FcCore, from: u16, to: u16, promo: bool, moves: &mut Vec<FcMove>)
        requires
            self.wf_rules(),
            board_ok(core.cells@, self.n()),
            apply_ok(core.cells@, self.w(), self.n(), from as int, to as int),
        ensures
            final(moves)@ == old(moves)@ + push_spec(core.cells@, self.w(), core.ep, core.to_move, from as int, to as int, promo),
    {
        if promo {
            self.push_one(core, FcMove { from, to, promotion: Some(Piece::Knight) }, moves);
            self.push_one(core, FcMove { from, to, promotion: Some(Piece::Bishop) }, moves);
            self.push_one(core, FcMove { from, to, promotion: Some(Piece::Rook) }, moves);
            self.push_one(core, FcMove { from, to, promotion: Some(Piece::Queen) }, moves);
        } else {
            self.push_one(core, FcMove { from, to, promotion: None }, moves);
        }
        proof {
            reveal(push_spec);
            assert(final(moves)@ =~= old(moves)@ + push_spec(core.cells@, self.w(), core.ep, core.to_move, from as int, to as int, promo));
        }
    }

    fn pawn_capture(&self, core: &FcCore, from: u16, ahead: i32, dx: i32, moves: &mut Vec<FcMove>)
        requires
            self.wf_rules(),
            board_ok(core.cells@, self.n()),
            from < self.n(),
            1 <= core.cells@[from as int] <= 24,
            code_piece(core.cells@[from as int]) == Piece::Pawn,
            ahead == 1 || ahead == -1,
            ahead == ahead_of(code_owner(core.cells@[from as int]), code_reversed(core.cells@[from as int])),
            dx == 1 || dx == -1,
        ensures
            final(moves)@ == old(moves)@ + pawn_capture_spec(core.cells@, self.w(), self.h(), core.ep, core.to_move, from as int, ahead as int, dx as int),
    {
        reveal(pawn_capture_spec);
        let ghost w = self.w();
        let ghost h = self.h();
        proof {
            lemma_coords(w, h, from as int);
        }
        let cx = (from % self.width) as i32 + dx;
        let cy = (from / self.width) as i32 + ahead;
        if !(cx >= 0 && cx < self.width as i32 && cy >= 0 && cy < self.height as i32) {
            assert(moves@ =~= old(moves)@ + Seq::<FcMove>::empty());
            return;
        }
        proof {
            lemma_index(w, h, cx as int, cy as int);
        }
        let t = (cy * self.width as i32 + cx) as u16;
        let occ = core.cells[t as usize];
        let enemy = occ != EMPTY && unpack(occ).0 != core.to_move;
        let is_ep = match core.ep {
            Some(e) => e == t,
            None => false,
        };
        if enemy || is_ep {
            let last: i32 = match core.to_move {
                Player::One => self.height as i32 - 1,
                Player::Two => 0,
            };
            self.push_legal(core, from, t, cy == last, moves);
        } else {
            assert(moves@ =~= old(moves)@ + Seq::<FcMove>::empty());
        }
    }

    fn pawn_pushes(&self, core: &FcCore, from: u16, ahead: i32, moves: &mut Vec<FcMove>)
        requires
            self.wf_rules(),
            board_ok(core.cells@, self.n()),
            from < self.n(),
            1 <= core.cells@[from as int] <= 24,
            code_piece(core.cells@[from as int]) == Piece::Pawn,
            ahead == 1 || ahead == -1,
            ahead == ahead_of(code_owner(core.cells@[from as int]), code_reversed(core.cells@[from as int])),
        ensures
            final(moves)@ == old(moves)@ + pawn_push_spec(core.cells@, self.w(), self.h(), core.ep, core.to_move, from as int, ahead as int),
    {
        reveal(pawn_push_spec);
        let ghost w = self.w();
        let ghost h = self.h();
        let ghost start = moves@;
        proof {
            lemma_coords(w, h, from as int);
        }
        let fx = (from % self.width) as i32;
        let fy = (from / self.width) as i32;
        let last: i32 = match core.to_move {
            Player::One => self.height as i32 - 1,
            Player::Two => 0,
        };
        let home: i32 = match core.to_move {
            Player::One => 1,
            Player::Two => self.height as i32 - 2,
        };
        let step = fy + ahead;
        if !(step >= 0 && step < self.height as i32) {
            assert(moves@ =~= start + Seq::<FcMove>::empty());
            return;
        }
        proof {
            lemma_index(w, h, fx as int, step as int);
        }
        let at = (step * self.width as i32 + fx) as u16;
        if core.cells[at as usize] != EMPTY {
            assert(moves@ =~= start + Seq::<FcMove>::empty());
            return;
        }
        self.push_legal(core, from, at, step == last, moves);
        let ghost mid = moves@;
        let dbl = fy + 2 * ahead;
        if fy == home && dbl >= 0 && dbl < self.height as i32 && dbl != last {
            proof {
                lemma_index(w, h, fx as int, dbl as int);
            }
            let at2 = (dbl * self.width as i32 + fx) as u16;
            if core.cells[at2 as usize] == EMPTY {
                self.push_legal(core, from, at2, false, moves);
                proof {
                    assert(moves@ =~= start + pawn_push_spec(core.cells@, w, h, core.ep, core.to_move, from as int, ahead as int));
                }
                return;
            }
        }
        proof {
            assert(moves@ =~= start + pawn_push_spec(core.cells@, w, h, core.ep, core.to_move, from as int, ahead as int));
        }
    }

    fn pawn_moves(&self, core: &FcCore, from: u16, ahead: i32, moves: &mut Vec<FcMove>)
        requires
            self.wf_rules(),
            board_ok(core.cells@, self.n()),
            from < self.n(),
            1 <= core.cells@[from as int] <= 24,
            code_piece(core.cells@[from as int]) == Piece::Pawn,
            ahead == 1 || ahead == -1,
            ahead == ahead_of(code_owner(core.cells@[from as int]), code_reversed(core.cells@[from as int])),
        ensures
            final(moves)@ == old(moves)@ + pawn_spec(core.cells@, self.w(), self.h(), core.ep, core.to_move, from as int, ahead as int),
    {
        self.pawn_pushes(core, from, ahead, moves);
        self.pawn_capture(core, from, ahead, -1, moves);
        self.pawn_capture(core, from, ahead, 1, moves);
        proof {
            assert(final(moves)@ =~= old(moves)@ + pawn_spec(core.cells@, self.w(), self.h(), core.ep, core.to_move, from as int, ahead as int));
        }
    }

    /// A leap or step by `(dx, dr)` in the ahead frame.
    fn leap(&self, core: &FcCore, from: u16, ahead: i32, dx: i32, dr: i32, moves: &mut Vec<FcMove>)
        requires
            self.wf_rules(),
            board_ok(core.cells@, self.n()),
            from < self.n(),
            1 <= core.cells@[from as int] <= 24,
            ahead == 1 || ahead == -1,
            ahead == ahead_of(code_owner(core.cells@[from as int]), code_reversed(core.cells@[from as int])),
            -2 <= dx <= 2,
            0 <= dr <= 2,
            dx != 0 || dr != 0,
            code_piece(core.cells@[from as int]) == Piece::King ==> -1 <= dx <= 1,
        ensures
            final(moves)@ == old(moves)@ + leap_spec(core.cells@, self.w(), self.h(), core.ep, core.to_move, from as int, ahead as int, dx as int, dr as int),
    {
        reveal(leap_spec);
        let ghost w = self.w();
        let ghost h = self.h();
        proof {
            lemma_coords(w, h, from as int);
        }
        let tx = (from % self.width) as i32 + dx;
        let ty = (from / self.width) as i32 + if ahead > 0 {
            dr
        } else {
            -dr
        };
        assert(dr * ahead == (if ahead > 0 { dr as int } else { -dr })) by (nonlinear_arith)
            requires
                ahead == 1 || ahead == -1,
        ;
        if tx >= 0 && tx < self.width as i32 && ty >= 0 && ty < self.height as i32 {
            proof {
                lemma_index(w, h, tx as int, ty as int);
            }
            let at = (ty * self.width as i32 + tx) as u16;
            let occ = core.cells[at as usize];
            if occ == EMPTY || unpack(occ).0 != core.to_move {
                self.push_legal(core, from, at, false, moves);
                return;
            }
        }
        assert(moves@ =~= old(moves)@ + Seq::<FcMove>::empty());
    }

    /// Slide in direction `(dx, dr)` of the ahead frame.
    fn slide(&self, core: &FcCore, from: u16, ahead: i32, dx: i32, dr: i32, moves: &mut Vec<FcMove>)
        requires
            self.wf_rules(),
            board_ok(core.cells@, self.n()),
            from < self.n(),
            1 <= core.cells@[from as int] <= 24,
            code_piece(core.cells@[from as int]) != Piece::King,
            ahead == 1 || ahead == -1,
            ahead == ahead_of(code_owner(core.cells@[from as int]), code_reversed(core.cells@[from as int])),
            -1 <= dx <= 1,
            0 <= dr <= 1,
            dx != 0 || dr != 0,
        ensures
            final(moves)@ == old(moves)@ + slide_spec(core.cells@, self.w(), self.h(), core.ep, core.to_move, from as int, ahead as int, dx as int, dr as int),
    {
        reveal(slide_spec);
        let ghost w = self.w();
        let ghost h = self.h();
        let ghost start = moves@;
        proof {
            lemma_coords(w, h, from as int);
        }
        let dy = if ahead > 0 {
            dr
        } else {
            -dr
        };
        let mut x = (from % self.width) as i32 + dx;
        let mut y = (from / self.width) as i32 + dy;
        let ghost full = ray_spec(core.cells@, w, h, core.ep, core.to_move, from as int, x as int, y as int, dx as int, dy as int);
        let ghost mut k: int = 1;
        loop
            invariant_except_break
                start + full == moves@ + ray_spec(core.cells@, w, h, core.ep, core.to_move, from as int, x as int, y as int, dx as int, dy as int),
            invariant
                self.wf_rules(),
                board_ok(core.cells@, self.n()),
                w == self.w(),
                h == self.h(),
                from < self.n(),
                1 <= core.cells@[from as int] <= 24,
                code_piece(core.cells@[from as int]) != Piece::King,
                unit_step(dx as int, dy as int),
                dy == 0 || dy == ahead_of(code_owner(core.cells@[from as int]), code_reversed(core.cells@[from as int])),
                -1 <= x <= w,
                -1 <= y <= h,
                0 <= from as int % w < w,
                0 <= from as int / w < h,
                k >= 1,
                x == walk(from as int % w, k, dx as int),
                y == walk(from as int / w, k, dy as int),
            ensures
                moves@ == start + full,
            decreases run_measure(w, h, x as int, y as int, dx as int, dy as int),
        {
            if !(x >= 0 && x < self.width as i32 && y >= 0 && y < self.height as i32) {
                break;
            }
            proof {
                lemma_index(w, h, x as int, y as int);
            }
            let at = (y * self.width as i32 + x) as u16;
            assert(at != from) by {
                lemma_coords(w, h, from as int);
            }
            let occ = core.cells[at as usize];
            if occ == EMPTY {
                self.push_legal(core, from, at, false, moves);
                proof {
                    assert(ray_spec(core.cells@, w, h, core.ep, core.to_move, from as int, x as int, y as int, dx as int, dy as int)
                        == push_spec(core.cells@, w, core.ep, core.to_move, from as int, at as int, false)
                            + ray_spec(core.cells@, w, h, core.ep, core.to_move, from as int, x + dx, y + dy, dx as int, dy as int));
                    assert(start + full =~= moves@ + ray_spec(core.cells@, w, h, core.ep, core.to_move, from as int, x + dx, y + dy, dx as int, dy as int));
                }
                x = x + dx;
                y = y + dy;
                proof {
                    k = k + 1;
                }
            } else {
                if unpack(occ).0 != core.to_move {
                    self.push_legal(core, from, at, false, moves);
                }
                proof {
                    assert(moves@ =~= start + full);
                }
                break;
            }
        }
    }
}


/// Rank of a promotion choice in move order (`None` first).
pub open spec fn promo_rank(p: Option<Piece>) -> int {
    match p {
        None => 0,
        Some(piece) => 1 + piece_index(piece),
    }
}

/// Move order: by source, then destination, then promotion.
pub open spec fn move_lt(a: FcMove, b: FcMove) -> bool {
    a.from < b.from || (a.from == b.from && (a.to < b.to || (a.to == b.to && promo_rank(a.promotion)
        < promo_rank(b.promotion))))
}

/// First index at or after `i` whose move sorts after `x`.
pub open spec fn insert_pos(s: Seq<FcMove>, x: FcMove, i: int) -> int
    decreases s.len() - i,
{
    if i < 0 || i >= s.len() {
        s.len() as int
    } else if move_lt(x, s[i]) {
        i
    } else {
        insert_pos(s, x, i + 1)
    }
}

/// Insertion sort by `move_lt`.
pub open spec fn sort_spec(s: Seq<FcMove>) -> Seq<FcMove>
    decreases s.len(),
{
    if s.len() == 0 {
        Seq::empty()
    } else {
        let sorted = sort_spec(s.drop_last());
        sorted.insert(insert_pos(sorted, s.last(), 0), s.last())
    }
}

proof fn lemma_insert_pos(s: Seq<FcMove>, x: FcMove, i: int)
    requires
        0 <= i <= s.len(),
    ensures
        i <= insert_pos(s, x, i) <= s.len(),
    decreases s.len() - i,
{
    if i < s.len() && !move_lt(x, s[i]) {
        lemma_insert_pos(s, x, i + 1);
    }
}

proof fn lemma_sort_len(s: Seq<FcMove>)
    ensures
        sort_spec(s).len() == s.len(),
    decreases s.len(),
{
    if s.len() > 0 {
        lemma_sort_len(s.drop_last());
        lemma_insert_pos(sort_spec(s.drop_last()), s.last(), 0);
    }
}

fn promo_rank_of(p: Option<Piece>) -> (r: u8)
    ensures
        r == promo_rank(p),
{
    match p {
        None => 0,
        Some(piece) => 1 + piece_idx(piece),
    }
}

fn move_less(a: FcMove, b: FcMove) -> (r: bool)
    ensures
        r == move_lt(a, b),
{
    a.from < b.from || (a.from == b.from && (a.to < b.to || (a.to == b.to && promo_rank_of(a.promotion)
        < promo_rank_of(b.promotion))))
}

/// Sorted copy of a move list.
fn sort_moves(v: &Vec<FcMove>) -> (r: Vec<FcMove>)
    ensures
        r@ == sort_spec(v@),
{
    let mut r: Vec<FcMove> = Vec::new();
    let mut i: usize = 0;
    while i < v.len()
        invariant
            i <= v@.len(),
            r@ == sort_spec(v@.take(i as int)),
        decreases v@.len() - i,
    {
        let x = v[i];
        let mut p: usize = 0;
        proof {
            lemma_sort_len(v@.take(i as int));
        }
        while p < r.len() && !move_less(x, r[p])
            invariant
                p <= r@.len(),
                insert_pos(r@, x, 0) == insert_pos(r@, x, p as int),
            decreases r@.len() - p,
        {
            p += 1;
        }
        proof {
            assert(v@.take(i + 1).drop_last() =~= v@.take(i as int));
            assert(v@.take(i + 1).last() == x);
        }
        r.insert(p, x);
        i += 1;
    }
    assert(v@.take(v@.len() as int) =~= v@);
    r
}

impl ForwardChess {
    fn castle_side(&self, core: &FcCore, king_from: u16, right: usize, rook_file: i32, dir: i32, moves: &mut Vec<FcMove>)
        requires
            self.wf_rules(),
            board_ok(core.cells@, self.n()),
            ruleset_castles(self.ruleset),
            king_from == self.king_home_spec(core.to_move),
            1 <= core.cells@[king_from as int] <= 24,
            code_piece(core.cells@[king_from as int]) == Piece::King,
            (right == 0 && rook_file == self.w() - 1 && dir == 1) || (right == 1 && rook_file == 0 && dir == -1),
        ensures
            final(moves)@ == old(moves)@ + self.castle_side_spec(core.cells@, core.castling@, core.ep, core.to_move, king_from as int, right as int, rook_file as int, dir as int),
    {
        reveal(ForwardChess::castle_side_spec);
        assert(self.width == 8 && self.height == 8);
        assert(self.w() == 8 && self.h() == 8);
        assert(self.n() == 64) by (nonlinear_arith)
            requires
                self.w() == 8,
                self.h() == 8,
                self.n() == self.w() * self.h(),
        ;
        let mover = core.to_move;
        let home: u16 = if mover == Player::One {
            0
        } else {
            self.height - 1
        };
        let base: usize = if mover == Player::One {
            0
        } else {
            2
        };
        if !core.castling[base + right] {
            assert(moves@ =~= old(moves)@ + Seq::<FcMove>::empty());
            return;
        }
        let rook_cell = self.cell(rook_file as u16, home);
        let rook_code = core.cells[rook_cell as usize];
        if rook_code == EMPTY {
            assert(moves@ =~= old(moves)@ + Seq::<FcMove>::empty());
            return;
        }
        let (ro, rp, rr) = unpack(rook_code);
        if ro != mover || rp != Piece::Rook || rr {
            assert(moves@ =~= old(moves)@ + Seq::<FcMove>::empty());
            return;
        }
        let kx = (king_from % self.width) as i32;
        assert(kx == 4 || kx == 3);
        let mut x = kx + dir;
        let mut clear = true;
        loop
            invariant
                self.wf_rules(),
                board_ok(core.cells@, self.n()),
                self.width == 8,
                self.height == 8,
                home == 0 || home == 7,
                kx == 3 || kx == 4,
                dir == 1 || dir == -1,
                dir == 1 ==> kx < x <= rook_file && rook_file == 7,
                dir == -1 ==> rook_file <= x < kx && rook_file == 0,
                clear ==> files_clear(core.cells@, 8, home as int, kx + dir, rook_file as int, dir as int) == files_clear(core.cells@, 8, home as int, x as int, rook_file as int, dir as int),
                !clear ==> !files_clear(core.cells@, 8, home as int, kx + dir, rook_file as int, dir as int),
            ensures
                clear ==> x == rook_file,
                clear ==> files_clear(core.cells@, 8, home as int, kx + dir, rook_file as int, dir as int),
                !clear ==> !files_clear(core.cells@, 8, home as int, kx + dir, rook_file as int, dir as int),
            decreases (if dir > 0 { rook_file - x } else { x - rook_file }),
        {
            if x == rook_file {
                break;
            }
            let c = self.cell(x as u16, home);
            assert(files_clear(core.cells@, 8, home as int, x as int, rook_file as int, dir as int) == (core.cells@[c as int] == 0
                && files_clear(core.cells@, 8, home as int, x + dir, rook_file as int, dir as int)));
            if core.cells[c as usize] != EMPTY {
                clear = false;
                break;
            }
            x += dir;
        }
        if !clear {
            assert(moves@ =~= old(moves)@ + Seq::<FcMove>::empty());
            return;
        }
        if kx + 2 * dir < 0 || kx + 2 * dir >= self.width as i32 {
            assert(moves@ =~= old(moves)@ + Seq::<FcMove>::empty());
            return;
        }
        let enemy = mover.opponent();
        let crossed = self.cell((kx + dir) as u16, home);
        let dest = self.cell((kx + 2 * dir) as u16, home);
        if self.square_attacked(&core.cells, crossed, enemy) || self.square_attacked(&core.cells, dest, enemy) {
            assert(moves@ =~= old(moves)@ + Seq::<FcMove>::empty());
            return;
        }
        proof {
            lemma_index(8, 8, (kx + 2 * dir) as int, home as int);
            lemma_index(8, 8, kx as int, home as int);
        }
        self.push_one(core, FcMove { from: king_from, to: dest, promotion: None }, moves);
    }

    fn generate_castling(&self, core: &FcCore, king_from: u16, moves: &mut Vec<FcMove>)
        requires
            self.wf_rules(),
            board_ok(core.cells@, self.n()),
            king_from < self.n(),
            1 <= core.cells@[king_from as int] <= 24,
            code_piece(core.cells@[king_from as int]) == Piece::King,
        ensures
            final(moves)@ == old(moves)@ + self.castle_spec(core.cells@, core.castling@, core.ep, core.to_move, king_from as int),
    {
        reveal(ForwardChess::castle_spec);
        if !self.ruleset.castling() {
            assert(moves@ =~= old(moves)@ + Seq::<FcMove>::empty());
            return;
        }
        if king_from != self.king_home(core.to_move) {
            assert(moves@ =~= old(moves)@ + Seq::<FcMove>::empty());
            return;
        }
        if self.square_attacked(&core.cells, king_from, core.to_move.opponent()) {
            assert(moves@ =~= old(moves)@ + Seq::<FcMove>::empty());
            return;
        }
        let ghost start = moves@;
        self.castle_side(core, king_from, 0, self.width as i32 - 1, 1, moves);
        self.castle_side(core, king_from, 1, 0, -1, moves);
        proof {
            assert(moves@ =~= start + self.castle_spec(core.cells@, core.castling@, core.ep, core.to_move, king_from as int));
        }
    }
}


impl ForwardChess {
    fn knight_moves(&self, core: &FcCore, from: u16, ahead: i32, moves: &mut Vec<FcMove>)
        requires
            self.wf_rules(),
            board_ok(core.cells@, self.n()),
            from < self.n(),
            1 <= core.cells@[from as int] <= 24,
            code_piece(core.cells@[from as int]) == Piece::Knight,
            ahead == 1 || ahead == -1,
            ahead == ahead_of(code_owner(core.cells@[from as int]), code_reversed(core.cells@[from as int])),
        ensures
            final(moves)@ == old(moves)@ + knight_spec(core.cells@, self.w(), self.h(), core.ep, core.to_move, from as int, ahead as int),
    {
        reveal(knight_spec);
        self.leap(core, from, ahead, 1, 2, moves);
        self.leap(core, from, ahead, -1, 2, moves);
        self.leap(core, from, ahead, 2, 1, moves);
        self.leap(core, from, ahead, -2, 1, moves);
        proof {
            assert(final(moves)@ =~= old(moves)@ + knight_spec(core.cells@, self.w(), self.h(), core.ep, core.to_move, from as int, ahead as int));
        }
    }

    fn king_steps(&self, core: &FcCore, from: u16, ahead: i32, moves: &mut Vec<FcMove>)
        requires
            self.wf_rules(),
            board_ok(core.cells@, self.n()),
            from < self.n(),
            1 <= core.cells@[from as int] <= 24,
            code_piece(core.cells@[from as int]) == Piece::King,
            ahead == 1 || ahead == -1,
            ahead == ahead_of(code_owner(core.cells@[from as int]), code_reversed(core.cells@[from as int])),
        ensures
            final(moves)@ == old(moves)@ + king_step_spec(core.cells@, self.w(), self.h(), core.ep, core.to_move, from as int, ahead as int),
    {
        reveal(king_step_spec);
        self.leap(core, from, ahead, -1, 0, moves);
        self.leap(core, from, ahead, 1, 0, moves);
        self.leap(core, from, ahead, -1, 1, moves);
        self.leap(core, from, ahead, 0, 1, moves);
        self.leap(core, from, ahead, 1, 1, moves);
        proof {
            assert(final(moves)@ =~= old(moves)@ + king_step_spec(core.cells@, self.w(), self.h(), core.ep, core.to_move, from as int, ahead as int));
        }
    }

    fn rook_moves(&self, core: &FcCore, from: u16, ahead: i32, moves: &mut Vec<FcMove>)
        requires
            self.wf_rules(),
            board_ok(core.cells@, self.n()),
            from < self.n(),
            1 <= core.cells@[from as int] <= 24,
            code_piece(core.cells@[from as int]) != Piece::King,
            ahead == 1 || ahead == -1,
            ahead == ahead_of(code_owner(core.cells@[from as int]), code_reversed(core.cells@[from as int])),
        ensures
            final(moves)@ == old(moves)@ + rook_spec(core.cells@, self.w(), self.h(), core.ep, core.to_move, from as int, ahead as int),
    {
        reveal(rook_spec);
        self.slide(core, from, ahead, 0, 1, moves);
        self.slide(core, from, ahead, 1, 0, moves);
        self.slide(core, from, ahead, -1, 0, moves);
        proof {
            assert(final(moves)@ =~= old(moves)@ + rook_spec(core.cells@, self.w(), self.h(), core.ep, core.to_move, from as int, ahead as int));
        }
    }

    fn bishop_moves(&self, core: &FcCore, from: u16, ahead: i32, moves: &mut Vec<FcMove>)
        requires
            self.wf_rules(),
            board_ok(core.cells@, self.n()),
            from < self.n(),
            1 <= core.cells@[from as int] <= 24,
            code_piece(core.cells@[from as int]) != Piece::King,
            ahead == 1 || ahead == -1,
            ahead == ahead_of(code_owner(core.cells@[from as int]), code_reversed(core.cells@[from as int])),
        ensures
            final(moves)@ == old(moves)@ + bishop_spec(core.cells@, self.w(), self.h(), core.ep, core.to_move, from as int, ahead as int),
    {
        reveal(bishop_spec);
        self.slide(core, from, ahead, 1, 1, moves);
        self.slide(core, from, ahead, -1, 1, moves);
        proof {
            assert(final(moves)@ =~= old(moves)@ + bishop_spec(core.cells@, self.w(), self.h(), core.ep, core.to_move, from as int, ahead as int));
        }
    }

    /// Append the legal moves of the mover's piece on `from`.
    fn piece_moves(&self, core: &FcCore, from: u16, moves: &mut Vec<FcMove>)
        requires
            self.wf_rules(),
            board_ok(core.cells@, self.n()),
            from < self.n(),
            core.cells@[from as int] != 0,
            code_owner(core.cells@[from as int]) == core.to_move,
        ensures
            final(moves)@ == old(moves)@ + self.piece_spec(core.cells@, core.castling@, core.ep, core.to_move, from as int),
    {
        let ghost start = moves@;
        let code = core.cells[from as usize];
        let (owner, piece, reversed) = unpack(code);
        let ahead: i32 = match (owner, reversed) {
            (Player::One, false) => 1,
            (Player::One, true) => -1,
            (Player::Two, false) => -1,
            (Player::Two, true) => 1,
        };
        match piece {
            Piece::Pawn => {
                self.pawn_moves(core, from, ahead, moves);
            },
            Piece::Knight => {
                self.knight_moves(core, from, ahead, moves);
            },
            Piece::King => {
                self.king_steps(core, from, ahead, moves);
                self.generate_castling(core, from, moves);
            },
            Piece::Rook => {
                self.rook_moves(core, from, ahead, moves);
            },
            Piece::Bishop => {
                self.bishop_moves(core, from, ahead, moves);
            },
            Piece::Queen => {
                self.rook_moves(core, from, ahead, moves);
                self.bishop_moves(core, from, ahead, moves);
            },
        }
        proof {
            assert(moves@ =~= start + self.piece_spec(core.cells@, core.castling@, core.ep, core.to_move, from as int));
        }
    }

    /// Generate all legal moves of `core`'s side to move, in generation
    /// order.
    fn generate_legal(&self, core: &FcCore, moves: &mut Vec<FcMove>)
        requires
            self.wf_rules(),
            board_ok(core.cells@, self.n()),
        ensures
            final(moves)@ == self.gen_spec(core.cells@, core.castling@, core.ep, core.to_move, self.n()),
    {
        moves.clear();
        let n = core.cells.len();
        let mut cell: usize = 0;
        while cell < n
            invariant
                self.wf_rules(),
                board_ok(core.cells@, self.n()),
                n == self.n(),
                cell <= n,
                moves@ == self.gen_spec(core.cells@, core.castling@, core.ep, core.to_move, cell as int),
            decreases n - cell,
        {
            let code = core.cells[cell];
            if code != EMPTY && unpack(code).0 == core.to_move {
                self.piece_moves(core, cell as u16, moves);
            }
            proof {
                assert(moves@ =~= self.gen_spec(core.cells@, core.castling@, core.ep, core.to_move, cell + 1));
            }
            cell += 1;
        }
    }
}


/// Every move of `s` satisfies `apply_ok`, and there are at most `bound`.
pub open spec fn moves_ok(s: Seq<FcMove>, cells: Seq<u8>, w: int, n: int, bound: int) -> bool {
    &&& s.len() <= bound
    &&& forall|i: int| 0 <= i < s.len() ==> apply_ok(cells, w, n, (#[trigger] s[i]).from as int, s[i].to as int)
}

proof fn lemma_concat_ok(a: Seq<FcMove>, b: Seq<FcMove>, cells: Seq<u8>, w: int, n: int, ba: int, bb: int)
    requires
        moves_ok(a, cells, w, n, ba),
        moves_ok(b, cells, w, n, bb),
    ensures
        moves_ok(a + b, cells, w, n, ba + bb),
{
    assert forall|i: int| 0 <= i < (a + b).len() implies apply_ok(cells, w, n, (#[trigger] (a + b)[i]).from as int, (a + b)[i].to as int) by {
        if i < a.len() {
            assert((a + b)[i] == a[i]);
        } else {
            assert((a + b)[i] == b[i - a.len()]);
        }
    }
}

proof fn lemma_empty_ok(cells: Seq<u8>, w: int, n: int)
    ensures
        moves_ok(Seq::<FcMove>::empty(), cells, w, n, 0),
{
}

proof fn lemma_push_ok(cells: Seq<u8>, w: int, ep: Option<u16>, mover: Player, from: int, to: int, promo: bool, n: int)
    requires
        apply_ok(cells, w, n, from, to),
        n <= 64,
    ensures
        moves_ok(push_spec(cells, w, ep, mover, from, to, promo), cells, w, n, 4),
{
    reveal(push_spec);
    let s = push_spec(cells, w, ep, mover, from, to, promo);
    assert forall|i: int| 0 <= i < s.len() implies apply_ok(cells, w, n, (#[trigger] s[i]).from as int, s[i].to as int) by {
        assert(s[i].from == from as u16 && s[i].to == to as u16);
    }
}

impl ForwardChess {
    proof fn lemma_pawn_ok(&self, cells: Seq<u8>, ep: Option<u16>, mover: Player, from: int, ahead: int)
        requires
            self.wf_rules(),
            board_ok(cells, self.n()),
            0 <= from < self.n(),
            1 <= cells[from] <= 24,
            code_piece(cells[from]) == Piece::Pawn,
            ahead == 1 || ahead == -1,
            ahead == ahead_of(code_owner(cells[from]), code_reversed(cells[from])),
        ensures
            moves_ok(pawn_spec(cells, self.w(), self.h(), ep, mover, from, ahead), cells, self.w(), self.n(), 20),
    {
        reveal(pawn_push_spec);
        reveal(pawn_capture_spec);
        let w = self.w();
        let h = self.h();
        let n = self.n();
        lemma_coords(w, h, from);
        let fx = from % w;
        let fy = from / w;
        let step = fy + ahead;
        let dbl = fy + 2 * ahead;
        let a = pawn_push_spec(cells, w, h, ep, mover, from, ahead);
        if on_board(w, h, fx, step) && cells[step * w + fx] == 0 {
            lemma_index(w, h, fx, step);
            lemma_push_ok(cells, w, ep, mover, from, step * w + fx, step == last_rank(mover, h), n);
            if fy == pawn_home_rank(mover, h) && on_board(w, h, fx, dbl) && dbl != last_rank(mover, h) && cells[dbl * w + fx] == 0 {
                lemma_index(w, h, fx, dbl);
                lemma_push_ok(cells, w, ep, mover, from, dbl * w + fx, false, n);
                lemma_concat_ok(push_spec(cells, w, ep, mover, from, step * w + fx, step == last_rank(mover, h)),
                    push_spec(cells, w, ep, mover, from, dbl * w + fx, false), cells, w, n, 4, 4);
            } else {
                lemma_concat_ok(push_spec(cells, w, ep, mover, from, step * w + fx, step == last_rank(mover, h)),
                    Seq::empty(), cells, w, n, 4, 0);
            }
        }
        assert(moves_ok(a, cells, w, n, 8));
        assert forall|dx: int| dx == 1 || dx == -1 implies moves_ok(#[trigger] pawn_capture_spec(cells, w, h, ep, mover, from, ahead, dx), cells, w, n, 4) by {
            let cx = fx + dx;
            let cy = fy + ahead;
            if on_board(w, h, cx, cy) {
                lemma_index(w, h, cx, cy);
                lemma_push_ok(cells, w, ep, mover, from, cy * w + cx, cy == last_rank(mover, h), n);
            }
        }
        let b = pawn_capture_spec(cells, w, h, ep, mover, from, ahead, -1);
        let c = pawn_capture_spec(cells, w, h, ep, mover, from, ahead, 1);
        lemma_concat_ok(a, b, cells, w, n, 8, 4);
        lemma_concat_ok(a + b, c, cells, w, n, 12, 4);
    }

    proof fn lemma_leap_ok(&self, cells: Seq<u8>, ep: Option<u16>, mover: Player, from: int, ahead: int, dx: int, dr: int)
        requires
            self.wf_rules(),
            board_ok(cells, self.n()),
            0 <= from < self.n(),
            1 <= cells[from] <= 24,
            ahead == 1 || ahead == -1,
            ahead == ahead_of(code_owner(cells[from]), code_reversed(cells[from])),
            -2 <= dx <= 2,
            0 <= dr <= 2,
            dx != 0 || dr != 0,
            code_piece(cells[from]) == Piece::King ==> -1 <= dx <= 1,
        ensures
            moves_ok(leap_spec(cells, self.w(), self.h(), ep, mover, from, ahead, dx, dr), cells, self.w(), self.n(), 4),
    {
        reveal(leap_spec);
        let w = self.w();
        let h = self.h();
        lemma_coords(w, h, from);
        let tx = from % w + dx;
        let ty = from / w + dr * ahead;
        assert(dr * ahead == (if ahead > 0 { dr } else { -dr })) by (nonlinear_arith)
            requires
                ahead == 1 || ahead == -1,
        ;
        if on_board(w, h, tx, ty) {
            lemma_index(w, h, tx, ty);
            lemma_push_ok(cells, w, ep, mover, from, ty * w + tx, false, self.n());
        }
    }

    proof fn lemma_ray_ok(&self, cells: Seq<u8>, ep: Option<u16>, mover: Player, from: int, x: int, y: int, dx: int, dy: int, k: int)
        requires
            self.wf_rules(),
            board_ok(cells, self.n()),
            0 <= from < self.n(),
            1 <= cells[from] <= 24,
            code_piece(cells[from]) != Piece::King,
            unit_step(dx, dy),
            dy == 0 || dy == ahead_of(code_owner(cells[from]), code_reversed(cells[from])),
            k >= 1,
            x == walk(from % self.w(), k, dx),
            y == walk(from / self.w(), k, dy),
            -1 <= x <= self.w(),
            -1 <= y <= self.h(),
        ensures
            moves_ok(ray_spec(cells, self.w(), self.h(), ep, mover, from, x, y, dx, dy), cells, self.w(), self.n(),
                4 * run_measure(self.w(), self.h(), x, y, dx, dy)),
        decreases run_measure(self.w(), self.h(), x, y, dx, dy),
    {
        let w = self.w();
        let h = self.h();
        let n = self.n();
        lemma_coords(w, h, from);
        if on_board(w, h, x, y) {
            lemma_index(w, h, x, y);
            assert(y * w + x != from);
            lemma_push_ok(cells, w, ep, mover, from, y * w + x, false, n);
            assert(run_measure(w, h, x, y, dx, dy) >= 1 + run_measure(w, h, x + dx, y + dy, dx, dy));
            if cells[y * w + x] == 0 {
                self.lemma_ray_ok(cells, ep, mover, from, x + dx, y + dy, dx, dy, k + 1);
                lemma_concat_ok(push_spec(cells, w, ep, mover, from, y * w + x, false),
                    ray_spec(cells, w, h, ep, mover, from, x + dx, y + dy, dx, dy), cells, w, n, 4,
                    4 * run_measure(w, h, x + dx, y + dy, dx, dy));
            }
        }
    }

    proof fn lemma_slide_ok(&self, cells: Seq<u8>, ep: Option<u16>, mover: Player, from: int, ahead: int, dx: int, dr: int)
        requires
            self.wf_rules(),
            board_ok(cells, self.n()),
            0 <= from < self.n(),
            1 <= cells[from] <= 24,
            code_piece(cells[from]) != Piece::King,
            ahead == 1 || ahead == -1,
            ahead == ahead_of(code_owner(cells[from]), code_reversed(cells[from])),
            -1 <= dx <= 1,
            0 <= dr <= 1,
            dx != 0 || dr != 0,
        ensures
            moves_ok(slide_spec(cells, self.w(), self.h(), ep, mover, from, ahead, dx, dr), cells, self.w(), self.n(), 68),
    {
        reveal(slide_spec);
        let w = self.w();
        let h = self.h();
        lemma_coords(w, h, from);
        let dy = dr * ahead;
        assert(dy == (if ahead > 0 { dr } else { -dr })) by (nonlinear_arith)
            requires
                ahead == 1 || ahead == -1,
                dy == dr * ahead,
        ;
        let x = from % w + dx;
        let y = from / w + dy;
        self.lemma_ray_ok(cells, ep, mover, from, x, y, dx, dy, 1);
    }

    proof fn lemma_castle_ok(&self, cells: Seq<u8>, castling: Seq<bool>, ep: Option<u16>, mover: Player, king_from: int)
        requires
            self.wf_rules(),
            board_ok(cells, self.n()),
            0 <= king_from < self.n(),
            1 <= cells[king_from] <= 24,
            code_piece(cells[king_from]) == Piece::King,
        ensures
            moves_ok(self.castle_spec(cells, castling, ep, mover, king_from), cells, self.w(), self.n(), 2),
    {
        reveal(ForwardChess::castle_spec);
        reveal(ForwardChess::castle_side_spec);
        if ruleset_castles(self.ruleset) && king_from == self.king_home_spec(mover) {
            assert(self.width == 8 && self.height == 8);
        assert(self.w() == 8 && self.h() == 8);
        assert(self.n() == 64) by (nonlinear_arith)
            requires
                self.w() == 8,
                self.h() == 8,
                self.n() == self.w() * self.h(),
        ;
            let home = if mover == Player::One { 0int } else { 7int };
            let kx = king_from % 8;
            assert(kx == 3 || kx == 4);
            assert(king_from == home * 8 + kx);
            assert forall|dir: int| dir == 1 || dir == -1 implies 0 <= kx + 2 * dir < 8 ==> #[trigger] apply_ok(cells, 8, 64, king_from, home * 8 + kx + 2 * dir) by {
                lemma_index(8, 8, kx + 2 * dir, home);
                lemma_index(8, 8, kx, home);
            }
            let a = self.castle_side_spec(cells, castling, ep, mover, king_from, 0, 7, 1);
            let b = self.castle_side_spec(cells, castling, ep, mover, king_from, 1, 0, -1);
            assert(moves_ok(a, cells, 8, 64, 1)) by {
                if a.len() > 0 {
                    assert(apply_ok(cells, 8, 64, king_from, home * 8 + kx + 2));
                }
            }
            assert(moves_ok(b, cells, 8, 64, 1)) by {
                if b.len() > 0 {
                    assert(apply_ok(cells, 8, 64, king_from, home * 8 + kx - 2));
                }
            }
            lemma_concat_ok(a, b, cells, 8, 64, 1, 1);
        }
    }

    proof fn lemma_piece_ok(&self, cells: Seq<u8>, castling: Seq<bool>, ep: Option<u16>, mover: Player, from: int)
        requires
            self.wf_rules(),
            board_ok(cells, self.n()),
            0 <= from < self.n(),
            cells[from] != 0,
        ensures
            moves_ok(self.piece_spec(cells, castling, ep, mover, from), cells, self.w(), self.n(), 400),
    {
        reveal(knight_spec);
        reveal(king_step_spec);
        reveal(rook_spec);
        reveal(bishop_spec);
        let w = self.w();
        let h = self.h();
        let n = self.n();
        let code = cells[from];
        let ahead = ahead_of(code_owner(code), code_reversed(code));
        match code_piece(code) {
            Piece::Pawn => {
                self.lemma_pawn_ok(cells, ep, mover, from, ahead);
            },
            Piece::Knight => {
                self.lemma_leap_ok(cells, ep, mover, from, ahead, 1, 2);
                self.lemma_leap_ok(cells, ep, mover, from, ahead, -1, 2);
                self.lemma_leap_ok(cells, ep, mover, from, ahead, 2, 1);
                self.lemma_leap_ok(cells, ep, mover, from, ahead, -2, 1);
                let l = |dx: int, dr: int| leap_spec(cells, w, h, ep, mover, from, ahead, dx, dr);
                lemma_concat_ok(l(1, 2), l(-1, 2), cells, w, n, 4, 4);
                lemma_concat_ok(l(1, 2) + l(-1, 2), l(2, 1), cells, w, n, 8, 4);
                lemma_concat_ok(l(1, 2) + l(-1, 2) + l(2, 1), l(-2, 1), cells, w, n, 12, 4);
            },
            Piece::King => {
                self.lemma_leap_ok(cells, ep, mover, from, ahead, -1, 0);
                self.lemma_leap_ok(cells, ep, mover, from, ahead, 1, 0);
                self.lemma_leap_ok(cells, ep, mover, from, ahead, -1, 1);
                self.lemma_leap_ok(cells, ep, mover, from, ahead, 0, 1);
                self.lemma_leap_ok(cells, ep, mover, from, ahead, 1, 1);
                self.lemma_castle_ok(cells, castling, ep, mover, from);
                let l = |dx: int, dr: int| leap_spec(cells, w, h, ep, mover, from, ahead, dx, dr);
                lemma_concat_ok(l(-1, 0), l(1, 0), cells, w, n, 4, 4);
                lemma_concat_ok(l(-1, 0) + l(1, 0), l(-1, 1), cells, w, n, 8, 4);
                lemma_concat_ok(l(-1, 0) + l(1, 0) + l(-1, 1), l(0, 1), cells, w, n, 12, 4);
                lemma_concat_ok(l(-1, 0) + l(1, 0) + l(-1, 1) + l(0, 1), l(1, 1), cells, w, n, 16, 4);
                lemma_concat_ok(king_step_spec(cells, w, h, ep, mover, from, ahead), self.castle_spec(cells, castling, ep, mover, from), cells, w, n, 20, 2);
            },
            _ => {
                let sl = |dx: int, dr: int| slide_spec(cells, w, h, ep, mover, from, ahead, dx, dr);
                self.lemma_slide_ok(cells, ep, mover, from, ahead, 0, 1);
                self.lemma_slide_ok(cells, ep, mover, from, ahead, 1, 0);
                self.lemma_slide_ok(cells, ep, mover, from, ahead, -1, 0);
                self.lemma_slide_ok(cells, ep, mover, from, ahead, 1, 1);
                self.lemma_slide_ok(cells, ep, mover, from, ahead, -1, 1);
                lemma_concat_ok(sl(0, 1), sl(1, 0), cells, w, n, 68, 68);
                lemma_concat_ok(sl(0, 1) + sl(1, 0), sl(-1, 0), cells, w, n, 136, 68);
                lemma_concat_ok(sl(1, 1), sl(-1, 1), cells, w, n, 68, 68);
                lemma_concat_ok(rook_spec(cells, w, h, ep, mover, from, ahead), bishop_spec(cells, w, h, ep, mover, from, ahead), cells, w, n, 204, 136);
            },
        }
    }

    proof fn lemma_gen_ok(&self, cells: Seq<u8>, castling: Seq<bool>, ep: Option<u16>, mover: Player, i: int)
        requires
            self.wf_rules(),
            board_ok(cells, self.n()),
            0 <= i <= self.n(),
        ensures
            moves_ok(self.gen_spec(cells, castling, ep, mover, i), cells, self.w(), self.n(), 400 * i),
        decreases i,
    {
        if i > 0 {
            self.lemma_gen_ok(cells, castling, ep, mover, i - 1);
            let prev = self.gen_spec(cells, castling, ep, mover, i - 1);
            if cells[i - 1] != 0 && code_owner(cells[i - 1]) == mover {
                self.lemma_piece_ok(cells, castling, ep, mover, i - 1);
                lemma_concat_ok(prev, self.piece_spec(cells, castling, ep, mover, i - 1), cells, self.w(), self.n(), 400 * (i - 1), 400);
            } else {
                lemma_concat_ok(prev, Seq::empty(), cells, self.w(), self.n(), 400 * (i - 1), 0);
            }
        }
    }
}


/// Number of entries of `s` equal to `k`.
pub open spec fn count_eq(s: Seq<u64>, k: u64) -> nat
    decreases s.len(),
{
    if s.len() == 0 {
        0
    } else {
        count_eq(s.drop_last(), k) + if s.last() == k {
            1nat
        } else {
            0nat
        }
    }
}

/// White's starting piece on `c` (Black's layout is the 180-degree
/// rotation).
pub open spec fn white_layout(r: Ruleset, c: int) -> Option<Piece> {
    match r {
        Ruleset::Tiny => if c == 1 {
            Some(Piece::King)
        } else if c == 3 {
            Some(Piece::Pawn)
        } else {
            None
        },
        Ruleset::Small => if c == 1 {
            Some(Piece::King)
        } else if c == 2 {
            Some(Piece::Rook)
        } else if c == 4 {
            Some(Piece::Pawn)
        } else {
            None
        },
        Ruleset::Medium => if c == 2 {
            Some(Piece::King)
        } else if c == 3 {
            Some(Piece::Rook)
        } else if c == 1 {
            Some(Piece::Bishop)
        } else if c == 4 {
            Some(Piece::Knight)
        } else if c == 6 || c == 8 || c == 11 {
            Some(Piece::Pawn)
        } else {
            None
        },
        Ruleset::Full => if c == 0 || c == 7 {
            Some(Piece::Rook)
        } else if c == 1 || c == 6 {
            Some(Piece::Knight)
        } else if c == 2 || c == 5 {
            Some(Piece::Bishop)
        } else if c == 3 {
            Some(Piece::Queen)
        } else if c == 4 {
            Some(Piece::King)
        } else if 8 <= c < 16 {
            Some(Piece::Pawn)
        } else {
            None
        },
    }
}

/// The starting board of a ruleset with `n` cells.
pub open spec fn start_board(r: Ruleset, n: int) -> Seq<u8> {
    Seq::new(
        n as nat,
        |c: int|
            match white_layout(r, c) {
                Some(p) => pack_code(Player::One, p, false),
                None => match white_layout(r, n - 1 - c) {
                    Some(p) => pack_code(Player::Two, p, false),
                    None => 0u8,
                },
            },
    )
}

fn white_piece_at(r: Ruleset, c: u16) -> (p: Option<Piece>)
    ensures
        p == white_layout(r, c as int),
{
    match r {
        Ruleset::Tiny => if c == 1 {
            Some(Piece::King)
        } else if c == 3 {
            Some(Piece::Pawn)
        } else {
            None
        },
        Ruleset::Small => if c == 1 {
            Some(Piece::King)
        } else if c == 2 {
            Some(Piece::Rook)
        } else if c == 4 {
            Some(Piece::Pawn)
        } else {
            None
        },
        Ruleset::Medium => if c == 2 {
            Some(Piece::King)
        } else if c == 3 {
            Some(Piece::Rook)
        } else if c == 1 {
            Some(Piece::Bishop)
        } else if c == 4 {
            Some(Piece::Knight)
        } else if c == 6 || c == 8 || c == 11 {
            Some(Piece::Pawn)
        } else {
            None
        },
        Ruleset::Full => if c == 0 || c == 7 {
            Some(Piece::Rook)
        } else if c == 1 || c == 6 {
            Some(Piece::Knight)
        } else if c == 2 || c == 5 {
            Some(Piece::Bishop)
        } else if c == 3 {
            Some(Piece::Queen)
        } else if c == 4 {
            Some(Piece::King)
        } else if 8 <= c && c < 16 {
            Some(Piece::Pawn)
        } else {
            None
        },
    }
}

/// Castling right `i` is lost when `cell` (a square `owner` moved from,
/// or an `owner` square moved onto) is `owner`'s king home or rook corner.
pub open spec fn right_lost(w: int, h: int, king_home: int, owner: Player, cell: int, i: int) -> bool {
    let base = if owner == Player::One { 0int } else { 2int };
    let home = if owner == Player::One { 0int } else { h - 1 };
    ||| (i == base || i == base + 1) && cell == king_home
    ||| i == base && cell == home * w + w - 1
    ||| i == base + 1 && cell == home * w
}

impl ForwardChess {
    /// All legal moves of `mover`, in generation order.
    pub open spec fn live_moves(&self, cells: Seq<u8>, castling: Seq<bool>, ep: Option<u16>, mover: Player) -> Seq<FcMove> {
        self.gen_spec(cells, castling, ep, mover, self.n())
    }

    /// Outcome of a core for its side to move, ignoring repetition:
    /// checkmate, stalemate, or the fifty-move rule.
    pub open spec fn core_outcome_spec(&self, cells: Seq<u8>, to_move: Player, castling: Seq<bool>, ep: Option<u16>, halfmove: u16) -> Option<Outcome> {
        if self.live_moves(cells, castling, ep, to_move).len() == 0 {
            if in_check_spec(cells, self.w(), to_move) {
                Some(Outcome::Win(to_move.other()))
            } else {
                Some(Outcome::Draw)
            }
        } else if halfmove >= 100 {
            Some(Outcome::Draw)
        } else {
            None
        }
    }

    /// Rights after a move of `mover` from `from` to `to`.
    pub open spec fn rights_after(&self, castling: Seq<bool>, mover: Player, from: int, to: int) -> Seq<bool> {
        if !ruleset_castles(self.spec_ruleset()) {
            castling
        } else {
            Seq::new(4, |i: int| castling[i] && !right_lost(self.w(), self.h(), self.king_home_spec(mover), mover, from, i)
                && !right_lost(self.w(), self.h(), self.king_home_spec(mover.other()), mover.other(), to, i))
        }
    }

    /// En-passant square after a move of `piece` from `from` to `to`.
    pub open spec fn ep_after(&self, piece: Piece, from: int, to: int) -> Option<u16> {
        let w = self.w();
        if piece == Piece::Pawn && abs(to / w - from / w) == 2 {
            Some((((from / w + to / w) / 2) * w + to % w) as u16)
        } else {
            None
        }
    }

    pub open spec fn core_model_of(&self, cells: Seq<u8>, to_move: Player, castling: Seq<bool>, ep: Option<u16>, halfmove: u16) -> CoreModel {
        CoreModel {
            cells,
            to_move,
            castling,
            ep,
            halfmove,
            key: self.key_of(cells, to_move, castling, ep),
            outcome: self.core_outcome_spec(cells, to_move, castling, ep, halfmove),
        }
    }

    /// Outcome with the current history: the core outcome, else a draw
    /// once the current key occurs twice among the earlier positions.
    pub open spec fn outcome_with_history(&self, core: CoreModel, history: Seq<u64>) -> Option<Outcome> {
        match self.core_outcome_spec(core.cells, core.to_move, core.castling, core.ep, core.halfmove) {
            Some(o) => Some(o),
            None => if count_eq(history, core.key) >= 2 {
                Some(Outcome::Draw)
            } else {
                None
            },
        }
    }

    /// Does the core satisfy the rules invariant?
    pub open spec fn core_ok(&self, c: CoreModel) -> bool {
        &&& board_ok(c.cells, self.n())
        &&& c.castling.len() == 4
        &&& c.ep matches Some(e) ==> (e as int) < self.n()
        &&& c.key == self.key_of(c.cells, c.to_move, c.castling, c.ep)
        &&& c.outcome is None ==> c.halfmove < 100 && self.live_moves(c.cells, c.castling, c.ep, c.to_move).len() > 0
    }
}

proof fn lemma_apply_board_ok(cells: Seq<u8>, w: int, h: int, ep: Option<u16>, mv: FcMove)
    requires
        0 < w,
        0 < h,
        board_ok(cells, w * h),
        apply_ok(cells, w, w * h, mv.from as int, mv.to as int),
    ensures
        board_ok(apply_spec(cells, w, ep, mv).0, w * h),
{
    let from = mv.from as int;
    let to = mv.to as int;
    lemma_coords(w, h, from);
    lemma_coords(w, h, to);
    let rank = from / w;
    lemma_index(w, h, to % w, rank);
    lemma_index(w, h, w - 1, rank);
    lemma_index(w, h, 0, rank);
    if 0 <= from % w + 1 < w {
        lemma_index(w, h, from % w + 1, rank);
    }
    if 0 <= from % w - 1 < w {
        lemma_index(w, h, from % w - 1, rank);
    }
    let r = apply_spec(cells, w, ep, mv).0;
    let code = cells[from];
    lemma_pack_unpack(code_owner(code), Piece::Queen, true);
    match mv.promotion {
        Some(p) => {
            lemma_pack_unpack(code_owner(code), p, true);
        },
        None => {},
    }
    assert forall|c: int| 0 <= c < w * h implies #[trigger] r[c] <= 24 by {
    }
}

impl ForwardChess {
    /// Outcome of a core for its side to move, ignoring repetition.
    fn core_outcome(&self, core: &FcCore) -> (o: Option<Outcome>)
        requires
            self.wf_rules(),
            board_ok(core.cells@, self.n()),
        ensures
            o == self.core_outcome_spec(core.cells@, core.to_move, core.castling@, core.ep, core.halfmove),
    {
        let mut moves: Vec<FcMove> = Vec::new();
        self.generate_legal(core, &mut moves);
        if moves.len() == 0 {
            if self.king_in_check(&core.cells, core.to_move) {
                Some(Outcome::Win(core.to_move.opponent()))
            } else {
                Some(Outcome::Draw)
            }
        } else if core.halfmove >= 100 {
            Some(Outcome::Draw)
        } else {
            None
        }
    }

    fn clone_core(&self, core: &FcCore) -> (c: FcCore)
        ensures
            core_view(c) == core_view(*core),
    {
        let cells = core.cells.clone();
        assert(cells@ =~= core.cells@);
        let castling = [core.castling[0], core.castling[1], core.castling[2], core.castling[3]];
        assert(castling@ =~= core.castling@);
        FcCore {
            cells,
            to_move: core.to_move,
            castling,
            ep: core.ep,
            halfmove: core.halfmove,
            key: core.key,
            outcome: core.outcome,
        }
    }

    /// Is right `i` lost by a move touching `cell` of `owner`?
    fn right_lost_exec(&self, owner: Player, cell: u16, i: usize) -> (r: bool)
        requires
            self.wf_rules(),
        ensures
            r == right_lost(self.w(), self.h(), self.king_home_spec(owner), owner, cell as int, i as int),
    {
        let base: usize = if owner == Player::One {
            0
        } else {
            2
        };
        let home: u16 = if owner == Player::One {
            0
        } else {
            self.height - 1
        };
        let king = self.king_home(owner);
        ((i == base || i == base + 1) && cell == king) || (i == base && cell == self.cell(self.width - 1, home))
            || (i == base + 1 && cell == self.cell(0, home))
    }

    /// Count of `key` among the history entries.
    fn count_key(history: &Vec<u64>, key: u64) -> (r: usize)
        ensures
            r == count_eq(history@, key),
    {
        let mut r: usize = 0;
        let mut i: usize = 0;
        while i < history.len()
            invariant
                i <= history@.len(),
                r == count_eq(history@.take(i as int), key),
                r <= i,
            decreases history@.len() - i,
        {
            proof {
                assert(history@.take(i + 1).drop_last() =~= history@.take(i as int));
            }
            if history[i] == key {
                r += 1;
            }
            i += 1;
        }
        assert(history@.take(i as int) =~= history@);
        r
    }
}


/// Feature of a piece `code` on perspective cell `rel` for `mover`.
pub open spec fn piece_feature(code: u8, rel: int, mover: Player) -> int {
    rel * 24 + piece_index(code_piece(code)) * 4 + (if code_owner(code) != mover { 2int } else { 0int }) + (if code_reversed(code) { 1int } else { 0int })
}

/// Cell seen from `mover`'s side (the board rotated 180 degrees for
/// Black).
pub open spec fn fc_perspective(n: int, mover: Player, cell: int) -> int {
    match mover {
        Player::One => cell,
        Player::Two => n - 1 - cell,
    }
}

/// Piece features over perspective cells `0..i`, ascending.
pub open spec fn cell_features(cells: Seq<u8>, n: int, mover: Player, i: int) -> Seq<FeatureId>
    decreases i,
{
    if i <= 0 {
        Seq::empty()
    } else {
        let prev = cell_features(cells, n, mover, i - 1);
        let code = cells[fc_perspective(n, mover, i - 1)];
        if code != 0 {
            prev.push(piece_feature(code, i - 1, mover) as FeatureId)
        } else {
            prev
        }
    }
}

/// Castling-right features: own short, own long, opponent short,
/// opponent long, as slots `0..4` after the cell features.
pub open spec fn right_features(castling: Seq<bool>, base: int, mover: Player, k: int) -> Seq<FeatureId>
    decreases k,
{
    if k <= 0 {
        Seq::empty()
    } else {
        let prev = right_features(castling, base, mover, k - 1);
        let slot = k - 1;
        let own = if mover == Player::One { 0int } else { 2int };
        let opp = if mover == Player::One { 2int } else { 0int };
        let index = if slot == 0 { own } else if slot == 1 { own + 1 } else if slot == 2 { opp } else { opp + 1 };
        if castling[index] {
            prev.push((base + slot) as FeatureId)
        } else {
            prev
        }
    }
}

impl Game for ForwardChess {
    type State = FcState;
    type Move = FcMove;
    type Undo = FcUndo;
    type Model = FcModel;
    type UndoModel = FcUndoModel;

    open spec fn wf(&self) -> bool {
        self.wf_rules()
    }

    closed spec fn model(&self, s: &FcState) -> FcModel {
        FcModel { core: core_view(s.core), history: s.history@ }
    }

    open spec fn valid(&self, m: FcModel) -> bool {
        self.core_ok(m.core)
    }

    open spec fn initial(&self) -> FcModel {
        let cells = start_board(self.spec_ruleset(), self.n());
        let castling = Seq::new(4, |i: int| ruleset_castles(self.spec_ruleset()));
        FcModel { core: self.core_model_of(cells, Player::One, castling, None, 0), history: Seq::empty() }
    }

    open spec fn side(&self, m: FcModel) -> Player {
        m.core.to_move
    }

    open spec fn result(&self, m: FcModel) -> Option<Outcome> {
        m.core.outcome
    }

    open spec fn key(&self, m: FcModel) -> u64 {
        m.core.key
    }

    open spec fn moves(&self, m: FcModel) -> Seq<FcMove> {
        sort_spec(self.live_moves(m.core.cells, m.core.castling, m.core.ep, m.core.to_move))
    }

    open spec fn next(&self, m: FcModel, mv: FcMove) -> FcModel {
        let c = m.core;
        let mover = c.to_move;
        let (cells, irreversible) = apply_spec(c.cells, self.w(), c.ep, mv);
        let piece = code_piece(c.cells[mv.from as int]);
        let castling = self.rights_after(c.castling, mover, mv.from as int, mv.to as int);
        let ep = self.ep_after(piece, mv.from as int, mv.to as int);
        let halfmove = if irreversible { 0u16 } else { (c.halfmove + 1) as u16 };
        let history = if irreversible { Seq::empty() } else { m.history.push(c.key) };
        let core = self.core_model_of(cells, mover.other(), castling, ep, halfmove);
        FcModel { core: CoreModel { outcome: self.outcome_with_history(core, history), ..core }, history }
    }

    closed spec fn undo_model(&self, u: &FcUndo) -> FcUndoModel {
        FcUndoModel {
            prior: core_view(u.prior),
            cleared_history: match u.cleared_history {
                Some(h) => Some(h@),
                None => None,
            },
        }
    }

    open spec fn undo(&self, m: FcModel, mv: FcMove) -> FcUndoModel {
        let irreversible = apply_spec(m.core.cells, self.w(), m.core.ep, mv).1;
        FcUndoModel { prior: m.core, cleared_history: if irreversible { Some(m.history) } else { None } }
    }

    open spec fn restore(&self, m: FcModel, mv: FcMove, u: FcUndoModel) -> FcModel {
        FcModel {
            core: u.prior,
            history: match u.cleared_history {
                Some(h) => h,
                None => m.history.drop_last(),
            },
        }
    }

    open spec fn features(&self, m: FcModel) -> Seq<FeatureId> {
        let c = m.core;
        let n = self.n();
        let base = n * 24;
        let pieces = cell_features(c.cells, n, c.to_move, n);
        let rights = right_features(c.castling, base, c.to_move, 4);
        let ep = match c.ep {
            Some(e) => seq![(base + 4 + fc_perspective(n, c.to_move, e as int) % self.w()) as FeatureId],
            None => Seq::empty(),
        };
        pieces + rights + ep
    }

    open spec fn action(&self, m: FcModel, mv: FcMove) -> ActionId {
        let n = self.n();
        let w = self.w();
        let from = fc_perspective(n, m.core.to_move, mv.from as int);
        let to = fc_perspective(n, m.core.to_move, mv.to as int);
        match mv.promotion {
            None => (from * n + to) as ActionId,
            Some(Piece::Queen) => (from * n + to) as ActionId,
            Some(p) => (n * n + promo_offset(p, w) + (from % w) * 3 + (to % w - from % w + 1)) as ActionId,
        }
    }

    /// Captures (en passant included) and promotions.
    open spec fn tactical(&self, m: FcModel, mv: FcMove) -> bool {
        ||| mv.promotion is Some
        ||| m.core.cells[mv.to as int] != 0
        ||| (m.core.cells[mv.from as int] != 0 && code_piece(m.core.cells[mv.from as int]) == Piece::Pawn
            && m.core.ep == Some(mv.to))
    }

    open spec fn acyclic(&self) -> bool {
        false
    }

    open spec fn height(&self, m: FcModel) -> nat {
        0
    }

    proof fn lemma_initial_valid(&self) {
        let cells = start_board(self.ruleset, self.n());
        assert forall|c: int| 0 <= c < self.n() implies #[trigger] cells[c] <= 24 by {
            match white_layout(self.ruleset, c) {
                Some(p) => lemma_pack_unpack(Player::One, p, false),
                None => match white_layout(self.ruleset, self.n() - 1 - c) {
                    Some(p) => lemma_pack_unpack(Player::Two, p, false),
                    None => {},
                },
            }
        }
    }

    proof fn lemma_step(&self, m: FcModel, mv: FcMove) {
        let c = m.core;
        self.lemma_gen_ok(c.cells, c.castling, c.ep, c.to_move, self.n());
        let live = self.live_moves(c.cells, c.castling, c.ep, c.to_move);
        lemma_sort_members(live);
        let i = choose|i: int| 0 <= i < self.moves(m).len() && self.moves(m)[i] == mv;
        let j = choose|j: int| 0 <= j < live.len() && live[j] == self.moves(m)[i];
        assert(apply_ok(c.cells, self.w(), self.n(), live[j].from as int, live[j].to as int));
        lemma_apply_board_ok(c.cells, self.w(), self.h(), c.ep, mv);
        let m2 = self.next(m, mv);
        lemma_coords(self.w(), self.h(), mv.to as int);
        lemma_coords(self.w(), self.h(), mv.from as int);
        let piece = code_piece(c.cells[mv.from as int]);
        let fr = mv.from as int / self.w();
        let tr = mv.to as int / self.w();
        if piece == Piece::Pawn && abs(tr - fr) == 2 {
            lemma_index(self.w(), self.h(), mv.to as int % self.w(), (fr + tr) / 2);
        }
        let r = self.restore(m2, mv, self.undo(m, mv));
        assert(r.history =~= m.history);
        assert(r =~= m);
    }

    proof fn lemma_live_has_moves(&self, m: FcModel) {
        lemma_sort_len(self.live_moves(m.core.cells, m.core.castling, m.core.ep, m.core.to_move));
    }

    proof fn lemma_height_decreases(&self, m: FcModel, mv: FcMove) {
    }

    proof fn lemma_height_bounded(&self, m: FcModel) {
    }

    proof fn lemma_moves_bounded(&self, m: FcModel) {
        let c = m.core;
        self.lemma_gen_ok(c.cells, c.castling, c.ep, c.to_move, self.n());
        lemma_sort_len(self.live_moves(c.cells, c.castling, c.ep, c.to_move));
    }

    fn initial_state(&self) -> (s: FcState) {
        let n = self.cell_count() as u16;
        let mut cells: Vec<u8> = Vec::new();
        let ghost target = start_board(self.ruleset, self.n());
        let mut c: u16 = 0;
        while c < n
            invariant
                self.wf_rules(),
                n == self.n(),
                c <= n,
                target == start_board(self.ruleset, self.n()),
                cells@ =~= target.subrange(0, c as int),
            decreases n - c,
        {
            let code = match white_piece_at(self.ruleset, c) {
                Some(p) => pack(Player::One, p, false),
                None => match white_piece_at(self.ruleset, n - 1 - c) {
                    Some(p) => pack(Player::Two, p, false),
                    None => EMPTY,
                },
            };
            cells.push(code);
            c += 1;
        }
        proof {
            self.lemma_initial_valid();
            assert(cells@ =~= target);
        }
        let rights = self.ruleset.castling();
        let mut core = FcCore {
            cells,
            to_move: Player::One,
            castling: [rights, rights, rights, rights],
            ep: None,
            halfmove: 0,
            key: 0,
            outcome: None,
        };
        assert(core.castling@ =~= Seq::new(4, |i: int| ruleset_castles(self.ruleset)));
        core.key = self.compute_key(&core);
        core.outcome = self.core_outcome(&core);
        let s = FcState { core, history: Vec::new() };
        assert(self.model(&s) =~= self.initial());
        s
    }

    fn side_to_move(&self, state: &FcState) -> (p: Player) {
        state.core.to_move
    }

    fn legal_moves(&self, state: &FcState, moves: &mut Vec<FcMove>) {
        self.generate_legal(&state.core, moves);
        let sorted = sort_moves(moves);
        *moves = sorted;
    }

    fn make_move(&self, state: &mut FcState, mv: FcMove) -> (u: FcUndo) {
        let ghost m = self.model(state);
        proof {
            let c = m.core;
            self.lemma_gen_ok(c.cells, c.castling, c.ep, c.to_move, self.n());
            let live = self.live_moves(c.cells, c.castling, c.ep, c.to_move);
            lemma_sort_members(live);
            let i = choose|i: int| 0 <= i < self.moves(m).len() && self.moves(m)[i] == mv;
            let j = choose|j: int| 0 <= j < live.len() && live[j] == self.moves(m)[i];
            assert(apply_ok(c.cells, self.w(), self.n(), live[j].from as int, live[j].to as int));
            lemma_coords(self.w(), self.h(), mv.to as int);
            lemma_coords(self.w(), self.h(), mv.from as int);
        }
        let prior = self.clone_core(&state.core);
        let mover = state.core.to_move;
        let code = state.core.cells[mv.from as usize];
        let (_, piece, _) = unpack(code);
        let prev_key = state.core.key;
        let irreversible = self.apply_to_cells(&mut state.core.cells, state.core.ep, mv);
        if self.ruleset.castling() {
            let opp = mover.opponent();
            let c0 = state.core.castling[0] && !self.right_lost_exec(mover, mv.from, 0) && !self.right_lost_exec(opp, mv.to, 0);
            let c1 = state.core.castling[1] && !self.right_lost_exec(mover, mv.from, 1) && !self.right_lost_exec(opp, mv.to, 1);
            let c2 = state.core.castling[2] && !self.right_lost_exec(mover, mv.from, 2) && !self.right_lost_exec(opp, mv.to, 2);
            let c3 = state.core.castling[3] && !self.right_lost_exec(mover, mv.from, 3) && !self.right_lost_exec(opp, mv.to, 3);
            state.core.castling = [c0, c1, c2, c3];
        }
        proof {
            assert(state.core.castling@ =~= self.rights_after(m.core.castling, mover, mv.from as int, mv.to as int));
        }
        state.core.ep = None;
        if piece == Piece::Pawn {
            let from_rank = (mv.from / self.width) as i32;
            let to_rank = (mv.to / self.width) as i32;
            if to_rank - from_rank == 2 || from_rank - to_rank == 2 {
                let crossed_rank = ((from_rank + to_rank) / 2) as u16;
                state.core.ep = Some(self.cell(mv.to % self.width, crossed_rank));
            }
        }
        state.core.halfmove = if irreversible {
            0
        } else {
            state.core.halfmove + 1
        };
        let cleared_history = if irreversible {
            let mut taken: Vec<u64> = Vec::new();
            std::mem::swap(&mut taken, &mut state.history);
            Some(taken)
        } else {
            state.history.push(prev_key);
            None
        };
        state.core.to_move = mover.opponent();
        state.core.key = self.compute_key(&state.core);
        let outcome = self.core_outcome(&state.core);
        state.core.outcome = match outcome {
            Some(o) => Some(o),
            None => {
                let repeats = Self::count_key(&state.history, state.core.key);
                if repeats >= 2 {
                    Some(Outcome::Draw)
                } else {
                    None
                }
            },
        };
        proof {
            assert(self.model(state) =~= self.next(m, mv));
        }
        FcUndo { prior, cleared_history }
    }

    fn unmake_move(&self, state: &mut FcState, mv: FcMove, u: FcUndo) {
        let ghost p = choose|p: FcModel|
            #![trigger self.next(p, mv)]
            {
                &&& self.valid(p)
                &&& self.result(p) is None
                &&& self.moves(p).contains(mv)
                &&& self.next(p, mv) == self.model(state)
                &&& self.undo(p, mv) == self.undo_model(&u)
            };
        let ghost m = self.model(state);
        state.core = u.prior;
        match u.cleared_history {
            Some(history) => {
                state.history = history;
            },
            None => {
                state.history.pop();
            },
        }
        proof {
            assert(self.model(state) =~= self.restore(m, mv, self.undo_model(&u)));
        }
    }

    fn outcome(&self, state: &FcState) -> (o: Option<Outcome>) {
        state.core.outcome
    }

    fn position_key(&self, state: &FcState) -> (k: u64) {
        state.core.key
    }

    fn encode_features(&self, state: &FcState, features: &mut Vec<FeatureId>) {
        features.clear();
        let mover = state.core.to_move;
        let n = self.cell_count() as usize;
        let mut rel: usize = 0;
        while rel < n
            invariant
                self.wf_rules(),
                board_ok(state.core.cells@, self.n()),
                n == self.n(),
                rel <= n,
                mover == state.core.to_move,
                features@ == cell_features(state.core.cells@, n as int, mover, rel as int),
            decreases n - rel,
        {
            let cell = match mover {
                Player::One => rel,
                Player::Two => n - 1 - rel,
            };
            let code = state.core.cells[cell];
            if code != EMPTY {
                let (owner, piece, reversed) = unpack(code);
                let opp: usize = if owner != mover {
                    2
                } else {
                    0
                };
                let rev: usize = if reversed {
                    1
                } else {
                    0
                };
                features.push((rel * 24 + piece_idx(piece) as usize * 4 + opp + rev) as FeatureId);
            }
            rel += 1;
        }
        let base = n * 24;
        let own: usize = if mover == Player::One {
            0
        } else {
            2
        };
        let opp: usize = if mover == Player::One {
            2
        } else {
            0
        };
        let ghost pieces = features@;
        let mut slot: usize = 0;
        while slot < 4
            invariant
                state.core.castling@.len() == 4,
                slot <= 4,
                n == self.n(),
                n <= 64,
                base == n * 24,
                mover == state.core.to_move,
                own == (if mover == Player::One { 0int } else { 2int }),
                opp == (if mover == Player::One { 2int } else { 0int }),
                features@ == pieces + right_features(state.core.castling@, base as int, mover, slot as int),
            decreases 4 - slot,
        {
            let index = if slot == 0 {
                own
            } else if slot == 1 {
                own + 1
            } else if slot == 2 {
                opp
            } else {
                opp + 1
            };
            if state.core.castling[index] {
                features.push((base + slot) as FeatureId);
            }
            proof {
                assert(features@ =~= pieces + right_features(state.core.castling@, base as int, mover, slot + 1));
            }
            slot += 1;
        }
        let ghost before_ep = features@;
        match state.core.ep {
            Some(ep) => {
                let rel = match mover {
                    Player::One => ep as usize,
                    Player::Two => n - 1 - ep as usize,
                };
                features.push((base + 4 + rel % self.width as usize) as FeatureId);
            },
            None => {},
        }
        proof {
            let m = self.model(state);
            assert(features@ =~= self.features(m));
        }
    }

    fn action_id(&self, state: &FcState, mv: FcMove) -> (a: ActionId) {
        proof {
            let c = state.core;
            self.lemma_gen_ok(core_view(c).cells, core_view(c).castling, c.ep, c.to_move, self.n());
            let live = self.live_moves(core_view(c).cells, core_view(c).castling, c.ep, c.to_move);
            lemma_sort_members(live);
            let m = self.model(state);
            let i = choose|i: int| 0 <= i < self.moves(m).len() && self.moves(m)[i] == mv;
            let j = choose|j: int| 0 <= j < live.len() && live[j] == self.moves(m)[i];
            assert(apply_ok(core_view(c).cells, self.w(), self.n(), live[j].from as int, live[j].to as int));
            assert(live[j] == mv);
            assert(mv.from < self.n() && mv.to < self.n());
        }
        let mover = state.core.to_move;
        let n = self.cell_count() as i64;
        let w = self.width as i64;
        let from: i64 = match mover {
            Player::One => mv.from as i64,
            Player::Two => n - 1 - mv.from as i64,
        };
        let to: i64 = match mover {
            Player::One => mv.to as i64,
            Player::Two => n - 1 - mv.to as i64,
        };
        proof {
            lemma_small_product(from as int, n as int);
            lemma_small_product(n as int, n as int);
        }
        match mv.promotion {
            None => (from * n + to) as ActionId,
            Some(Piece::Queen) => (from * n + to) as ActionId,
            Some(piece) => {
                let promo_base: i64 = match piece {
                    Piece::Bishop => w * 3,
                    Piece::Rook => 2 * (w * 3),
                    _ => 0,
                };
                let from_file = from % w;
                let to_file = to % w;
                (n * n + promo_base + from_file * 3 + (to_file - from_file + 1)) as ActionId
            },
        }
    }

    fn is_tactical(&self, state: &FcState, mv: FcMove) -> (t: bool) {
        proof {
            let c = state.core;
            self.lemma_gen_ok(core_view(c).cells, core_view(c).castling, c.ep, c.to_move, self.n());
            let live = self.live_moves(core_view(c).cells, core_view(c).castling, c.ep, c.to_move);
            lemma_sort_members(live);
            let m = self.model(state);
            let i = choose|i: int| 0 <= i < self.moves(m).len() && self.moves(m)[i] == mv;
            let j = choose|j: int| 0 <= j < live.len() && live[j] == self.moves(m)[i];
            assert(apply_ok(core_view(c).cells, self.w(), self.n(), live[j].from as int, live[j].to as int));
            assert(live[j] == mv);
            assert(mv.from < self.n() && mv.to < self.n());
        }
        if mv.promotion.is_some() {
            return true;
        }
        let cells = &state.core.cells;
        if cells[mv.to as usize] != 0 {
            return true;
        }
        let code = cells[mv.from as usize];
        if code == 0 {
            return false;
        }
        let (_, piece, _) = unpack(code);
        piece == Piece::Pawn && state.core.ep == Some(mv.to)
    }

    fn clone_state(&self, state: &FcState) -> (c: FcState) {
        let core = self.clone_core(&state.core);
        let history = state.history.clone();
        assert(history@ =~= state.history@);
        FcState { core, history }
    }

    fn same_move(&self, a: FcMove, b: FcMove) -> (r: bool) {
        a == b
    }
}

proof fn lemma_small_product(a: int, b: int)
    requires
        0 <= a <= 64,
        0 <= b <= 64,
    ensures
        0 <= a * b <= 64 * 64,
{
    assert(0 <= a * b <= 64 * 64) by (nonlinear_arith)
        requires
            0 <= a <= 64,
            0 <= b <= 64,
    ;
}

/// Offset of an underpromotion's action block (knight, bishop, rook).
pub open spec fn promo_offset(p: Piece, w: int) -> int {
    match p {
        Piece::Bishop => w * 3,
        Piece::Rook => 2 * (w * 3),
        _ => 0,
    }
}

/// Every member of the sorted list is a member of the input.
proof fn lemma_sort_members(s: Seq<FcMove>)
    ensures
        forall|i: int| 0 <= i < sort_spec(s).len() ==> s.contains(#[trigger] sort_spec(s)[i]),
    decreases s.len(),
{
    if s.len() > 0 {
        lemma_sort_members(s.drop_last());
        let sorted = sort_spec(s.drop_last());
        let p = insert_pos(sorted, s.last(), 0);
        lemma_insert_pos(sorted, s.last(), 0);
        lemma_sort_len(s.drop_last());
        assert forall|i: int| 0 <= i < sort_spec(s).len() implies s.contains(#[trigger] sort_spec(s)[i]) by {
            if i < p {
                assert(sort_spec(s)[i] == sorted[i]);
                assert(s.drop_last().contains(sorted[i]));
                let k = choose|k: int| 0 <= k < s.drop_last().len() && s.drop_last()[k] == sorted[i];
                assert(s[k] == sorted[i]);
            } else if i == p {
                assert(s[s.len() - 1] == s.last());
            } else {
                assert(sort_spec(s)[i] == sorted[i - 1]);
                assert(s.drop_last().contains(sorted[i - 1]));
                let k = choose|k: int| 0 <= k < s.drop_last().len() && s.drop_last()[k] == sorted[i - 1];
                assert(s[k] == sorted[i - 1]);
            }
        }
    }
}


/// Index of the first rank digit of a square name ("b3", or "b+3" as
/// integer parsing accepts a plus sign).
pub open spec fn rank_start(b: Seq<u8>) -> int {
    if b.len() > 1 && b[1] == 43 {
        2
    } else {
        1
    }
}

/// Value of the decimal digits `b[i..j]`.
pub open spec fn digits_value(b: Seq<u8>, i: int, j: int) -> int
    decreases j - i,
{
    if j <= i {
        0
    } else {
        digits_value(b, i, j - 1) * 10 + (b[j - 1] - 48)
    }
}

pub open spec fn all_digits(b: Seq<u8>, i: int, j: int) -> bool {
    forall|k: int| i <= k < j ==> 48 <= #[trigger] b[k] <= 57
}

/// A square name on a `w` x `h` board: a file letter from `a`, then the
/// rank number from 1.
pub open spec fn square_ok(b: Seq<u8>, w: int, h: int) -> bool {
    &&& b.len() >= 2
    &&& rank_start(b) < b.len()
    &&& 97 <= b[0] < 97 + w
    &&& all_digits(b, rank_start(b), b.len() as int)
    &&& 1 <= digits_value(b, rank_start(b), b.len() as int) <= h
}

/// The cell a square name denotes.
pub open spec fn square_of(b: Seq<u8>, w: int) -> int {
    (digits_value(b, rank_start(b), b.len() as int) - 1) * w + (b[0] - 97)
}

proof fn lemma_digits_mono(b: Seq<u8>, i: int, j: int, k: int)
    requires
        i <= j <= k,
        all_digits(b, i, k),
    ensures
        0 <= digits_value(b, i, j) <= digits_value(b, i, k),
    decreases k - j,
{
    if j < k {
        lemma_digits_mono(b, i, j, k - 1);
        assert(48 <= b[k - 1] <= 57);
    } else {
        lemma_digits_nonneg(b, i, j);
    }
}

proof fn lemma_digits_nonneg(b: Seq<u8>, i: int, j: int)
    requires
        all_digits(b, i, j),
    ensures
        0 <= digits_value(b, i, j),
    decreases j - i,
{
    if j > i {
        lemma_digits_nonneg(b, i, j - 1);
        assert(48 <= b[j - 1] <= 57);
    }
}

/// Cells after placing the first `k` listed pieces on an empty board.
pub open spec fn fc_placed(pieces: Seq<(&str, Player, Piece, bool)>, w: int, n: int, k: int) -> Seq<u8>
    decreases k,
{
    if k <= 0 {
        Seq::new(n as nat, |c: int| 0u8)
    } else {
        let (name, owner, piece, reversed) = pieces[k - 1];
        fc_placed(pieces, w, n, k - 1).update(square_of(name.spec_bytes(), w), pack_code(owner, piece, reversed))
    }
}

/// Every listed piece names a square of the board, and no square twice.
pub open spec fn pieces_ok(pieces: Seq<(&str, Player, Piece, bool)>, w: int, h: int) -> bool {
    &&& forall|k: int| 0 <= k < pieces.len() ==> square_ok((#[trigger] pieces[k]).0.spec_bytes(), w, h)
    &&& forall|i: int, j: int|
        0 <= i < j < pieces.len() ==> square_of((#[trigger] pieces[i]).0.spec_bytes(), w) != square_of(
            (#[trigger] pieces[j]).0.spec_bytes(),
            w,
        )
}

proof fn lemma_square_in_board(b: Seq<u8>, w: int, h: int)
    requires
        0 < w,
        0 < h,
        square_ok(b, w, h),
    ensures
        0 <= square_of(b, w) < w * h,
        square_of(b, w) % w == b[0] - 97,
        square_of(b, w) / w == digits_value(b, rank_start(b), b.len() as int) - 1,
{
    lemma_index(w, h, b[0] - 97, digits_value(b, rank_start(b), b.len() as int) - 1);
}

proof fn lemma_fc_placed(pieces: Seq<(&str, Player, Piece, bool)>, w: int, h: int, k: int)
    requires
        0 < w,
        0 < h,
        0 <= k <= pieces.len(),
        pieces_ok(pieces, w, h),
    ensures
        board_ok(fc_placed(pieces, w, w * h, k), w * h),
        forall|j: int| k <= j < pieces.len() ==> fc_placed(pieces, w, w * h, k)[square_of((#[trigger] pieces[j]).0.spec_bytes(), w)] == 0,
    decreases k,
{
    if k > 0 {
        lemma_fc_placed(pieces, w, h, k - 1);
        let (name, owner, piece, reversed) = pieces[k - 1];
        lemma_square_in_board(name.spec_bytes(), w, h);
        lemma_pack_unpack(owner, piece, reversed);
        assert forall|j: int| k <= j < pieces.len() implies fc_placed(pieces, w, w * h, k)[square_of((#[trigger] pieces[j]).0.spec_bytes(), w)] == 0 by {
            assert(square_ok(pieces[j].0.spec_bytes(), w, h));
            lemma_square_in_board(pieces[j].0.spec_bytes(), w, h);
            assert(square_of(pieces[k - 1].0.spec_bytes(), w) != square_of(pieces[j].0.spec_bytes(), w));
        }
    } else {
        assert(board_ok(fc_placed(pieces, w, w * h, 0), w * h));
        assert forall|j: int| k <= j < pieces.len() implies fc_placed(pieces, w, w * h, k)[square_of((#[trigger] pieces[j]).0.spec_bytes(), w)] == 0 by {
            assert(square_ok(pieces[j].0.spec_bytes(), w, h));
            lemma_square_in_board(pieces[j].0.spec_bytes(), w, h);
        }
    }
}

impl FcState {
    /// The position core of a state, without the history.
    pub closed spec fn core_model(&self) -> CoreModel {
        core_view(self.core)
    }

    /// Equality of everything a tablebase record stores (the repetition
    /// history is path-dependent and excluded).
    pub fn identical_core(&self, other: &FcState) -> (r: bool)
        ensures
            r == (self.core_model() == other.core_model()),
    {
        let a = &self.core;
        let b = &other.core;
        if a.cells.len() != b.cells.len() {
            assert(self.core_model().cells.len() != other.core_model().cells.len());
            return false;
        }
        let mut i: usize = 0;
        while i < a.cells.len()
            invariant
                *a == self.core,
                *b == other.core,
                a.cells@.len() == b.cells@.len(),
                i <= a.cells@.len(),
                forall|j: int| 0 <= j < i ==> a.cells@[j] == b.cells@[j],
            decreases a.cells@.len() - i,
        {
            if a.cells[i] != b.cells[i] {
                assert(self.core_model().cells[i as int] != other.core_model().cells[i as int]);
                return false;
            }
            i += 1;
        }
        assert(a.cells@ =~= b.cells@);
        let same_rights = a.castling[0] == b.castling[0] && a.castling[1] == b.castling[1] && a.castling[2]
            == b.castling[2] && a.castling[3] == b.castling[3];
        if same_rights {
            assert(a.castling@ =~= b.castling@);
        }
        same_rights && a.to_move == b.to_move && a.ep == b.ep && a.halfmove == b.halfmove && a.key == b.key
            && a.outcome == b.outcome
    }
}

impl ForwardChess {
    /// Parse "b3"-style coordinates (single-character file, rank >= 1).
    pub fn square(&self, name: &str) -> (c: u16)
        requires
            self.wf_rules(),
            square_ok(name.spec_bytes(), self.w(), self.h()),
        ensures
            c == square_of(name.spec_bytes(), self.w()),
    {
        let bytes = name.as_bytes();
        let ghost b = bytes@;
        let file = (bytes[0] - 97) as u16;
        let start: usize = if bytes.len() > 1 && bytes[1] == 43 {
            2
        } else {
            1
        };
        let mut rank: u32 = 0;
        let mut i: usize = start;
        while i < bytes.len()
            invariant
                b == bytes@,
                square_ok(b, self.w(), self.h()),
                start == rank_start(b),
                start <= i <= b.len(),
                rank == digits_value(b, start as int, i as int),
                self.wf_rules(),
            decreases b.len() - i,
        {
            proof {
                lemma_digits_mono(b, start as int, i + 1, b.len() as int);
            }
            rank = rank * 10 + (bytes[i] - 48) as u32;
            i += 1;
        }
        proof {
            lemma_square_in_board(b, self.w(), self.h());
        }
        self.cell(file, (rank - 1) as u16)
    }

    /// Build an arbitrary position (tests, diagnostics, solver seeds).
    /// `pieces`: (square name, owner, piece, reversed).
    pub fn custom_state(
        &self,
        pieces: &[(&str, Player, Piece, bool)],
        to_move: Player,
        castling: [bool; 4],
        ep: Option<&str>,
    ) -> (s: FcState)
        requires
            self.wf_rules(),
            pieces_ok(pieces@, self.w(), self.h()),
            ep matches Some(e) ==> square_ok(e.spec_bytes(), self.w(), self.h()),
        ensures
            self.model(&s) == (FcModel {
                core: self.core_model_of(
                    fc_placed(pieces@, self.w(), self.n(), pieces@.len() as int),
                    to_move,
                    castling@,
                    match ep {
                        Some(e) => Some(square_of(e.spec_bytes(), self.w()) as u16),
                        None => None,
                    },
                    0,
                ),
                history: Seq::empty(),
            }),
            self.valid(self.model(&s)),
    {
        let n = self.cell_count() as usize;
        let mut cells: Vec<u8> = Vec::new();
        let mut c: usize = 0;
        while c < n
            invariant
                c <= n,
                cells@ =~= Seq::new(c as nat, |j: int| 0u8),
            decreases n - c,
        {
            cells.push(EMPTY);
            c += 1;
        }
        assert(cells@ =~= fc_placed(pieces@, self.w(), self.n(), 0));
        let mut k: usize = 0;
        while k < pieces.len()
            invariant
                self.wf_rules(),
                n == self.n(),
                k <= pieces@.len(),
                pieces_ok(pieces@, self.w(), self.h()),
                cells@ == fc_placed(pieces@, self.w(), self.n(), k as int),
            decreases pieces@.len() - k,
        {
            let (name, owner, piece, reversed) = pieces[k];
            assert(square_ok(pieces@[k as int].0.spec_bytes(), self.w(), self.h()));
            proof {
                lemma_fc_placed(pieces@, self.w(), self.h(), k as int);
            }
            let cell = self.square(name);
            proof {
                lemma_square_in_board(name.spec_bytes(), self.w(), self.h());
            }
            cells.set(cell as usize, pack(owner, piece, reversed));
            k += 1;
        }
        proof {
            lemma_fc_placed(pieces@, self.w(), self.h(), pieces@.len() as int);
        }
        let ep_cell = match ep {
            Some(name) => {
                proof {
                    lemma_square_in_board(name.spec_bytes(), self.w(), self.h());
                }
                Some(self.square(name))
            },
            None => None,
        };
        let mut core = FcCore { cells, to_move, castling, ep: ep_cell, halfmove: 0, key: 0, outcome: None };
        core.key = self.compute_key(&core);
        core.outcome = self.core_outcome(&core);
        let s = FcState { core, history: Vec::new() };
        assert(self.model(&s).history =~= Seq::<u64>::empty());
        s
    }

    /// A state with the given core fields, no history, and the key and
    /// outcome recomputed.
    pub fn core_state(&self, cells: Vec<u8>, to_move: Player, castling: [bool; 4], ep: Option<u16>, halfmove: u16) -> (s: FcState)
        requires
            self.wf_rules(),
            board_ok(cells@, self.n()),
            ep matches Some(e) ==> (e as int) < self.n(),
        ensures
            self.model(&s) == (FcModel {
                core: self.core_model_of(cells@, to_move, castling@, ep, halfmove),
                history: Seq::empty(),
            }),
            self.valid(self.model(&s)),
    {
        let mut core = FcCore { cells, to_move, castling, ep, halfmove, key: 0, outcome: None };
        core.key = self.compute_key(&core);
        core.outcome = self.core_outcome(&core);
        let s = FcState { core, history: Vec::new() };
        assert(self.model(&s).history =~= Seq::<u64>::empty());
        s
    }

    /// The packed cell codes of a state.
    pub fn state_cells<'a>(&self, state: &'a FcState) -> (r: &'a Vec<u8>)
        ensures
            r@ == self.model(state).core.cells,
    {
        &state.core.cells
    }

    /// Board dimensions of a well-formed rules object.
    pub proof fn lemma_rules_dims(&self)
        requires
            self.wf_rules(),
        ensures
            3 <= self.w() <= 8,
            4 <= self.h() <= 8,
            12 <= self.n() <= 64,
            self.n() == self.w() * self.h(),
            (self.w(), self.h()) == (ruleset_dims(self.spec_ruleset()).0 as int, ruleset_dims(
                self.spec_ruleset(),
            ).1 as int),
    {
    }

    /// What the rules invariant guarantees of a position's board.
    pub proof fn lemma_valid_board(&self, m: FcModel)
        requires
            self.wf_rules(),
            self.valid(m),
        ensures
            self.wf(),
            3 <= self.w() <= 8,
            4 <= self.h() <= 8,
            12 <= self.n() <= 64,
            self.n() == self.w() * self.h(),
            self.side(m) == m.core.to_move,
            board_ok(m.core.cells, self.n()),
            m.core.ep matches Some(e) ==> (e as int) < self.n(),
    {
    }

    /// A position has at most 400 legal moves per cell.
    /// No piece moves behind itself: every legal move ends on a rank at
    /// or ahead of its start, measured in the moving piece's ahead
    /// direction (castling stays on the home rank).
    pub proof fn lemma_moves_oriented(&self, m: FcModel, mv: FcMove)
        requires
            self.wf_rules(),
            self.valid(m),
            self.moves(m).contains(mv),
        ensures
            oriented(m.core.cells, self.w(), mv.from as int, mv.to as int),
            ahead_of(code_owner(m.core.cells[mv.from as int]), code_reversed(m.core.cells[mv.from as int])) == 1
                ==> mv.to as int / self.w() >= mv.from as int / self.w(),
            ahead_of(code_owner(m.core.cells[mv.from as int]), code_reversed(m.core.cells[mv.from as int])) == -1
                ==> mv.to as int / self.w() <= mv.from as int / self.w(),
    {
        let c = m.core;
        self.lemma_gen_ok(c.cells, c.castling, c.ep, c.to_move, self.n());
        let live = self.live_moves(c.cells, c.castling, c.ep, c.to_move);
        lemma_sort_members(live);
        let i = choose|i: int| 0 <= i < self.moves(m).len() && self.moves(m)[i] == mv;
        let j = choose|j: int| 0 <= j < live.len() && live[j] == self.moves(m)[i];
        assert(apply_ok(c.cells, self.w(), self.n(), live[j].from as int, live[j].to as int));
    }

    pub proof fn lemma_moves_at_most(&self, m: FcModel)
        requires
            self.wf_rules(),
            self.valid(m),
        ensures
            self.moves(m).len() <= 400 * self.n(),
    {
        let c = m.core;
        self.lemma_gen_ok(c.cells, c.castling, c.ep, c.to_move, self.n());
        lemma_sort_len(self.live_moves(c.cells, c.castling, c.ep, c.to_move));
    }

    /// Decode a nonempty packed cell code.
    pub fn unpack_code(code: u8) -> (r: (Player, Piece, bool))
        requires
            1 <= code <= 24,
        ensures
            r == (code_owner(code), code_piece(code), code_reversed(code)),
    {
        unpack(code)
    }

    /// En-passant square of a state.
    pub fn ep_square(&self, state: &FcState) -> (r: Option<u16>)
        ensures
            r == self.model(state).core.ep,
    {
        state.core.ep
    }

    /// Castling rights of a state: white short, white long, black short,
    /// black long.
    pub fn castling_rights(&self, state: &FcState) -> (r: [bool; 4])
        ensures
            r@ == self.model(state).core.castling,
    {
        state.core.castling
    }

    /// Halfmove clock of a state.
    pub fn halfmove(&self, state: &FcState) -> (r: u16)
        ensures
            r == self.model(state).core.halfmove,
    {
        state.core.halfmove
    }

    /// Set the halfmove clock of a live position (below the fifty-move
    /// limit, so the cached outcome stays right).
    pub fn set_halfmove(&self, state: &mut FcState, halfmove: u16)
        requires
            halfmove < 100,
        ensures
            self.model(final(state)) == (FcModel {
                core: CoreModel { halfmove, ..self.model(old(state)).core },
                history: self.model(old(state)).history,
            }),
    {
        state.core.halfmove = halfmove;
    }

    /// The clock after a legal move from a live position: a pawn move (en
    /// passant included) or a capture, whose destination holds a piece,
    /// resets the halfmove clock to 0 and clears the repetition history;
    /// any other move adds one to the clock and appends the position's key
    /// to the history.
    pub proof fn lemma_move_clock(&self, m: FcModel, mv: FcMove)
        requires
            self.wf(),
            self.valid(m),
            self.result(m) is None,
            self.moves(m).contains(mv),
        ensures
            ({
                let m2 = self.next(m, mv);
                let resets = code_piece(m.core.cells[mv.from as int]) == Piece::Pawn
                    || m.core.cells[mv.to as int] != 0;
                &&& resets ==> m2.core.halfmove == 0 && m2.history == Seq::<u64>::empty()
                &&& !resets ==> m2.core.halfmove == m.core.halfmove + 1 && m2.history
                    == m.history.push(m.core.key)
            }),
    {
    }

    /// Is the side to move in check?
    pub fn in_check(&self, state: &FcState) -> (r: bool)
        requires
            self.wf_rules(),
            self.valid(self.model(state)),
        ensures
            r == in_check_spec(self.model(state).core.cells, self.w(), self.model(state).core.to_move),
    {
        self.king_in_check(&state.core.cells, state.core.to_move)
    }

    /// Ranks a natural pawn of `owner` on `cell` still has to advance
    /// before promotion.
    pub fn pawn_promotion_distance(&self, owner: Player, cell: u16) -> (d: u16)
        requires
            self.wf_rules(),
        ensures
            d == abs(cell as int / self.w() - last_rank(owner, self.h())),
    {
        let rank = cell / self.width;
        let last = match owner {
            Player::One => self.height - 1,
            Player::Two => 0,
        };
        if rank >= last {
            rank - last
        } else {
            last - rank
        }
    }

    /// Perspective cell: the board rotated 180 degrees for Black, so
    /// "forward" is always +rank.
    pub fn perspective_cell(&self, cell: u16, mover: Player) -> (r: u16)
        requires
            self.wf_rules(),
            (cell as int) < self.n(),
        ensures
            r == fc_perspective(self.n(), mover, cell as int),
    {
        match mover {
            Player::One => cell,
            Player::Two => self.cell_count() as u16 - 1 - cell,
        }
    }
}


/// ASCII letter of file `f`.
pub open spec fn file_letter(f: int) -> u8 {
    (97 + f) as u8
}

/// Upper-case letter of a piece kind.
pub open spec fn letter_of(p: Piece) -> u8 {
    match p {
        Piece::Pawn => 80,
        Piece::Knight => 78,
        Piece::Bishop => 66,
        Piece::Rook => 82,
        Piece::Queen => 81,
        Piece::King => 75,
    }
}

/// Name of a square, such as `b3`.
pub open spec fn square_text(w: int, cell: int) -> Seq<char> {
    seq![file_letter(cell % w) as char] + decimal((cell / w + 1) as nat)
}

/// Text of a move: `a2b3`, with `=Q` style suffix for promotions.
pub open spec fn move_text(w: int, mv: FcMove) -> Seq<char> {
    square_text(w, mv.from as int) + square_text(w, mv.to as int) + match mv.promotion {
        Some(p) => seq!['=', letter_of(p) as char],
        None => Seq::empty(),
    }
}

/// Three characters of one board cell: a piece letter (lower case for
/// Black) with `~` after a reversed piece, or ` . `.
pub open spec fn cell_text(code: u8) -> Seq<char> {
    if code == 0 {
        seq![' ', '.', ' ']
    } else {
        let letter = letter_of(code_piece(code));
        seq![' ', (if code_owner(code) == Player::Two { letter + 32 } else { letter as int }) as u8 as char, if code_reversed(code) { '~' } else { ' ' }]
    }
}

/// Cells of files `0..f` of `rank`.
pub open spec fn rank_cells(cells: Seq<u8>, w: int, rank: int, f: int) -> Seq<char>
    decreases f,
{
    if f <= 0 {
        Seq::empty()
    } else {
        rank_cells(cells, w, rank, f - 1) + cell_text(cells[rank * w + f - 1])
    }
}

/// Rank number right-aligned to two columns, then a space.
pub open spec fn rank_label(r: nat) -> Seq<char> {
    (if r < 10 { seq![' '] } else { Seq::empty() }) + decimal(r) + seq![' ']
}

/// The top `k` ranks, top rank first.
pub open spec fn board_lines(cells: Seq<u8>, w: int, h: int, k: int) -> Seq<char>
    decreases k,
{
    if k <= 0 {
        Seq::empty()
    } else {
        let rank = h - k;
        board_lines(cells, w, h, k - 1) + rank_label((rank + 1) as nat) + rank_cells(cells, w, rank, w) + seq!['\n']
    }
}

/// File letters of files `0..f`, each padded by spaces.
pub open spec fn files_line(f: int) -> Seq<char>
    decreases f,
{
    if f <= 0 {
        Seq::empty()
    } else {
        files_line(f - 1) + seq![' ', file_letter(f - 1) as char, ' ']
    }
}

/// Castling rights as `KQkq` letters, `-` when there are none.
pub open spec fn rights_text(c: Seq<bool>) -> Seq<char> {
    if !(c[0] || c[1] || c[2] || c[3]) {
        seq!['-']
    } else {
        (if c[0] { seq!['K'] } else { Seq::empty() }) + (if c[1] { seq!['Q'] } else { Seq::empty() })
            + (if c[2] { seq!['k'] } else { Seq::empty() }) + (if c[3] { seq!['q'] } else { Seq::empty() })
    }
}

/// The status line: side to move, castling rights, en-passant square
/// and halfmove clock.
pub open spec fn status_text(w: int, c: CoreModel) -> Seq<char> {
    (if c.to_move == Player::One { "White"@ } else { "Black"@ }) + " to move | castling "@ + rights_text(c.castling)
        + " | ep "@ + match c.ep {
        Some(e) => square_text(w, e as int),
        None => seq!['-'],
    } + " | halfmove "@ + decimal(c.halfmove as nat) + seq!['\n']
}

/// The ASCII board of a position core.
pub open spec fn board_text(w: int, h: int, c: CoreModel) -> Seq<char> {
    board_lines(c.cells, w, h, h) + seq![' ', ' ', ' '] + files_line(w) + seq!['\n'] + status_text(w, c)
}

impl ForwardChess {
    fn push_square(&self, s: &mut String, cell: u16)
        requires
            self.wf_rules(),
            (cell as int) < self.n(),
        ensures
            final(s)@ == old(s)@ + square_text(self.w(), cell as int),
    {
        proof {
            lemma_coords(self.w(), self.h(), cell as int);
        }
        push_ascii(s, 97 + (cell % self.width) as u8);
        push_decimal(s, (cell / self.width + 1) as u64);
        proof {
            assert(final(s)@ =~= old(s)@ + square_text(self.w(), cell as int));
        }
    }

    /// Name of a square, such as `b3`.
    fn square_name(&self, cell: u16) -> (name: String)
        requires
            self.wf_rules(),
            (cell as int) < self.n(),
        ensures
            name@ == square_text(self.w(), cell as int),
    {
        let mut s = String::new();
        self.push_square(&mut s, cell);
        s
    }

    /// "a2b3" / "a2b3=Q" text for a move (promotion letter upper-case).
    pub fn format_move(&self, mv: FcMove) -> (text: String)
        requires
            self.wf_rules(),
            (mv.from as int) < self.n(),
            (mv.to as int) < self.n(),
        ensures
            text@ == move_text(self.w(), mv),
    {
        let mut text = self.square_name(mv.from);
        self.push_square(&mut text, mv.to);
        match mv.promotion {
            Some(piece) => {
                push_ascii(&mut text, 61);
                push_ascii(&mut text, letter_byte(piece));
            },
            None => {},
        }
        proof {
            assert(text@ =~= move_text(self.w(), mv));
        }
        text
    }

    /// Append one rank line of the board.
    #[verifier::rlimit(60)]
    #[verifier::spinoff_prover]
    fn push_rank_line(&self, cells: &Vec<u8>, rank: u16, out: &mut String)
        requires
            self.wf_rules(),
            board_ok(cells@, self.n()),
            rank < self.height,
        ensures
            final(out)@ == old(out)@ + rank_label((rank + 1) as nat) + rank_cells(cells@, self.w(), rank as int, self.w()) + seq!['\n'],
    {
        let ghost w = self.w();
        let ghost before = out@;
        if rank + 1 < 10 {
            push_ascii(out, 32);
        }
        push_decimal(out, (rank + 1) as u64);
        push_ascii(out, 32);
        let ghost label = out@;
        assert(label =~= before + rank_label((rank + 1) as nat));
        let mut file: u16 = 0;
        while file < self.width
            invariant
                self.wf_rules(),
                board_ok(cells@, self.n()),
                w == self.w(),
                rank < self.height,
                file <= self.width,
                out@ == label + rank_cells(cells@, w, rank as int, file as int),
            decreases self.width - file,
        {
            let c = self.cell(file, rank);
            let code = cells[c as usize];
            if code == EMPTY {
                push_ascii(out, 32);
                push_ascii(out, 46);
                push_ascii(out, 32);
            } else {
                let (owner, piece, reversed) = unpack(code);
                let letter = letter_byte(piece);
                push_ascii(out, 32);
                if owner == Player::Two {
                    push_ascii(out, letter + 32);
                } else {
                    push_ascii(out, letter);
                }
                if reversed {
                    push_ascii(out, 126);
                } else {
                    push_ascii(out, 32);
                }
            }
            proof {
                assert(out@ =~= label + rank_cells(cells@, w, rank as int, file + 1));
            }
            file += 1;
        }
        push_ascii(out, 10);
    }

    #[verifier::rlimit(60)]
    #[verifier::spinoff_prover]
    fn push_rights(&self, castling: &[bool; 4], out: &mut String)
        ensures
            final(out)@ == old(out)@ + rights_text(castling@),
    {
        if !(castling[0] || castling[1] || castling[2] || castling[3]) {
            push_ascii(out, 45);
        } else {
            let ghost start = out@;
            if castling[0] {
                push_ascii(out, 75);
            }
            let ghost a = out@;
            if castling[1] {
                push_ascii(out, 81);
            }
            let ghost b = out@;
            if castling[2] {
                push_ascii(out, 107);
            }
            let ghost c = out@;
            if castling[3] {
                push_ascii(out, 113);
            }
            assert(out@ =~= start + rights_text(castling@));
        }
    }

    #[verifier::rlimit(60)]
    #[verifier::spinoff_prover]
    fn push_ep(&self, ep: Option<u16>, out: &mut String)
        requires
            self.wf_rules(),
            ep matches Some(e) ==> (e as int) < self.n(),
        ensures
            final(out)@ == old(out)@ + match ep {
                Some(e) => square_text(self.w(), e as int),
                None => seq!['-'],
            },
    {
        match ep {
            Some(e) => {
                self.push_square(out, e);
            },
            None => {
                push_ascii(out, 45);
            },
        }
    }

    /// Append the status line of a core.
    #[verifier::rlimit(60)]
    #[verifier::spinoff_prover]
    fn push_status(&self, core: &FcCore, out: &mut String)
        requires
            self.wf_rules(),
            core.castling@.len() == 4,
            core.ep matches Some(e) ==> (e as int) < self.n(),
        ensures
            final(out)@ == old(out)@ + status_text(self.w(), core_view(*core)),
    {
        let ghost start = out@;
        if core.to_move == Player::One {
            out.append("White");
        } else {
            out.append("Black");
        }
        let ghost s1 = out@;
        out.append(" to move | castling ");
        let ghost s2 = out@;
        self.push_rights(&core.castling, out);
        let ghost s3 = out@;
        out.append(" | ep ");
        let ghost s4 = out@;
        self.push_ep(core.ep, out);
        let ghost s5 = out@;
        out.append(" | halfmove ");
        let ghost s6 = out@;
        push_decimal(out, core.halfmove as u64);
        push_ascii(out, 10);
        proof {
            let c = core_view(*core);
            let side = if c.to_move == Player::One { "White"@ } else { "Black"@ };
            assert(s1 == start + side);
            assert(out@ =~= start + status_text(self.w(), c));
        }
    }

    /// ASCII board for interactive play: ranks top-down, upper-case
    /// White, lower-case Black, `~` marking reversed orientation, with
    /// side-to-move / castling / en-passant / halfmove annotations.
    #[verifier::rlimit(60)]
    #[verifier::spinoff_prover]
    pub fn render_ascii(&self, state: &FcState) -> (out: String)
        requires
            self.wf_rules(),
            self.valid(self.model(state)),
        ensures
            out@ == board_text(self.w(), self.h(), self.model(state).core),
    {
        let core = &state.core;
        let ghost cm = self.model(state).core;
        let ghost w = self.w();
        let ghost h = self.h();
        let mut out = String::new();
        let mut k: u16 = 0;
        while k < self.height
            invariant
                self.wf_rules(),
                board_ok(core.cells@, self.n()),
                cm.cells == core.cells@,
                w == self.w(),
                h == self.h(),
                k <= self.height,
                out@ == board_lines(cm.cells, w, h, k as int),
            decreases self.height - k,
        {
            let rank = self.height - 1 - k;
            self.push_rank_line(&core.cells, rank, &mut out);
            proof {
                assert(out@ =~= board_lines(cm.cells, w, h, k + 1));
            }
            k += 1;
        }
        push_ascii(&mut out, 32);
        push_ascii(&mut out, 32);
        push_ascii(&mut out, 32);
        let ghost spaces = out@;
        let mut file: u16 = 0;
        while file < self.width
            invariant
                self.wf_rules(),
                file <= self.width,
                out@ == spaces + files_line(file as int),
            decreases self.width - file,
        {
            push_ascii(&mut out, 32);
            push_ascii(&mut out, 97 + file as u8);
            push_ascii(&mut out, 32);
            proof {
                assert(out@ =~= spaces + files_line(file + 1));
            }
            file += 1;
        }
        push_ascii(&mut out, 10);
        self.push_status(core, &mut out);
        proof {
            assert(out@ =~= board_text(w, h, cm));
        }
        out
    }
}

fn letter_byte(p: Piece) -> (c: u8)
    ensures
        c == letter_of(p),
        printable(c),
        printable((c + 32) as u8),
{
    match p {
        Piece::Pawn => 80,
        Piece::Knight => 78,
        Piece::Bishop => 66,
        Piece::Rook => 82,
        Piece::Queen => 81,
        Piece::King => 75,
    }
}

} // verus!
