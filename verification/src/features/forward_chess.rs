//! Structured measurements for Forward Chess.
//!
//! Encoding conventions:
//! - Everything is a *difference* (mover − opponent) or a mover-side
//!   measurement, so one weight vector serves both sides.
//! - Square-indexed features use each piece **owner's** perspective cell
//!   (the board rotated 180° for Black), which makes extraction exactly
//!   invariant under the rotation colour swap.
//! - No feature asserts a strategic sign; fitting decides.

use crate::features::{
    indices_between, indices_ok, lemma_between_concat, lemma_between_ok, lemma_between_widen, FeatureEntry, FeatureExtractor, MoveFeatures,
};
use crate::game::{Game, Player};
use crate::games::forward_chess::{
    abs, apply_ok, apply_spec, attacked_upto, board_ok, code_owner, code_piece, code_reversed,
    fc_perspective, in_check_spec, last_rank, piece_index, FcMove, FcState, ForwardChess, Piece,
};
use crate::text::{decimal, push_decimal};
use vstd::prelude::*;

verus! {

/// Named, immutable feature recipes.
#[derive(Clone, Copy, Debug, PartialEq, Eq, Structural)]
pub enum FcRecipe {
    /// Level 0: piece-type/orientation count differences plus total
    /// material. 10 dimensions.
    FcCountsV0,
    /// Level 1: counts + attacked/defended + mobility + check +
    /// promotion distance + total material + piece-square tables per
    /// orientation.
    FcStructuredLinearV1,
}

impl FcRecipe {
    pub fn label(self) -> (s: &'static str)
        ensures
            s@ == match self {
                FcRecipe::FcCountsV0 => "fc_counts_v0"@,
                FcRecipe::FcStructuredLinearV1 => "fc_structured_linear_v1"@,
            },
    {
        match self {
            FcRecipe::FcCountsV0 => "fc_counts_v0",
            FcRecipe::FcStructuredLinearV1 => "fc_structured_linear_v1",
        }
    }
}

/// `(piece, reversed)` combinations that can occur in legal play: all
/// six natural pieces (combos 0-5 in piece order), and the four reversed
/// promotion choices knight, bishop, rook, queen (combos 6-9).
pub open spec fn combo_ok(code: u8) -> bool {
    &&& 1 <= code <= 24
    &&& code_reversed(code) ==> code_piece(code) != Piece::Pawn && code_piece(code) != Piece::King
}

/// The combo of an occupied cell code.
pub open spec fn combo_of(code: u8) -> int {
    if !code_reversed(code) {
        piece_index(code_piece(code))
    } else {
        piece_index(code_piece(code)) + 5
    }
}

/// Name of a combo, such as `Knight-nat` or `Rook-rev`.
pub open spec fn combo_name(c: int) -> Seq<char> {
    if c == 0 {
        "Pawn-nat"@
    } else if c == 1 {
        "Knight-nat"@
    } else if c == 2 {
        "Bishop-nat"@
    } else if c == 3 {
        "Rook-nat"@
    } else if c == 4 {
        "Queen-nat"@
    } else if c == 5 {
        "King-nat"@
    } else if c == 6 {
        "Knight-rev"@
    } else if c == 7 {
        "Bishop-rev"@
    } else if c == 8 {
        "Rook-rev"@
    } else {
        "Queen-rev"@
    }
}

fn combo_index(code: u8) -> (c: u32)
    requires
        combo_ok(code),
    ensures
        c == combo_of(code),
        c < 10,
{
    let (_, piece, reversed) = ForwardChess::unpack_code(code);
    let p: u32 = match piece {
        Piece::Pawn => 0,
        Piece::Knight => 1,
        Piece::Bishop => 2,
        Piece::Rook => 3,
        Piece::Queen => 4,
        Piece::King => 5,
    };
    if reversed {
        p + 5
    } else {
        p
    }
}

fn combo_text(c: u32) -> (s: String)
    ensures
        s@ == combo_name(c as int),
{
    if c == 0 {
        String::from_str("Pawn-nat")
    } else if c == 1 {
        String::from_str("Knight-nat")
    } else if c == 2 {
        String::from_str("Bishop-nat")
    } else if c == 3 {
        String::from_str("Rook-nat")
    } else if c == 4 {
        String::from_str("Queen-nat")
    } else if c == 5 {
        String::from_str("King-nat")
    } else if c == 6 {
        String::from_str("Knight-rev")
    } else if c == 7 {
        String::from_str("Bishop-rev")
    } else if c == 8 {
        String::from_str("Rook-rev")
    } else {
        String::from_str("Queen-rev")
    }
}

/// State-action (move) measurements for ordering. Search-history inputs
/// (TT move, killers) are not features: the TT-move-first rule already
/// applies on top of any evaluator ordering.
pub struct FcMoveFeatures {
    width: u16,
    height: u16,
    cells_scratch: Vec<u8>,
}

// Move-feature index layout (dimension 35).
/// Moving piece combo: indices 0..10.
pub const MF_MOVING: u32 = 0;
/// Captured piece combo: indices 10..20.
pub const MF_CAPTURED: u32 = 10;
pub const MF_IS_CAPTURE: u32 = 20;
/// Promotion choice N, B, R, Q: indices 21..25.
pub const MF_PROMO_CHOICE: u32 = 21;
pub const MF_IS_PROMO: u32 = 25;
pub const MF_GIVES_CHECK: u32 = 26;
pub const MF_FORWARD_DISP: u32 = 27;
pub const MF_HORIZONTAL: u32 = 28;
pub const MF_DEST_ATTACKED: u32 = 29;
pub const MF_DEST_DEFENDED: u32 = 30;
pub const MF_SOURCE_ATTACKED: u32 = 31;
pub const MF_DEST_REL_RANK: u32 = 32;
pub const MF_IS_CASTLE: u32 = 33;
pub const MF_IS_EP: u32 = 34;

pub const MOVE_FEATURE_DIMENSION: usize = 35;

/// Slot of a promotion choice: knight, bishop, rook, queen.
pub open spec fn promo_slot(p: Piece) -> int {
    match p {
        Piece::Knight => 0,
        Piece::Bishop => 1,
        Piece::Rook => 2,
        _ => 3,
    }
}

/// A one-entry list when `b` holds.
pub open spec fn entry_if(b: bool, index: u32, value: i32) -> Seq<FeatureEntry> {
    if b {
        seq![(index, value)]
    } else {
        Seq::empty()
    }
}

/// Is the move on `cells` (with en-passant square `ep`) an en-passant
/// capture?
pub open spec fn is_ep_capture(cells: Seq<u8>, ep: Option<u16>, mv: FcMove) -> bool {
    code_piece(cells[mv.from as int]) == Piece::Pawn && ep == Some(mv.to) && cells[mv.to as int] == 0
}

/// The capture entries: victim combo and the capture flag.
pub open spec fn capture_entries(cells: Seq<u8>, ep: Option<u16>, mv: FcMove) -> Seq<FeatureEntry> {
    let victim = cells[mv.to as int];
    let is_ep = is_ep_capture(cells, ep, mv);
    if victim != 0 || is_ep {
        let combo = if is_ep {
            0
        } else {
            combo_of(victim)
        };
        seq![((MF_CAPTURED + combo) as u32, 1i32), (MF_IS_CAPTURE, 1i32)]
    } else {
        Seq::empty()
    }
}

/// The promotion entries: choice slot and the promotion flag.
pub open spec fn promotion_entries(mv: FcMove) -> Seq<FeatureEntry> {
    match mv.promotion {
        Some(p) => seq![((MF_PROMO_CHOICE + promo_slot(p)) as u32, 1i32), (MF_IS_PROMO, 1i32)],
        None => Seq::empty(),
    }
}

/// Ranks the move advances in the mover's forward direction.
pub open spec fn forward_displacement(w: int, mover: Player, mv: FcMove) -> int {
    let delta = mv.to as int / w - mv.from as int / w;
    if mover == Player::One {
        delta
    } else {
        -delta
    }
}

/// Destination rank counted from the mover's first rank.
pub open spec fn relative_rank(w: int, h: int, mover: Player, mv: FcMove) -> int {
    if mover == Player::One {
        mv.to as int / w
    } else {
        h - 1 - mv.to as int / w
    }
}

/// The attack entries of a move: destination attacked, destination
/// defended, source attacked.
pub open spec fn attack_entries(cells: Seq<u8>, w: int, mover: Player, mv: FcMove) -> Seq<FeatureEntry> {
    let n = cells.len() as int;
    entry_if(attacked_upto(cells, w, mv.to as int, mover.other(), n), MF_DEST_ATTACKED, 1) + entry_if(
        attacked_upto(cells, w, mv.to as int, mover, n),
        MF_DEST_DEFENDED,
        1,
    ) + entry_if(attacked_upto(cells, w, mv.from as int, mover.other(), n), MF_SOURCE_ATTACKED, 1)
}

/// The shape entries of a move: destination relative rank, castle, en
/// passant.
pub open spec fn shape_entries(cells: Seq<u8>, w: int, h: int, mover: Player, ep: Option<u16>, mv: FcMove) -> Seq<
    FeatureEntry,
> {
    let from = mv.from as int;
    let to = mv.to as int;
    let rel = relative_rank(w, h, mover, mv);
    entry_if(rel != 0, MF_DEST_REL_RANK, rel as i32) + entry_if(
        code_piece(cells[from]) == Piece::King && abs(to % w - from % w) == 2,
        MF_IS_CASTLE,
        1,
    ) + entry_if(is_ep_capture(cells, ep, mv), MF_IS_EP, 1)
}

/// The geometric and attack entries of a move: forward displacement or
/// the horizontal flag, the attack entries, the shape entries.
pub open spec fn tail_entries(cells: Seq<u8>, w: int, h: int, mover: Player, ep: Option<u16>, mv: FcMove) -> Seq<
    FeatureEntry,
> {
    let disp = forward_displacement(w, mover, mv);
    (if disp != 0 {
        seq![(MF_FORWARD_DISP, disp as i32)]
    } else {
        seq![(MF_HORIZONTAL, 1i32)]
    }) + attack_entries(cells, w, mover, mv) + shape_entries(cells, w, h, mover, ep, mv)
}

/// The features of `mv` from the mover's perspective, in index order of
/// their families: moving combo; captured combo and capture flag;
/// promotion choice and flag; gives check (the opponent's king attacked
/// after the move, discovered checks included); then the geometric and
/// attack entries.
pub open spec fn move_features(cells: Seq<u8>, w: int, h: int, mover: Player, ep: Option<u16>, mv: FcMove) -> Seq<
    FeatureEntry,
> {
    let after = apply_spec(cells, w, ep, mv).0;
    seq![((MF_MOVING + combo_of(cells[mv.from as int])) as u32, 1i32)] + capture_entries(cells, ep, mv)
        + promotion_entries(mv) + entry_if(in_check_spec(after, w, mover.other()), MF_GIVES_CHECK, 1)
        + tail_entries(cells, w, h, mover, ep, mv)
}

/// Name of a move-feature index.
pub open spec fn move_feature_name(index: u32) -> Seq<char> {
    if index < MF_CAPTURED {
        "moving/"@ + combo_name(index - MF_MOVING)
    } else if index < MF_IS_CAPTURE {
        "captured/"@ + combo_name(index - MF_CAPTURED)
    } else if index == MF_IS_CAPTURE {
        "is_capture"@
    } else if index < MF_IS_PROMO {
        "promo_choice/"@ + if index == 21 {
            "N"@
        } else if index == 22 {
            "B"@
        } else if index == 23 {
            "R"@
        } else {
            "Q"@
        }
    } else if index == MF_IS_PROMO {
        "is_promotion"@
    } else if index == MF_GIVES_CHECK {
        "gives_check"@
    } else if index == MF_FORWARD_DISP {
        "forward_displacement"@
    } else if index == MF_HORIZONTAL {
        "is_horizontal"@
    } else if index == MF_DEST_ATTACKED {
        "dest_attacked"@
    } else if index == MF_DEST_DEFENDED {
        "dest_defended"@
    } else if index == MF_SOURCE_ATTACKED {
        "source_attacked"@
    } else if index == MF_DEST_REL_RANK {
        "dest_relative_rank"@
    } else if index == MF_IS_CASTLE {
        "is_castle"@
    } else if index == MF_IS_EP {
        "is_en_passant"@
    } else {
        "unknown/"@ + decimal(index as nat)
    }
}

impl FcMoveFeatures {
    pub closed spec fn spec_width(&self) -> int {
        self.width as int
    }

    pub closed spec fn spec_height(&self) -> int {
        self.height as int
    }

    pub fn new(game: &ForwardChess) -> (f: FcMoveFeatures)
        ensures
            f.spec_width() == game.w(),
            f.spec_height() == game.h(),
    {
        FcMoveFeatures { width: game.width(), height: game.height(), cells_scratch: Vec::new() }
    }

    pub fn dimension(&self) -> (d: usize)
        ensures
            d == MOVE_FEATURE_DIMENSION,
    {
        MOVE_FEATURE_DIMENSION
    }

    /// Clear `out` and append the move's features, mover perspective.
    /// The moving piece, and a captured piece, must be of a combination
    /// that occurs in play, and a promotion must choose knight, bishop,
    /// rook or queen.
    #[verifier::rlimit(60)]
    #[verifier::spinoff_prover]
    pub fn extract(&mut self, game: &ForwardChess, state: &FcState, mv: FcMove, out: &mut Vec<FeatureEntry>)
        requires
            game.wf_rules(),
            game.valid(game.model(state)),
            old(self).spec_width() == game.w(),
            old(self).spec_height() == game.h(),
            apply_ok(game.model(state).core.cells, game.w(), game.n(), mv.from as int, mv.to as int),
            combo_ok(game.model(state).core.cells[mv.from as int]),
            game.model(state).core.cells[mv.to as int] != 0 ==> combo_ok(game.model(state).core.cells[mv.to as int]),
            mv.promotion matches Some(p) ==> p != Piece::Pawn && p != Piece::King,
        ensures
            final(self).spec_width() == old(self).spec_width(),
            final(self).spec_height() == old(self).spec_height(),
            final(out)@ == move_features(
                game.model(state).core.cells,
                game.w(),
                game.h(),
                game.model(state).core.to_move,
                game.model(state).core.ep,
                mv,
            ),
    {
        proof {
            game.lemma_valid_board(game.model(state));
        }
        let ghost core = game.model(state).core;
        let ghost w = game.w();
        let ghost h = game.h();
        let width = self.width;
        let height = self.height;
        out.clear();
        let cells = game.state_cells(state);
        let mover = game.side_to_move(state);
        let opponent = mover.opponent();
        let code = cells[mv.from as usize];
        let (_, piece, _) = ForwardChess::unpack_code(code);
        out.push((MF_MOVING + combo_index(code), 1));
        let ghost part1 = out@;
        let ep = game.ep_square(state);
        let victim = cells[mv.to as usize];
        let is_ep = piece == Piece::Pawn && ep == Some(mv.to) && victim == 0;
        if victim != 0 || is_ep {
            let combo = if is_ep {
                0
            } else {
                combo_index(victim)
            };
            out.push((MF_CAPTURED + combo, 1));
            out.push((MF_IS_CAPTURE, 1));
        }
        assert(out@ =~= part1 + capture_entries(core.cells, core.ep, mv));
        let ghost part2 = out@;
        match mv.promotion {
            Some(promoted) => {
                let slot: u32 = match promoted {
                    Piece::Knight => 0,
                    Piece::Bishop => 1,
                    Piece::Rook => 2,
                    _ => 3,
                };
                out.push((MF_PROMO_CHOICE + slot, 1));
                out.push((MF_IS_PROMO, 1));
            },
            None => {},
        }
        assert(out@ =~= part2 + promotion_entries(mv));
        let ghost part3 = out@;
        // Direct + discovered check: apply the move to a scratch board
        // and test whether the opponent's king is attacked.
        if self.gives_check(game, cells, ep, mv, opponent) {
            out.push((MF_GIVES_CHECK, 1));
        }
        assert(out@ =~= part3 + entry_if(
            in_check_spec(apply_spec(core.cells, w, core.ep, mv).0, w, mover.other()),
            MF_GIVES_CHECK,
            1,
        ));
        self.push_tail(game, cells, mover, ep, mv, out);
        assert(out@ =~= move_features(core.cells, w, h, core.to_move, core.ep, mv));
    }

    /// Does `mv` leave `victim`'s king attacked?
    fn gives_check(&mut self, game: &ForwardChess, cells: &Vec<u8>, ep: Option<u16>, mv: FcMove, victim: Player) -> (r: bool)
        requires
            game.wf_rules(),
            3 <= game.w() <= 8,
            board_ok(cells@, game.n()),
            apply_ok(cells@, game.w(), game.n(), mv.from as int, mv.to as int),
        ensures
            final(self).spec_width() == old(self).spec_width(),
            final(self).spec_height() == old(self).spec_height(),
            r == in_check_spec(apply_spec(cells@, game.w(), ep, mv).0, game.w(), victim),
    {
        let ghost w0 = self.width;
        let ghost h0 = self.height;
        self.cells_scratch.clear();
        let mut i: usize = 0;
        while i < cells.len()
            invariant
                self.width == w0,
                self.height == h0,
                i <= cells@.len(),
                self.cells_scratch@ == cells@.take(i as int),
            decreases cells@.len() - i,
        {
            self.cells_scratch.push(cells[i]);
            proof {
                assert(self.cells_scratch@ =~= cells@.take(i + 1));
            }
            i += 1;
        }
        assert(self.cells_scratch@ =~= cells@);
        game.apply_to_cells(&mut self.cells_scratch, ep, mv);
        game.king_in_check(&self.cells_scratch, victim)
    }

    /// Append the geometric and attack entries of a move.
    fn push_tail(&self, game: &ForwardChess, cells: &Vec<u8>, mover: Player, ep: Option<u16>, mv: FcMove, out: &mut Vec<FeatureEntry>)
        requires
            game.wf_rules(),
            self.spec_width() == game.w(),
            self.spec_height() == game.h(),
            3 <= game.w() <= 8,
            4 <= game.h() <= 8,
            board_ok(cells@, game.n()),
            apply_ok(cells@, game.w(), game.n(), mv.from as int, mv.to as int),
            combo_ok(cells@[mv.from as int]),
        ensures
            final(out)@ == old(out)@ + tail_entries(cells@, game.w(), game.h(), mover, ep, mv),
    {
        let ghost w = game.w();
        let ghost start = out@;
        let from_rank = (mv.from / self.width) as i32;
        let to_rank = (mv.to / self.width) as i32;
        let disp = if mover == Player::One {
            to_rank - from_rank
        } else {
            from_rank - to_rank
        };
        if disp != 0 {
            out.push((MF_FORWARD_DISP, disp));
        } else {
            out.push((MF_HORIZONTAL, 1));
        }
        let ghost part = out@;
        assert(part =~= start + (if forward_displacement(w, mover, mv) != 0 {
            seq![(MF_FORWARD_DISP, forward_displacement(w, mover, mv) as i32)]
        } else {
            seq![(MF_HORIZONTAL, 1i32)]
        }));
        Self::push_attacks(game, cells, mover, mv, out);
        self.push_shape(game, cells, mover, ep, mv, to_rank, out);
    }

    fn push_attacks(game: &ForwardChess, cells: &Vec<u8>, mover: Player, mv: FcMove, out: &mut Vec<FeatureEntry>)
        requires
            game.wf_rules(),
            board_ok(cells@, game.n()),
            apply_ok(cells@, game.w(), game.n(), mv.from as int, mv.to as int),
        ensures
            final(out)@ == old(out)@ + attack_entries(cells@, game.w(), mover, mv),
    {
        let ghost start = out@;
        let opponent = mover.opponent();
        let a = game.cell_attacked_by(cells, mv.to, opponent);
        let d = game.cell_attacked_by(cells, mv.to, mover);
        let s = game.cell_attacked_by(cells, mv.from, opponent);
        if a {
            out.push((MF_DEST_ATTACKED, 1));
        }
        if d {
            out.push((MF_DEST_DEFENDED, 1));
        }
        if s {
            out.push((MF_SOURCE_ATTACKED, 1));
        }
        assert(out@ =~= start + entry_if(a, MF_DEST_ATTACKED, 1) + entry_if(d, MF_DEST_DEFENDED, 1)
            + entry_if(s, MF_SOURCE_ATTACKED, 1));
    }

    fn push_shape(&self, game: &ForwardChess, cells: &Vec<u8>, mover: Player, ep: Option<u16>, mv: FcMove, to_rank: i32, out: &mut Vec<FeatureEntry>)
        requires
            game.wf_rules(),
            self.spec_width() == game.w(),
            self.spec_height() == game.h(),
            3 <= game.w() <= 8,
            4 <= game.h() <= 8,
            board_ok(cells@, game.n()),
            apply_ok(cells@, game.w(), game.n(), mv.from as int, mv.to as int),
            combo_ok(cells@[mv.from as int]),
            to_rank == mv.to as int / game.w(),
        ensures
            final(out)@ == old(out)@ + shape_entries(cells@, game.w(), game.h(), mover, ep, mv),
    {
        let ghost w = game.w();
        let ghost h = game.h();
        let ghost start = out@;
        let (_, piece, _) = ForwardChess::unpack_code(cells[mv.from as usize]);
        let rel_rank = if mover == Player::One {
            to_rank
        } else {
            self.height as i32 - 1 - to_rank
        };
        let r = rel_rank != 0;
        if r {
            out.push((MF_DEST_REL_RANK, rel_rank));
        }
        let ff = (mv.from % self.width) as i32;
        let tf = (mv.to % self.width) as i32;
        let c = piece == Piece::King && (tf - ff == 2 || ff - tf == 2);
        if c {
            out.push((MF_IS_CASTLE, 1));
        }
        let e = piece == Piece::Pawn && ep == Some(mv.to) && cells[mv.to as usize] == 0;
        if e {
            out.push((MF_IS_EP, 1));
        }
        assert(out@ =~= start + entry_if(r, MF_DEST_REL_RANK, rel_rank) + entry_if(c, MF_IS_CASTLE, 1)
            + entry_if(e, MF_IS_EP, 1));
    }

    /// Stable, human-readable name of a feature index.
    pub fn feature_name(index: u32) -> (s: String)
        ensures
            s@ == move_feature_name(index),
    {
        if index < MF_CAPTURED {
            let mut s = String::from_str("moving/");
            let c = combo_text(index - MF_MOVING);
            s.append(c.as_str());
            s
        } else if index < MF_IS_CAPTURE {
            let mut s = String::from_str("captured/");
            let c = combo_text(index - MF_CAPTURED);
            s.append(c.as_str());
            s
        } else if index == MF_IS_CAPTURE {
            String::from_str("is_capture")
        } else if index < MF_IS_PROMO {
            let mut s = String::from_str("promo_choice/");
            if index == 21 {
                s.append("N");
            } else if index == 22 {
                s.append("B");
            } else if index == 23 {
                s.append("R");
            } else {
                s.append("Q");
            }
            s
        } else if index == MF_IS_PROMO {
            String::from_str("is_promotion")
        } else if index == MF_GIVES_CHECK {
            String::from_str("gives_check")
        } else if index == MF_FORWARD_DISP {
            String::from_str("forward_displacement")
        } else if index == MF_HORIZONTAL {
            String::from_str("is_horizontal")
        } else if index == MF_DEST_ATTACKED {
            String::from_str("dest_attacked")
        } else if index == MF_DEST_DEFENDED {
            String::from_str("dest_defended")
        } else if index == MF_SOURCE_ATTACKED {
            String::from_str("source_attacked")
        } else if index == MF_DEST_REL_RANK {
            String::from_str("dest_relative_rank")
        } else if index == MF_IS_CASTLE {
            String::from_str("is_castle")
        } else if index == MF_IS_EP {
            String::from_str("is_en_passant")
        } else {
            let mut s = String::from_str("unknown/");
            push_decimal(&mut s, index as u64);
            s
        }
    }
}

/// Count-difference slots: every combo except the natural king.
pub const COUNT_SLOTS: usize = 9;

/// Sign of a piece of `owner` seen from `mover`'s side.
pub open spec fn sign_of(owner: Player, mover: Player) -> int {
    if owner == mover {
        1
    } else {
        -1
    }
}

/// Count-difference slot of a combo; `-1` for the natural king, whose
/// difference is identically zero while both kings live.
pub open spec fn count_slot(combo: int) -> int {
    if combo == 5 {
        -1
    } else if combo < 5 {
        combo
    } else {
        combo - 1
    }
}

/// Mover-minus-opponent count of the combos in count slot `slot` among
/// cells `0..i`.
pub open spec fn count_diff(cells: Seq<u8>, mover: Player, slot: int, i: int) -> int
    decreases i,
{
    if i <= 0 {
        0
    } else {
        count_diff(cells, mover, slot, i - 1) + if cells[i - 1] != 0 && count_slot(combo_of(cells[i - 1]))
            == slot {
            sign_of(code_owner(cells[i - 1]), mover)
        } else {
            0
        }
    }
}

/// Attacked pieces of kind `p` among cells `0..i`: an opponent piece
/// attacked by the mover counts +1, a mover piece attacked by the
/// opponent -1.
pub open spec fn attacked_diff(cells: Seq<u8>, w: int, mover: Player, p: int, i: int) -> int
    decreases i,
{
    if i <= 0 {
        0
    } else {
        attacked_diff(cells, w, mover, p, i - 1) + if cells[i - 1] != 0 && piece_index(
            code_piece(cells[i - 1]),
        ) == p && attacked_upto(cells, w, i - 1, code_owner(cells[i - 1]).other(), cells.len() as int) {
            -sign_of(code_owner(cells[i - 1]), mover)
        } else {
            0
        }
    }
}

/// Mover-minus-opponent count of non-king pieces among cells `0..i`
/// defended by their own side.
pub open spec fn defended_diff(cells: Seq<u8>, w: int, mover: Player, i: int) -> int
    decreases i,
{
    if i <= 0 {
        0
    } else {
        defended_diff(cells, w, mover, i - 1) + if cells[i - 1] != 0 && code_piece(cells[i - 1])
            != Piece::King && attacked_upto(cells, w, i - 1, code_owner(cells[i - 1]), cells.len() as int) {
            sign_of(code_owner(cells[i - 1]), mover)
        } else {
            0
        }
    }
}

/// Mover-minus-opponent count of natural pawns among cells `0..i` that
/// are `slot + 1` ranks short of promotion.
pub open spec fn promo_diff(cells: Seq<u8>, w: int, h: int, mover: Player, slot: int, i: int) -> int
    decreases i,
{
    if i <= 0 {
        0
    } else {
        promo_diff(cells, w, h, mover, slot, i - 1) + if cells[i - 1] != 0 && code_piece(cells[i - 1])
            == Piece::Pawn && !code_reversed(cells[i - 1]) && abs(
            (i - 1) / w - last_rank(code_owner(cells[i - 1]), h),
        ) - 1 == slot {
            sign_of(code_owner(cells[i - 1]), mover)
        } else {
            0
        }
    }
}

/// Number of non-king pieces among cells `0..i`, both sides.
pub open spec fn material_total(cells: Seq<u8>, i: int) -> int
    decreases i,
{
    if i <= 0 {
        0
    } else {
        material_total(cells, i - 1) + if cells[i - 1] != 0 && code_piece(cells[i - 1]) != Piece::King {
            1int
        } else {
            0int
        }
    }
}

/// Piece-square slot of the piece on `cell`: its combo's table, at the
/// cell seen from its owner's side.
pub open spec fn psq_slot(cells: Seq<u8>, cell: int) -> int {
    combo_of(cells[cell]) * cells.len() + fc_perspective(cells.len() as int, code_owner(cells[cell]), cell)
}

/// Mover-minus-opponent count of pieces among cells `0..i` in
/// piece-square slot `k`.
pub open spec fn psq_diff(cells: Seq<u8>, mover: Player, k: int, i: int) -> int
    decreases i,
{
    if i <= 0 {
        0
    } else {
        psq_diff(cells, mover, k, i - 1) + if cells[i - 1] != 0 && psq_slot(cells, i - 1) == k {
            sign_of(code_owner(cells[i - 1]), mover)
        } else {
            0
        }
    }
}

/// Entries `(base + j, f(j))` for `j < k` with `f(j) != 0`, in order.
pub open spec fn nonzero_entries(base: int, f: spec_fn(int) -> int, k: int) -> Seq<FeatureEntry>
    decreases k,
{
    if k <= 0 {
        Seq::empty()
    } else {
        nonzero_entries(base, f, k - 1) + entry_if(f(k - 1) != 0, (base + k - 1) as u32, f(k - 1) as i32)
    }
}

pub open spec fn counts_of(cells: Seq<u8>, mover: Player) -> spec_fn(int) -> int {
    |s: int| count_diff(cells, mover, s, cells.len() as int)
}

pub open spec fn attacked_of(cells: Seq<u8>, w: int, mover: Player) -> spec_fn(int) -> int {
    |p: int| attacked_diff(cells, w, mover, p, cells.len() as int)
}

pub open spec fn promo_of(cells: Seq<u8>, w: int, h: int, mover: Player) -> spec_fn(int) -> int {
    |s: int| promo_diff(cells, w, h, mover, s, cells.len() as int)
}

pub open spec fn psq_of(cells: Seq<u8>, mover: Player) -> spec_fn(int) -> int {
    |k: int| psq_diff(cells, mover, k, cells.len() as int)
}

/// The structured features of a board with `mover` to play, `mobility`
/// legal moves and `check` telling whether the mover is in check. Layout:
/// count differences (slots 0-8); with the full recipe, attacked
/// differences by piece kind (9-14), defended difference (15), mobility
/// (16), in check (17) and promotion-distance differences (from 18, one
/// slot per distance 1 ..= height - 2); then total material; then, with
/// the full recipe, piece-square differences (one table of `n` cells per
/// combo, after material). Zero values are left out.
pub open spec fn structured_features(
    cells: Seq<u8>,
    w: int,
    h: int,
    mover: Player,
    full: bool,
    mobility: int,
    check: bool,
) -> Seq<FeatureEntry> {
    let n = cells.len() as int;
    let material_idx = if full {
        18 + (h - 2)
    } else {
        9
    };
    let material = material_total(cells, n);
    let defended = defended_diff(cells, w, mover, n);
    nonzero_entries(0, counts_of(cells, mover), 9) + (if full {
        nonzero_entries(9, attacked_of(cells, w, mover), 6) + entry_if(defended != 0, 15, defended as i32)
            + seq![(16u32, mobility as i32)] + entry_if(check, 17, 1) + nonzero_entries(
            18,
            promo_of(cells, w, h, mover),
            h - 2,
        )
    } else {
        Seq::empty()
    }) + entry_if(material != 0, material_idx as u32, material as i32) + (if full {
        nonzero_entries(material_idx + 1, psq_of(cells, mover), 10 * n)
    } else {
        Seq::empty()
    })
}

/// The boards a structured extraction reads: every piece is of a
/// combination that occurs in play, and no natural pawn stands on its
/// last rank.
pub open spec fn extractable(cells: Seq<u8>, w: int, h: int) -> bool {
    forall|c: int|
        0 <= c < cells.len() && #[trigger] cells[c] != 0 ==> {
            &&& combo_ok(cells[c])
            &&& code_piece(cells[c]) == Piece::Pawn && !code_reversed(cells[c]) ==> c / w != last_rank(
                code_owner(cells[c]),
                h,
            )
        }
}

/// Structured feature extractor for Forward Chess.
pub struct FcExtractor {
    recipe: FcRecipe,
    /// Promotion-distance slots: d = 1 ..= height-2.
    promo_slots: usize,
    cells: usize,
    moves_buf: Vec<FcMove>,
}

fn sign(owner: Player, mover: Player) -> (s: i32)
    ensures
        s == sign_of(owner, mover),
{
    if owner == mover {
        1
    } else {
        -1
    }
}

/// Append `(base + j, values[j])` for `j < k` with nonzero values.
fn push_nonzero(out: &mut Vec<FeatureEntry>, base: u32, values: &Vec<i32>, k: usize, Ghost(f): Ghost<spec_fn(int) -> int>)
    requires
        k <= values@.len(),
        base + k <= u32::MAX,
        forall|j: int| 0 <= j < k ==> values@[j] == f(j),
    ensures
        final(out)@ == old(out)@ + nonzero_entries(base as int, f, k as int),
{
    let ghost start = out@;
    let mut j: usize = 0;
    while j < k
        invariant
            j <= k,
            k <= values@.len(),
            base + k <= u32::MAX,
            forall|j: int| 0 <= j < k ==> values@[j] == f(j),
            out@ == start + nonzero_entries(base as int, f, j as int),
        decreases k - j,
    {
        if values[j] != 0 {
            out.push((base + j as u32, values[j]));
        }
        proof {
            assert(out@ =~= start + nonzero_entries(base as int, f, j + 1));
        }
        j += 1;
    }
}

impl FcExtractor {
    pub closed spec fn spec_recipe(&self) -> FcRecipe {
        self.recipe
    }

    /// Promotion-distance slots (one per distance 1 ..= height - 2).
    pub closed spec fn spec_promo_slots(&self) -> int {
        self.promo_slots as int
    }

    /// Board cells.
    pub closed spec fn spec_cells(&self) -> int {
        self.cells as int
    }

    /// The extractor was built for `game`'s board.
    pub open spec fn fits(&self, game: &ForwardChess) -> bool {
        &&& self.spec_promo_slots() == game.h() - 2
        &&& self.spec_cells() == game.n()
    }

    pub fn new(game: &ForwardChess, recipe: FcRecipe) -> (e: FcExtractor)
        requires
            game.wf_rules(),
        ensures
            e.fits(game),
            e.spec_recipe() == recipe,
    {
        proof {
            game.lemma_rules_dims();
        }
        FcExtractor {
            recipe,
            promo_slots: game.height() as usize - 2,
            cells: game.cell_count() as usize,
            moves_buf: Vec::new(),
        }
    }

    pub fn recipe(&self) -> (r: FcRecipe)
        ensures
            r == self.spec_recipe(),
    {
        self.recipe
    }

    /// First count-difference index.
    pub fn idx_counts(&self) -> (i: usize)
        ensures
            i == 0,
    {
        0
    }

    /// First attacked-difference index.
    pub fn idx_attacked(&self) -> (i: usize)
        ensures
            i == 9,
    {
        COUNT_SLOTS
    }

    pub fn idx_defended(&self) -> (i: usize)
        ensures
            i == 15,
    {
        self.idx_attacked() + 6
    }

    pub fn idx_mobility(&self) -> (i: usize)
        ensures
            i == 16,
    {
        self.idx_defended() + 1
    }

    pub fn idx_check(&self) -> (i: usize)
        ensures
            i == 17,
    {
        self.idx_mobility() + 1
    }

    /// First promotion-distance index (distance 1).
    pub fn idx_promo(&self) -> (i: usize)
        ensures
            i == 18,
    {
        self.idx_check() + 1
    }

    /// First piece-square index.
    pub fn idx_psq(&self) -> (i: usize)
        requires
            self.spec_promo_slots() <= 6,
        ensures
            i == if self.spec_recipe() == FcRecipe::FcStructuredLinearV1 {
                19 + self.spec_promo_slots()
            } else {
                10
            },
    {
        self.idx_material() + 1
    }

    /// Total-material index.
    pub fn idx_material(&self) -> (i: usize)
        requires
            self.spec_promo_slots() <= 6,
        ensures
            i == if self.spec_recipe() == FcRecipe::FcStructuredLinearV1 {
                18 + self.spec_promo_slots()
            } else {
                9
            },
    {
        match self.recipe {
            FcRecipe::FcCountsV0 => COUNT_SLOTS,
            FcRecipe::FcStructuredLinearV1 => self.idx_promo() + self.promo_slots,
        }
    }

    /// Total dimension of the feature space.
    pub fn dimension(&self) -> (d: usize)
        requires
            self.spec_promo_slots() <= 6,
            self.spec_cells() <= 64,
        ensures
            d == match self.spec_recipe() {
                FcRecipe::FcCountsV0 => 10,
                FcRecipe::FcStructuredLinearV1 => 19 + self.spec_promo_slots() + 10 * self.spec_cells(),
            },
    {
        match self.recipe {
            FcRecipe::FcCountsV0 => COUNT_SLOTS + 1,
            FcRecipe::FcStructuredLinearV1 => self.idx_material() + 1 + 10 * self.cells,
        }
    }
}

impl FcExtractor {
    /// Count differences by count slot.
    fn count_diffs(cells: &Vec<u8>, mover: Player) -> (v: Vec<i32>)
        requires
            cells@.len() <= 64,
            forall|c: int| 0 <= c < cells@.len() && #[trigger] cells@[c] != 0 ==> combo_ok(cells@[c]),
        ensures
            v@.len() == 9,
            forall|s: int| 0 <= s < 9 ==> #[trigger] v@[s] == count_diff(cells@, mover, s, cells@.len() as int),
    {
        let mut v: Vec<i32> = vec![0, 0, 0, 0, 0, 0, 0, 0, 0];
        let n = cells.len();
        let mut c: usize = 0;
        while c < n
            invariant
                n == cells@.len(),
                n <= 64,
                c <= n,
                forall|c: int| 0 <= c < cells@.len() && #[trigger] cells@[c] != 0 ==> combo_ok(cells@[c]),
                v@.len() == 9,
                forall|s: int| 0 <= s < 9 ==> #[trigger] v@[s] == count_diff(cells@, mover, s, c as int),
                forall|s: int| 0 <= s < 9 ==> -(c as int) <= #[trigger] v@[s] <= c,
            decreases n - c,
        {
            let code = cells[c];
            if code != 0 {
                let (owner, _, _) = ForwardChess::unpack_code(code);
                let combo = combo_index(code);
                if combo != 5 {
                    let slot: usize = if combo < 5 {
                        combo as usize
                    } else {
                        combo as usize - 1
                    };
                    let x = v[slot] + sign(owner, mover);
                    v.set(slot, x);
                }
            }
            c += 1;
        }
        v
    }

    /// Attacked differences by piece kind, and the defended difference.
    fn attack_diffs(game: &ForwardChess, cells: &Vec<u8>, mover: Player) -> (r: (Vec<i32>, i32))
        requires
            game.wf_rules(),
            board_ok(cells@, game.n()),
            game.n() <= 64,
        ensures
            r.0@.len() == 6,
            forall|p: int| 0 <= p < 6 ==> #[trigger] r.0@[p] == attacked_diff(cells@, game.w(), mover, p, cells@.len() as int),
            r.1 == defended_diff(cells@, game.w(), mover, cells@.len() as int),
    {
        let ghost w = game.w();
        let mut v: Vec<i32> = vec![0, 0, 0, 0, 0, 0];
        let mut defended: i32 = 0;
        let n = cells.len();
        let mut c: usize = 0;
        while c < n
            invariant
                game.wf_rules(),
                board_ok(cells@, game.n()),
                w == game.w(),
                n == cells@.len(),
                n <= 64,
                c <= n,
                v@.len() == 6,
                forall|p: int| 0 <= p < 6 ==> #[trigger] v@[p] == attacked_diff(cells@, w, mover, p, c as int),
                forall|p: int| 0 <= p < 6 ==> -(c as int) <= #[trigger] v@[p] <= c,
                defended == defended_diff(cells@, w, mover, c as int),
                -(c as int) <= defended <= c,
            decreases n - c,
        {
            let code = cells[c];
            if code != 0 {
                let (owner, piece, _) = ForwardChess::unpack_code(code);
                let sg = sign(owner, mover);
                if game.cell_attacked_by(cells, c as u16, owner.opponent()) {
                    let p: usize = match piece {
                        Piece::Pawn => 0,
                        Piece::Knight => 1,
                        Piece::Bishop => 2,
                        Piece::Rook => 3,
                        Piece::Queen => 4,
                        Piece::King => 5,
                    };
                    let x = v[p] - sg;
                    v.set(p, x);
                }
                if piece != Piece::King && game.cell_attacked_by(cells, c as u16, owner) {
                    defended = defended + sg;
                }
            }
            c += 1;
        }
        (v, defended)
    }

    /// Promotion-distance differences for distances `1 ..= slots`.
    fn promo_diffs(game: &ForwardChess, cells: &Vec<u8>, mover: Player, slots: usize) -> (v: Vec<i32>)
        requires
            game.wf_rules(),
            board_ok(cells@, game.n()),
            game.n() <= 64,
            slots <= 6,
            extractable(cells@, game.w(), game.h()),
        ensures
            v@.len() == slots,
            forall|s: int| 0 <= s < slots ==> #[trigger] v@[s] == promo_diff(cells@, game.w(), game.h(), mover, s, cells@.len() as int),
    {
        let ghost w = game.w();
        let ghost h = game.h();
        let mut v: Vec<i32> = Vec::new();
        let mut k: usize = 0;
        while k < slots
            invariant
                k <= slots,
                v@ =~= Seq::new(k as nat, |j: int| 0i32),
            decreases slots - k,
        {
            v.push(0);
            k += 1;
        }
        let n = cells.len();
        let mut c: usize = 0;
        while c < n
            invariant
                game.wf_rules(),
                board_ok(cells@, game.n()),
                extractable(cells@, w, h),
                w == game.w(),
                h == game.h(),
                n == cells@.len(),
                n <= 64,
                c <= n,
                v@.len() == slots,
                forall|s: int| 0 <= s < slots ==> #[trigger] v@[s] == promo_diff(cells@, w, h, mover, s, c as int),
                forall|s: int| 0 <= s < slots ==> -(c as int) <= #[trigger] v@[s] <= c,
            decreases n - c,
        {
            let code = cells[c];
            if code != 0 {
                let (owner, piece, reversed) = ForwardChess::unpack_code(code);
                if piece == Piece::Pawn && !reversed {
                    let d = game.pawn_promotion_distance(owner, c as u16) as usize;
                    assert(cells@[c as int] != 0);
                    if d - 1 < slots {
                        let x = v[d - 1] + sign(owner, mover);
                        v.set(d - 1, x);
                    }
                }
            }
            c += 1;
        }
        v
    }

    /// Number of non-king pieces.
    fn material(cells: &Vec<u8>) -> (m: i32)
        requires
            cells@.len() <= 64,
            forall|c: int| 0 <= c < cells@.len() && #[trigger] cells@[c] != 0 ==> combo_ok(cells@[c]),
        ensures
            m == material_total(cells@, cells@.len() as int),
    {
        let n = cells.len();
        let mut m: i32 = 0;
        let mut c: usize = 0;
        while c < n
            invariant
                n == cells@.len(),
                n <= 64,
                c <= n,
                forall|c: int| 0 <= c < cells@.len() && #[trigger] cells@[c] != 0 ==> combo_ok(cells@[c]),
                m == material_total(cells@, c as int),
                0 <= m <= c,
            decreases n - c,
        {
            let code = cells[c];
            if code != 0 {
                let (_, piece, _) = ForwardChess::unpack_code(code);
                if piece != Piece::King {
                    m = m + 1;
                }
            }
            c += 1;
        }
        m
    }

    /// Piece-square differences over all `10 n` slots.
    fn psq_diffs(game: &ForwardChess, cells: &Vec<u8>, mover: Player) -> (v: Vec<i32>)
        requires
            game.wf_rules(),
            board_ok(cells@, game.n()),
            game.n() <= 64,
            forall|c: int| 0 <= c < cells@.len() && #[trigger] cells@[c] != 0 ==> combo_ok(cells@[c]),
        ensures
            v@.len() == 10 * cells@.len(),
            forall|k: int| 0 <= k < 10 * cells@.len() ==> #[trigger] v@[k] == psq_diff(cells@, mover, k, cells@.len() as int),
    {
        let n = cells.len();
        let mut v: Vec<i32> = Vec::new();
        let mut k: usize = 0;
        while k < 10 * n
            invariant
                n == cells@.len(),
                n <= 64,
                k <= 10 * n,
                v@ =~= Seq::new(k as nat, |j: int| 0i32),
            decreases 10 * n - k,
        {
            v.push(0);
            k += 1;
        }
        let mut c: usize = 0;
        while c < n
            invariant
                game.wf_rules(),
                board_ok(cells@, game.n()),
                n == cells@.len(),
                n == game.n(),
                n <= 64,
                c <= n,
                forall|c: int| 0 <= c < cells@.len() && #[trigger] cells@[c] != 0 ==> combo_ok(cells@[c]),
                v@.len() == 10 * n,
                forall|k: int| 0 <= k < 10 * n ==> #[trigger] v@[k] == psq_diff(cells@, mover, k, c as int),
                forall|k: int| 0 <= k < 10 * n ==> -(c as int) <= #[trigger] v@[k] <= c,
            decreases n - c,
        {
            let code = cells[c];
            if code != 0 {
                let (owner, _, _) = ForwardChess::unpack_code(code);
                let combo = combo_index(code) as usize;
                let rel = game.perspective_cell(c as u16, owner) as usize;
                assert(combo * n + rel < 10 * n) by (nonlinear_arith)
                    requires
                        combo <= 9,
                        rel < n,
                ;
                let slot = combo * n + rel;
                assert(slot as int == psq_slot(cells@, c as int));
                let x = v[slot] + sign(owner, mover);
                v.set(slot, x);
            }
            c += 1;
        }
        v
    }

    /// Clear `out` and append the active features of the position, side
    /// to move perspective. Indices are unique, ascending and below
    /// `dimension()`.
    #[verifier::rlimit(80)]
    #[verifier::spinoff_prover]
    pub fn extract(&mut self, game: &ForwardChess, state: &FcState, out: &mut Vec<FeatureEntry>)
        requires
            game.wf_rules(),
            game.valid(game.model(state)),
            old(self).fits(game),
            extractable(game.model(state).core.cells, game.w(), game.h()),
        ensures
            final(self).fits(game),
            final(self).spec_recipe() == old(self).spec_recipe(),
            final(out)@ == structured_features(
                game.model(state).core.cells,
                game.w(),
                game.h(),
                game.model(state).core.to_move,
                old(self).spec_recipe() == FcRecipe::FcStructuredLinearV1,
                game.moves(game.model(state)).len() as int,
                in_check_spec(game.model(state).core.cells, game.w(), game.model(state).core.to_move),
            ),
    {
        let ghost m = game.model(state);
        proof {
            game.lemma_valid_board(m);
            game.lemma_moves_at_most(m);
        }
        let ghost w = game.w();
        let ghost h = game.h();
        out.clear();
        let full = match self.recipe {
            FcRecipe::FcCountsV0 => false,
            FcRecipe::FcStructuredLinearV1 => true,
        };
        let mover = game.side_to_move(state);
        let cells = game.state_cells(state);
        let ghost cs = cells@;
        let counts = Self::count_diffs(cells, mover);
        push_nonzero(out, 0, &counts, COUNT_SLOTS, Ghost(counts_of(cs, mover)));
        let ghost after_counts = out@;
        let ghost mid: Seq<FeatureEntry> = Seq::empty();
        if full {
            let (attacked, defended) = Self::attack_diffs(game, cells, mover);
            push_nonzero(out, 9, &attacked, 6, Ghost(attacked_of(cs, w, mover)));
            if defended != 0 {
                out.push((15, defended));
            }
            game.legal_moves(state, &mut self.moves_buf);
            out.push((16, self.moves_buf.len() as i32));
            if game.in_check(state) {
                out.push((17, 1));
            }
            let promo = Self::promo_diffs(game, cells, mover, self.promo_slots);
            push_nonzero(out, 18, &promo, self.promo_slots, Ghost(promo_of(cs, w, h, mover)));
            proof {
                mid = out@.subrange(after_counts.len() as int, out@.len() as int);
                assert(out@ =~= after_counts + mid);
            }
        }
        let ghost after_mid = out@;
        let material = Self::material(cells);
        let material_idx = self.idx_material();
        if material != 0 {
            out.push((material_idx as u32, material));
        }
        if full {
            let psq = Self::psq_diffs(game, cells, mover);
            push_nonzero(out, (material_idx + 1) as u32, &psq, 10 * self.cells, Ghost(psq_of(cs, mover)));
        }
        assert(out@ =~= structured_features(
            cs,
            w,
            h,
            m.core.to_move,
            full,
            game.moves(m).len() as int,
            in_check_spec(cs, w, m.core.to_move),
        ));
    }
}

/// The combo whose count lands in count slot `slot`.
pub open spec fn slot_combo(slot: int) -> int {
    if slot < 5 {
        slot
    } else {
        slot + 1
    }
}

/// Name of a structured feature index, for the recipe (`full` for the
/// structured-linear one), `ps` promotion slots and `cells` board cells.
pub open spec fn structured_feature_name(full: bool, ps: int, cells: int, index: int) -> Seq<char> {
    let material_idx = 18 + ps;
    if index < 9 {
        "count_diff/"@ + combo_name(slot_combo(index))
    } else if !full {
        "material_total"@
    } else if index < 15 {
        "attacked_diff/"@ + combo_name(index - 9)
    } else if index == 15 {
        "defended_diff"@
    } else if index == 16 {
        "mover_mobility"@
    } else if index == 17 {
        "mover_in_check"@
    } else if index < material_idx {
        "promo_dist_diff/d"@ + decimal((index - 18 + 1) as nat)
    } else if index == material_idx {
        "material_total"@
    } else {
        let rest = index - material_idx - 1;
        "psq_diff/"@ + combo_name(rest / cells) + "/r"@ + decimal((rest % cells) as nat)
    }
}

impl FcExtractor {
    /// Stable, human-readable name of a feature index below the
    /// dimension.
    pub fn feature_name(&self, index: u32) -> (s: String)
        requires
            self.spec_promo_slots() <= 6,
            1 <= self.spec_cells() <= 64,
            index < 19 + self.spec_promo_slots() + 10 * self.spec_cells(),
        ensures
            s@ == structured_feature_name(
                self.spec_recipe() == FcRecipe::FcStructuredLinearV1,
                self.spec_promo_slots(),
                self.spec_cells(),
                index as int,
            ),
    {
        let full = match self.recipe {
            FcRecipe::FcCountsV0 => false,
            FcRecipe::FcStructuredLinearV1 => true,
        };
        let material_idx = 18 + self.promo_slots as u32;
        if index < 9 {
            let combo = if index < 5 {
                index
            } else {
                index + 1
            };
            let mut s = String::from_str("count_diff/");
            let c = combo_text(combo);
            s.append(c.as_str());
            return s;
        }
        if !full {
            return String::from_str("material_total");
        }
        if index < 15 {
            let mut s = String::from_str("attacked_diff/");
            let c = combo_text(index - 9);
            s.append(c.as_str());
            return s;
        }
        if index == 15 {
            return String::from_str("defended_diff");
        }
        if index == 16 {
            return String::from_str("mover_mobility");
        }
        if index == 17 {
            return String::from_str("mover_in_check");
        }
        if index < material_idx {
            let mut s = String::from_str("promo_dist_diff/d");
            push_decimal(&mut s, (index - 18 + 1) as u64);
            return s;
        }
        if index == material_idx {
            return String::from_str("material_total");
        }
        let rest = index - material_idx - 1;
        let cells = self.cells as u32;
        let mut s = String::from_str("psq_diff/");
        let c = combo_text(rest / cells);
        s.append(c.as_str());
        s.append("/r");
        push_decimal(&mut s, (rest % cells) as u64);
        s
    }
}


proof fn lemma_nonzero_between(base: int, f: spec_fn(int) -> int, k: int)
    requires
        0 <= base,
        0 <= k,
        base + k <= 0xffff_ffff,
    ensures
        indices_between(nonzero_entries(base, f, k), base, base + k),
    decreases k,
{
    if k > 0 {
        lemma_nonzero_between(base, f, k - 1);
        lemma_between_concat(
            nonzero_entries(base, f, k - 1),
            entry_if(f(k - 1) != 0, (base + k - 1) as u32, f(k - 1) as i32),
            base,
            base + k - 1,
            base + k,
        );
    }
}

proof fn lemma_one_between(c: bool, index: u32, v: i32)
    ensures
        indices_between(entry_if(c, index, v), index as int, index + 1),
        indices_between(seq![(index, v)], index as int, index + 1),
{
}

/// Structured features have unique indices below the recipe's dimension.
proof fn lemma_structured_indices(cells: Seq<u8>, w: int, h: int, mover: Player, full: bool, mobility: int, check: bool)
    requires
        cells.len() <= 64,
        2 <= h <= 8,
    ensures
        indices_between(
            structured_features(cells, w, h, mover, full, mobility, check),
            0,
            if full {
                19 + (h - 2) + 10 * cells.len()
            } else {
                10
            },
        ),
{
    let n = cells.len() as int;
    let material_idx = if full {
        18 + (h - 2)
    } else {
        9
    };
    let material = material_total(cells, n);
    let defended = defended_diff(cells, w, mover, n);
    let a = nonzero_entries(0, counts_of(cells, mover), 9);
    lemma_nonzero_between(0, counts_of(cells, mover), 9);
    let mid = if full {
        nonzero_entries(9, attacked_of(cells, w, mover), 6) + entry_if(defended != 0, 15, defended as i32)
            + seq![(16u32, mobility as i32)] + entry_if(check, 17, 1) + nonzero_entries(
            18,
            promo_of(cells, w, h, mover),
            h - 2,
        )
    } else {
        Seq::empty()
    };
    if full {
        let m1 = nonzero_entries(9, attacked_of(cells, w, mover), 6);
        lemma_nonzero_between(9, attacked_of(cells, w, mover), 6);
        lemma_one_between(defended != 0, 15, defended as i32);
        lemma_one_between(check, 17, 1);
        lemma_one_between(true, 16, mobility as i32);
        lemma_nonzero_between(18, promo_of(cells, w, h, mover), h - 2);
        let m2 = entry_if(defended != 0, 15, defended as i32);
        let m3 = seq![(16u32, mobility as i32)];
        let m4 = entry_if(check, 17, 1);
        let m5 = nonzero_entries(18, promo_of(cells, w, h, mover), h - 2);
        lemma_between_concat(m1, m2, 9, 15, 16);
        lemma_between_concat(m1 + m2, m3, 9, 16, 17);
        lemma_between_concat(m1 + m2 + m3, m4, 9, 17, 18);
        lemma_between_concat(m1 + m2 + m3 + m4, m5, 9, 18, 16 + h);
        lemma_between_concat(a, mid, 0, 9, 16 + h);
    } else {
        assert(indices_between(mid, 9, 9));
        lemma_between_concat(a, mid, 0, 9, 9);
    }
    let mat = entry_if(material != 0, material_idx as u32, material as i32);
    lemma_one_between(material != 0, material_idx as u32, material as i32);
    lemma_between_concat(a + mid, mat, 0, material_idx, material_idx + 1);
    let tail = if full {
        nonzero_entries(material_idx + 1, psq_of(cells, mover), 10 * n)
    } else {
        Seq::empty()
    };
    if full {
        lemma_nonzero_between(material_idx + 1, psq_of(cells, mover), 10 * n);
    }
    lemma_between_concat(a + mid + mat, tail, 0, material_idx + 1, if full {
        material_idx + 1 + 10 * n
    } else {
        material_idx + 1
    });
}

impl FeatureExtractor<ForwardChess> for FcExtractor {
    open spec fn extractor_wf(&self) -> bool {
        &&& self.spec_promo_slots() <= 6
        &&& 1 <= self.spec_cells() <= 64
    }

    open spec fn spec_dimension(&self) -> int {
        match self.spec_recipe() {
            FcRecipe::FcCountsV0 => 10,
            FcRecipe::FcStructuredLinearV1 => 19 + self.spec_promo_slots() + 10 * self.spec_cells(),
        }
    }

    open spec fn measures(&self, game: &ForwardChess, state: &FcState) -> bool {
        &&& game.wf_rules()
        &&& game.valid(game.model(state))
        &&& self.fits(game)
        &&& extractable(game.model(state).core.cells, game.w(), game.h())
    }

    fn dimension(&self) -> (d: usize) {
        FcExtractor::dimension(self)
    }

    fn extract(&mut self, game: &ForwardChess, state: &FcState, out: &mut Vec<FeatureEntry>) {
        FcExtractor::extract(self, game, state, out);
        proof {
            let m = game.model(state);
            game.lemma_valid_board(m);
            game.lemma_rules_dims();
            lemma_structured_indices(
                m.core.cells,
                game.w(),
                game.h(),
                m.core.to_move,
                old(self).spec_recipe() == FcRecipe::FcStructuredLinearV1,
                game.moves(m).len() as int,
                in_check_spec(m.core.cells, game.w(), m.core.to_move),
            );
            lemma_between_ok(out@, old(self).spec_dimension());
        }
    }

    fn feature_name(&self, index: u32) -> (s: String) {
        FcExtractor::feature_name(self, index)
    }
}

proof fn lemma_three_between(c1: bool, i1: u32, v1: i32, c2: bool, i2: u32, v2: i32, c3: bool, i3: u32, v3: i32)
    requires
        i1 < i2 < i3,
    ensures
        indices_between(entry_if(c1, i1, v1) + entry_if(c2, i2, v2) + entry_if(c3, i3, v3), i1 as int, i3 + 1),
{
    lemma_one_between(c1, i1, v1);
    lemma_one_between(c2, i2, v2);
    lemma_one_between(c3, i3, v3);
    lemma_between_concat(entry_if(c1, i1, v1), entry_if(c2, i2, v2), i1 as int, i2 as int, i2 + 1);
    lemma_between_concat(entry_if(c1, i1, v1) + entry_if(c2, i2, v2), entry_if(c3, i3, v3), i1 as int, i3 as int, i3 + 1);
}

/// Move features have unique indices below the move-feature dimension.
proof fn lemma_move_feature_indices(cells: Seq<u8>, w: int, h: int, mover: Player, ep: Option<u16>, mv: FcMove)
    requires
        0 <= mv.from < cells.len(),
        0 <= mv.to < cells.len(),
        combo_ok(cells[mv.from as int]),
        cells[mv.to as int] != 0 ==> combo_ok(cells[mv.to as int]),
    ensures
        indices_between(move_features(cells, w, h, mover, ep, mv), 0, MOVE_FEATURE_DIMENSION as int),
{
    let after = apply_spec(cells, w, ep, mv).0;
    let first = seq![((MF_MOVING + combo_of(cells[mv.from as int])) as u32, 1i32)];
    assert(indices_between(first, 0, 10));
    let cap = capture_entries(cells, ep, mv);
    assert(indices_between(cap, 10, 21));
    let promo = promotion_entries(mv);
    assert(indices_between(promo, 21, 26));
    let chk = entry_if(in_check_spec(after, w, mover.other()), MF_GIVES_CHECK, 1);
    lemma_one_between(in_check_spec(after, w, mover.other()), MF_GIVES_CHECK, 1);
    let disp = forward_displacement(w, mover, mv);
    let d = if disp != 0 {
        seq![(MF_FORWARD_DISP, disp as i32)]
    } else {
        seq![(MF_HORIZONTAL, 1i32)]
    };
    assert(indices_between(d, 27, 29));
    let n = cells.len() as int;
    let att = attack_entries(cells, w, mover, mv);
    lemma_three_between(
        attacked_upto(cells, w, mv.to as int, mover.other(), n),
        MF_DEST_ATTACKED,
        1,
        attacked_upto(cells, w, mv.to as int, mover, n),
        MF_DEST_DEFENDED,
        1,
        attacked_upto(cells, w, mv.from as int, mover.other(), n),
        MF_SOURCE_ATTACKED,
        1,
    );
    let shape = shape_entries(cells, w, h, mover, ep, mv);
    let rel = relative_rank(w, h, mover, mv);
    lemma_three_between(
        rel != 0,
        MF_DEST_REL_RANK,
        rel as i32,
        code_piece(cells[mv.from as int]) == Piece::King && abs(mv.to as int % w - mv.from as int % w) == 2,
        MF_IS_CASTLE,
        1,
        is_ep_capture(cells, ep, mv),
        MF_IS_EP,
        1,
    );
    lemma_between_concat(d, att, 27, 29, 32);
    lemma_between_concat(d + att, shape, 27, 32, 35);
    assert(tail_entries(cells, w, h, mover, ep, mv) == d + att + shape);
    lemma_between_concat(first, cap, 0, 10, 21);
    lemma_between_concat(first + cap, promo, 0, 21, 26);
    lemma_between_concat(first + cap + promo, chk, 0, 26, 27);
    lemma_between_concat(first + cap + promo + chk, d + att + shape, 0, 27, 35);
}

impl MoveFeatures<ForwardChess> for FcMoveFeatures {
    open spec fn spec_dimension(&self) -> int {
        MOVE_FEATURE_DIMENSION as int
    }

    open spec fn measures(&self, game: &ForwardChess, state: &FcState, mv: FcMove) -> bool {
        &&& game.wf_rules()
        &&& game.valid(game.model(state))
        &&& self.spec_width() == game.w()
        &&& self.spec_height() == game.h()
        &&& apply_ok(game.model(state).core.cells, game.w(), game.n(), mv.from as int, mv.to as int)
        &&& combo_ok(game.model(state).core.cells[mv.from as int])
        &&& game.model(state).core.cells[mv.to as int] != 0 ==> combo_ok(game.model(state).core.cells[mv.to as int])
        &&& mv.promotion matches Some(p) ==> p != Piece::Pawn && p != Piece::King
    }

    fn dimension(&self) -> (d: usize) {
        FcMoveFeatures::dimension(self)
    }

    fn extract(&mut self, game: &ForwardChess, state: &FcState, mv: FcMove, out: &mut Vec<FeatureEntry>) {
        FcMoveFeatures::extract(self, game, state, mv, out);
        proof {
            let m = game.model(state);
            game.lemma_valid_board(m);
            lemma_move_feature_indices(m.core.cells, game.w(), game.h(), m.core.to_move, m.core.ep, mv);
            lemma_between_ok(out@, MOVE_FEATURE_DIMENSION as int);
        }
    }

    fn feature_name(&self, index: u32) -> (s: String) {
        FcMoveFeatures::feature_name(index)
    }
}
} // verus!
