//! Parameterized Othello (Reversi) on a `width` x `height` board, both
//! even and at least 4.
//!
//! A placement must bracket at least one contiguous line of opponent
//! discs (in any of the 8 directions) between the new disc and an own
//! disc; every bracketed line flips. A player with no legal placement
//! must pass — the pass is an explicit move, so turns still alternate.
//! The game ends when neither player has a placement (including a full
//! board); the side with more discs wins, equal discs draw.
//!
//! Passes never repeat positions: two consecutive passes would mean the
//! game is over, so the pass move is only legal while the opponent still
//! has a placement, and discs are otherwise only added.
//!
//! Features encode board occupancy from the side to move's perspective
//! only.
//!
//! Cells are indexed `cell = y * width + x`.

use crate::game::{ActionId, FeatureId, Game, Outcome, Player};
use crate::games::breakthrough::placed;
use crate::games::connect_k::occupancy_features;
use crate::games::grid::{
    cell_code, code_of, count_cells, count_code, lemma_cell_coords, lemma_cell_index,
    lemma_count_code_bounds, lemma_count_code_pos, lemma_count_code_update, lemma_zfold_update,
    run, run_len, run_measure, unit_step, zfold, zobrist_fold, zterm,
};
use crate::text::{decimal, push_decimal, text_number_text};
use crate::zobrist::chacha12_u64s;
use vstd::prelude::*;

verus! {

/// Fixed seed for Zobrist key generation so position keys are stable
/// across processes and runs.
const ZOBRIST_SEED: u64 = 0x07e1_1006_0a11_5eed;

const EMPTY: u8 = 0;

/// Rules object for one Othello parameterization.
pub struct Othello {
    width: u16,
    height: u16,
    /// `zobrist[2 * cell + code - 1]`
    zobrist: Vec<u64>,
    zobrist_side: u64,
}

/// A move: place a disc on a cell, or pass (only legal when no placement
/// exists).
#[derive(Clone, Copy, PartialEq, Eq, PartialOrd, Ord, Debug, Structural)]
pub enum OthelloMove {
    Place(u16),
    Pass,
}

/// Board state. `cells[cell]` is `0` (empty), `1` (Player One) or
/// `2` (Player Two).
#[derive(Clone, PartialEq, Eq, Debug)]
pub struct OthelloState {
    cells: Vec<u8>,
    to_move: Player,
    key: u64,
    discs: [u16; 2],
    outcome: Option<Outcome>,
}

/// Undo record: the flipped cells (restored to the opponent) plus the
/// previous cached outcome.
pub struct OthelloUndo {
    flipped: Vec<u16>,
    prev_outcome: Option<Outcome>,
}

/// Mathematical view of an Othello state.
#[verifier::ext_equal]
pub struct OthelloModel {
    pub cells: Seq<u8>,
    pub to_move: Player,
    pub key: u64,
    pub discs: (nat, nat),
    pub outcome: Option<Outcome>,
}

/// Mathematical view of an undo record.
#[verifier::ext_equal]
pub struct OthelloUndoModel {
    pub flipped: Seq<u16>,
    pub prev_outcome: Option<Outcome>,
}

/// `k` steps along an axis whose step is `d` (`-1`, `0` or `1`).
pub open spec fn scale(k: int, d: int) -> int {
    if d > 0 {
        k
    } else if d < 0 {
        -k
    } else {
        0
    }
}

/// File step of direction `d`; the eight directions are, in order,
/// (-1,-1) (0,-1) (1,-1) (-1,0) (1,0) (-1,1) (0,1) (1,1).
pub open spec fn dir_dx(d: int) -> int {
    if d == 0 || d == 3 || d == 5 {
        -1
    } else if d == 1 || d == 6 {
        0
    } else {
        1
    }
}

/// Rank step of direction `d`.
pub open spec fn dir_dy(d: int) -> int {
    if d <= 2 {
        -1
    } else if d <= 4 {
        0
    } else {
        1
    }
}

/// Number of opponent discs that a disc of `p` placed on `cell` brackets
/// in direction `d`: the run of opponent discs next to the cell, if an
/// own disc follows it on the board; otherwise 0.
pub open spec fn bracket_len(cells: Seq<u8>, w: int, h: int, cell: int, d: int, p: Player) -> nat {
    let x = cell % w;
    let y = cell / w;
    let dx = dir_dx(d);
    let dy = dir_dy(d);
    let n = run_len(cells, w, h, x + dx, y + dy, dx, dy, cell_code(p.other()));
    let ex = x + scale(n + 1int, dx);
    let ey = y + scale(n + 1int, dy);
    if n > 0 && 0 <= ex < w && 0 <= ey < h && cells[ey * w + ex] == cell_code(p) {
        n
    } else {
        0
    }
}

/// Some direction among the first `d` brackets opponent discs.
pub open spec fn any_bracket(cells: Seq<u8>, w: int, h: int, cell: int, p: Player, d: int) -> bool
    decreases d,
{
    if d <= 0 {
        false
    } else {
        any_bracket(cells, w, h, cell, p, d - 1) || bracket_len(cells, w, h, cell, d - 1, p) > 0
    }
}

/// A disc of `p` on `cell` would flip something.
pub open spec fn legal_at(cells: Seq<u8>, w: int, h: int, cell: int, p: Player) -> bool {
    any_bracket(cells, w, h, cell, p, 8)
}

/// Legal placements of `p` among cells `0..i`, in cell order.
pub open spec fn place_moves(cells: Seq<u8>, w: int, h: int, p: Player, i: int) -> Seq<OthelloMove>
    decreases i,
{
    if i <= 0 {
        Seq::empty()
    } else {
        let prev = place_moves(cells, w, h, p, i - 1);
        if cells[i - 1] == 0 && legal_at(cells, w, h, i - 1, p) {
            prev.push(OthelloMove::Place((i - 1) as u16))
        } else {
            prev
        }
    }
}

/// The first `k` cells outward from `(x, y)` in direction `(dx, dy)`.
pub open spec fn ray_cells(w: int, x: int, y: int, dx: int, dy: int, k: nat) -> Seq<u16> {
    Seq::new(k, |j: int| ((y + scale(j + 1, dy)) * w + x + scale(j + 1, dx)) as u16)
}

/// Cells a disc of `p` on `cell` flips in directions `0..d`, direction by
/// direction, each ray outward from the cell.
pub open spec fn flips_upto(cells: Seq<u8>, w: int, h: int, cell: int, p: Player, d: int) -> Seq<u16>
    decreases d,
{
    if d <= 0 {
        Seq::empty()
    } else {
        flips_upto(cells, w, h, cell, p, d - 1) + ray_cells(
            w,
            cell % w,
            cell / w,
            dir_dx(d - 1),
            dir_dy(d - 1),
            bracket_len(cells, w, h, cell, d - 1, p),
        )
    }
}

/// `cells` with each listed cell set to `code`, in list order.
pub open spec fn paint(cells: Seq<u8>, fs: Seq<u16>, code: u8) -> Seq<u8>
    decreases fs.len(),
{
    if fs.len() == 0 {
        cells
    } else {
        paint(cells, fs.drop_last(), code).update(fs.last() as int, code)
    }
}

/// `i` is one of the listed cells.
pub open spec fn listed(fs: Seq<u16>, i: int) -> bool {
    exists|j: int| 0 <= j < fs.len() && fs[j] as int == i
}

/// Result by disc count: more discs win, equal discs draw.
pub open spec fn disc_outcome(ones: nat, twos: nat) -> Outcome {
    if ones > twos {
        Outcome::Win(Player::One)
    } else if ones < twos {
        Outcome::Win(Player::Two)
    } else {
        Outcome::Draw
    }
}

/// The four starting discs around the centre: the first player's on the
/// anti-diagonal.
pub open spec fn start_cells(w: int, h: int) -> Seq<u8> {
    let cx = w / 2;
    let cy = h / 2;
    Seq::new(
        (w * h) as nat,
        |c: int|
            if c == cy * w + cx - 1 || c == (cy - 1) * w + cx {
                1u8
            } else if c == (cy - 1) * w + cx - 1 || c == cy * w + cx {
                2u8
            } else {
                0u8
            },
    )
}

/// The message for the first of the first `k` listed discs that is out
/// of bounds or lands on an occupied cell, if any.
pub open spec fn disc_error(discs: Seq<(u16, Player)>, n: nat, k: int) -> Option<Seq<char>>
    decreases k,
{
    if k <= 0 {
        None
    } else {
        match disc_error(discs, n, k - 1) {
            Some(e) => Some(e),
            None => {
                let cell = discs[k - 1].0;
                if cell >= n {
                    Some("cell "@ + decimal(cell as nat) + " out of bounds"@)
                } else if placed(discs, n, k - 1)[cell as int] != 0 {
                    Some("cell "@ + decimal(cell as nat) + " occupied twice"@)
                } else {
                    None
                }
            },
        }
    }
}

/// Cells of the run `run_len(.., x0, y0, ..)` are on the board and hold
/// `o`.
proof fn lemma_run_at(
    cells: Seq<u8>,
    w: int,
    h: int,
    x0: int,
    y0: int,
    dx: int,
    dy: int,
    o: u8,
    j: int,
)
    requires
        unit_step(dx, dy),
        0 <= j < run_len(cells, w, h, x0, y0, dx, dy, o),
    ensures
        0 <= x0 + scale(j, dx) < w,
        0 <= y0 + scale(j, dy) < h,
        cells[(y0 + scale(j, dy)) * w + x0 + scale(j, dx)] == o,
    decreases j,
{
    if j > 0 {
        lemma_run_at(cells, w, h, x0 + dx, y0 + dy, dx, dy, o, j - 1);
    }
}

proof fn lemma_any_bracket(cells: Seq<u8>, w: int, h: int, cell: int, p: Player, d: int)
    requires
        0 <= d,
    ensures
        any_bracket(cells, w, h, cell, p, d) <==> exists|e: int|
            0 <= e < d && #[trigger] bracket_len(cells, w, h, cell, e, p) > 0,
    decreases d,
{
    if d > 0 {
        lemma_any_bracket(cells, w, h, cell, p, d - 1);
        if bracket_len(cells, w, h, cell, d - 1, p) > 0 {
            assert(0 <= d - 1 < d);
        }
    }
}

/// Flipped cells are on the board, not the placed cell, and hold
/// opponent discs.
proof fn lemma_flips(cells: Seq<u8>, w: int, h: int, cell: int, p: Player, d: int)
    requires
        0 < w,
        0 < h,
        w * h <= 65535,
        cells.len() == w * h,
        0 <= cell < w * h,
        0 <= d,
    ensures
        forall|k: int|
            0 <= k < flips_upto(cells, w, h, cell, p, d).len() ==> {
                let f = #[trigger] flips_upto(cells, w, h, cell, p, d)[k] as int;
                &&& 0 <= f < w * h
                &&& f != cell
                &&& cells[f] == cell_code(p.other())
            },
    decreases d,
{
    if d > 0 {
        lemma_flips(cells, w, h, cell, p, d - 1);
        let prev = flips_upto(cells, w, h, cell, p, d - 1);
        let x = cell % w;
        let y = cell / w;
        let dx = dir_dx(d - 1);
        let dy = dir_dy(d - 1);
        let b = bracket_len(cells, w, h, cell, d - 1, p);
        let ray = ray_cells(w, x, y, dx, dy, b);
        let all = flips_upto(cells, w, h, cell, p, d);
        assert(all == prev + ray);
        lemma_cell_coords(w, h, cell);
        assert forall|k: int| 0 <= k < all.len() implies {
            let f = #[trigger] all[k] as int;
            &&& 0 <= f < w * h
            &&& f != cell
            &&& cells[f] == cell_code(p.other())
        } by {
            if k >= prev.len() {
                let j = k - prev.len();
                let o = cell_code(p.other());
                let n = run_len(cells, w, h, x + dx, y + dy, dx, dy, o);
                assert(b <= n);
                lemma_run_at(cells, w, h, x + dx, y + dy, dx, dy, o, j);
                let fx = x + dx + scale(j, dx);
                let fy = y + dy + scale(j, dy);
                assert(fx == x + scale(j + 1, dx));
                assert(fy == y + scale(j + 1, dy));
                lemma_cell_index(w, h, fx, fy);
                assert(all[k] == ray[j]);
                assert(ray[j] as int == fy * w + fx);
                if fy * w + fx == cell {
                    assert(fx == x && fy == y);
                    assert(false);
                }
            }
        }
    }
}

proof fn lemma_paint(cells: Seq<u8>, fs: Seq<u16>, code: u8)
    requires
        forall|j: int| 0 <= j < fs.len() ==> (#[trigger] fs[j] as int) < cells.len(),
    ensures
        paint(cells, fs, code).len() == cells.len(),
        forall|i: int|
            0 <= i < cells.len() ==> #[trigger] paint(cells, fs, code)[i] == if listed(fs, i) {
                code
            } else {
                cells[i]
            },
    decreases fs.len(),
{
    if fs.len() > 0 {
        let rest = fs.drop_last();
        lemma_paint(cells, rest, code);
        assert forall|i: int| 0 <= i < cells.len() implies #[trigger] paint(cells, fs, code)[i]
            == if listed(fs, i) {
            code
        } else {
            cells[i]
        } by {
            if i == fs.last() as int {
                assert(fs[fs.len() - 1] as int == i);
            } else {
                if listed(fs, i) {
                    let j = choose|j: int| 0 <= j < fs.len() && fs[j] as int == i;
                    assert(rest[j] == fs[j]);
                }
                if listed(rest, i) {
                    let j = choose|j: int| 0 <= j < rest.len() && rest[j] as int == i;
                    assert(fs[j] == rest[j]);
                }
            }
        }
    }
}

/// Painting nonzero codes over occupied cells keeps the empty count.
proof fn lemma_paint_empties(cells: Seq<u8>, fs: Seq<u16>, code: u8)
    requires
        code != 0,
        forall|j: int| 0 <= j < fs.len() ==> (#[trigger] fs[j] as int) < cells.len(),
        forall|j: int| 0 <= j < fs.len() ==> cells[#[trigger] fs[j] as int] != 0,
    ensures
        count_code(paint(cells, fs, code), 0, cells.len() as int) == count_code(
            cells,
            0,
            cells.len() as int,
        ),
    decreases fs.len(),
{
    if fs.len() > 0 {
        let rest = fs.drop_last();
        assert forall|j: int| 0 <= j < rest.len() implies (#[trigger] rest[j] as int) < cells.len()
            && cells[rest[j] as int] != 0 by {
            assert(rest[j] == fs[j]);
        }
        lemma_paint_empties(cells, rest, code);
        lemma_paint(cells, rest, code);
        let l = fs.last() as int;
        assert(fs[fs.len() - 1] as int == l);
        let pr = paint(cells, rest, code);
        assert(pr[l] != 0);
        lemma_count_code_update(pr, 0, l, code, cells.len() as int);
    }
}

proof fn lemma_place_moves(cells: Seq<u8>, w: int, h: int, p: Player, i: int)
    requires
        0 <= i <= 65535,
    ensures
        place_moves(cells, w, h, p, i).len() <= i,
        forall|k: int|
            0 <= k < place_moves(cells, w, h, p, i).len() ==> {
                let mv = #[trigger] place_moves(cells, w, h, p, i)[k];
                &&& mv is Place
                &&& 0 <= mv->Place_0 < i
                &&& cells[mv->Place_0 as int] == 0
                &&& legal_at(cells, w, h, mv->Place_0 as int, p)
            },
    decreases i,
{
    if i > 0 {
        lemma_place_moves(cells, w, h, p, i - 1);
    }
}

proof fn lemma_place_moves_mono(cells: Seq<u8>, w: int, h: int, p: Player, i: int, j: int)
    requires
        0 <= i <= j,
    ensures
        place_moves(cells, w, h, p, i).len() <= place_moves(cells, w, h, p, j).len(),
    decreases j,
{
    if i < j {
        lemma_place_moves_mono(cells, w, h, p, i, j - 1);
    }
}

proof fn lemma_disc_error_stays(discs: Seq<(u16, Player)>, n: nat, k: int, j: int)
    requires
        0 <= k <= j,
        disc_error(discs, n, k) is Some,
    ensures
        disc_error(discs, n, j) == disc_error(discs, n, k),
    decreases j,
{
    if k < j {
        lemma_disc_error_stays(discs, n, k, j - 1);
    }
}

fn direction(d: usize) -> (r: (i32, i32))
    requires
        d < 8,
    ensures
        r.0 == dir_dx(d as int),
        r.1 == dir_dy(d as int),
{
    match d {
        0 => (-1, -1),
        1 => (0, -1),
        2 => (1, -1),
        3 => (-1, 0),
        4 => (1, 0),
        5 => (-1, 1),
        6 => (0, 1),
        _ => (1, 1),
    }
}

impl Othello {
    /// Number of cells.
    pub open spec fn n(&self) -> int {
        self.spec_width() * self.spec_height()
    }

    pub closed spec fn spec_width(&self) -> int {
        self.width as int
    }

    pub closed spec fn spec_height(&self) -> int {
        self.height as int
    }

    /// The board sizes that `new` accepts.
    pub open spec fn parameters_ok(width: u16, height: u16) -> bool {
        &&& width >= 4
        &&& height >= 4
        &&& width % 2 == 0
        &&& height % 2 == 0
    }

    /// Zobrist key of a board with `p` to move.
    pub closed spec fn key_of(&self, cells: Seq<u8>, p: Player) -> u64 {
        zfold(self.zobrist@, 2, cells, self.n()) ^ if p == Player::Two {
            self.zobrist_side
        } else {
            0u64
        }
    }

    /// Disc counts of both players.
    pub open spec fn counts(&self, cells: Seq<u8>) -> (nat, nat) {
        (count_code(cells, 1, self.n()), count_code(cells, 2, self.n()))
    }

    /// Legal placements of `p` on this board, in cell order.
    pub open spec fn placements(&self, cells: Seq<u8>, p: Player) -> Seq<OthelloMove> {
        place_moves(cells, self.spec_width(), self.spec_height(), p, self.n())
    }

    /// Cells that a disc of `p` on `cell` flips.
    pub open spec fn flips(&self, cells: Seq<u8>, cell: int, p: Player) -> Seq<u16> {
        flips_upto(cells, self.spec_width(), self.spec_height(), cell, p, 8)
    }

    /// The result of a board: decided by discs once neither side can
    /// place, otherwise none.
    pub open spec fn terminal(&self, cells: Seq<u8>) -> Option<Outcome> {
        if self.placements(cells, Player::One).len() == 0 && self.placements(cells, Player::Two).len()
            == 0 {
            let (ones, twos) = self.counts(cells);
            Some(disc_outcome(ones, twos))
        } else {
            None
        }
    }

    /// The model of a board with `to_move` to play.
    pub open spec fn board_model(&self, cells: Seq<u8>, to_move: Player) -> OthelloModel {
        OthelloModel {
            cells,
            to_move,
            key: self.key_of(cells, to_move),
            discs: self.counts(cells),
            outcome: self.terminal(cells),
        }
    }

    /// Rejects odd or too small boards; otherwise builds the rules object
    /// with Zobrist keys drawn from the fixed seed. Boards are limited to
    /// cell indices that fit `u16`.
    pub fn new(width: u16, height: u16) -> (r: Result<Othello, String>)
        requires
            width as int * height as int <= 65535,
        ensures
            r is Ok <==> Self::parameters_ok(width, height),
            r matches Err(e) ==> e@ == "othello needs even dimensions of at least 4, got "@
                + decimal(width as nat) + "x"@ + decimal(height as nat),
            r matches Ok(g) ==> {
                &&& g.wf()
                &&& g.spec_width() == width
                &&& g.spec_height() == height
            },
    {
        if width < 4 || height < 4 || width % 2 != 0 || height % 2 != 0 {
            let mut message = text_number_text(
                "othello needs even dimensions of at least 4, got ",
                width as u64,
                "x",
            );
            push_decimal(&mut message, height as u64);
            return Err(message);
        }
        let cells = width as usize * height as usize;
        let draws = chacha12_u64s(ZOBRIST_SEED, 2 * cells + 1);
        let mut zobrist: Vec<u64> = Vec::new();
        let mut i: usize = 0;
        while i < 2 * cells
            invariant
                cells <= 65535,
                i <= 2 * cells,
                draws@.len() == 2 * cells + 1,
                zobrist@ == draws@.subrange(0, i as int),
            decreases 2 * cells - i,
        {
            zobrist.push(draws[i]);
            i += 1;
        }
        let zobrist_side = draws[2 * cells];
        Ok(Othello { width, height, zobrist, zobrist_side })
    }

    pub fn width(&self) -> (w: u16)
        ensures
            w == self.spec_width(),
    {
        self.width
    }

    pub fn height(&self) -> (h: u16)
        ensures
            h == self.spec_height(),
    {
        self.height
    }

    pub fn cell_count(&self) -> (n: u32)
        ensures
            n == self.n(),
    {
        let w = self.width as u32;
        let h = self.height as u32;
        assert(w * h <= 65535 * 65535) by (nonlinear_arith)
            requires
                w <= 65535,
                h <= 65535,
        ;
        w * h
    }

    /// 2 features per cell: own disc and opponent disc.
    pub fn feature_count(&self) -> (n: usize)
        requires
            self.wf(),
        ensures
            n == 2 * self.n(),
    {
        2 * self.cell_count() as usize
    }

    /// One action per cell plus the pass action (ID `cell_count`).
    pub fn action_count(&self) -> (n: usize)
        requires
            self.wf(),
        ensures
            n == self.n() + 1,
    {
        self.cell_count() as usize + 1
    }

    /// The cells of a state: `0` empty, `1` Player One, `2` Player Two.
    pub fn cells<'a>(&self, state: &'a OthelloState) -> (r: &'a Vec<u8>)
        ensures
            r@ == self.model(state).cells,
    {
        &state.cells
    }

    /// Disc counts of Player One and Player Two.
    pub fn disc_counts(&self, state: &OthelloState) -> (r: [u16; 2])
        ensures
            r[0] == self.model(state).discs.0,
            r[1] == self.model(state).discs.1,
    {
        [state.discs[0], state.discs[1]]
    }

    /// Zobrist key of a board.
    fn compute_key(&self, cells: &Vec<u8>, to_move: Player) -> (k: u64)
        requires
            self.wf(),
            cells@.len() == self.n(),
            forall|c: int| 0 <= c < cells@.len() ==> #[trigger] cells@[c] <= 2,
        ensures
            k == self.key_of(cells@, to_move),
    {
        let board = zobrist_fold(&self.zobrist, 2, cells);
        let side: u64 = match to_move {
            Player::One => 0,
            Player::Two => self.zobrist_side,
        };
        board ^ side
    }

    /// Length of the opponent run that a disc of `p` on `cell` brackets
    /// in direction `d` (0 if none).
    fn bracket(&self, cells: &Vec<u8>, cell: u16, d: usize, p: Player) -> (k: u32)
        requires
            self.wf(),
            cells@.len() == self.n(),
            (cell as int) < self.n(),
            d < 8,
        ensures
            k == bracket_len(cells@, self.width as int, self.height as int, cell as int, d as int, p),
            k <= self.width + self.height,
    {
        let ghost wi = self.width as int;
        let ghost hi = self.height as int;
        proof {
            lemma_cell_coords(wi, hi, cell as int);
        }
        let w = self.width as i32;
        let h = self.height as i32;
        let (dx, dy) = direction(d);
        let x = (cell % self.width) as i32;
        let y = (cell / self.width) as i32;
        let opp = code_of(p.opponent());
        let n = run(cells, w, h, x + dx, y + dy, dx, dy, opp);
        if n == 0 {
            return 0;
        }
        let reach = n as i32 + 1;
        let ex = if dx > 0 {
            x + reach
        } else if dx < 0 {
            x - reach
        } else {
            x
        };
        let ey = if dy > 0 {
            y + reach
        } else if dy < 0 {
            y - reach
        } else {
            y
        };
        if ex < 0 || ex >= w || ey < 0 || ey >= h {
            return 0;
        }
        proof {
            lemma_cell_index(wi, hi, ex as int, ey as int);
        }
        if cells[(ey * w + ex) as usize] == code_of(p) {
            n
        } else {
            0
        }
    }

    /// Append the first `k` cells outward from `cell` in direction `d`,
    /// where `k` is the bracketed run there.
    fn push_ray(&self, cells: &Vec<u8>, cell: u16, d: usize, p: Player, k: u32, out: &mut Vec<u16>)
        requires
            self.wf(),
            cells@.len() == self.n(),
            (cell as int) < self.n(),
            d < 8,
            k == bracket_len(cells@, self.width as int, self.height as int, cell as int, d as int, p),
        ensures
            final(out)@ == old(out)@ + ray_cells(
                self.width as int,
                cell as int % self.width as int,
                cell as int / self.width as int,
                dir_dx(d as int),
                dir_dy(d as int),
                k as nat,
            ),
    {
        let ghost wi = self.width as int;
        let ghost hi = self.height as int;
        proof {
            lemma_cell_coords(wi, hi, cell as int);
        }
        let w = self.width as i32;
        let (dx, dy) = direction(d);
        let x = (cell % self.width) as i32;
        let y = (cell / self.width) as i32;
        let ghost o = cell_code(p.other());
        let ghost start = out@;
        let ghost ray = ray_cells(wi, x as int, y as int, dx as int, dy as int, k as nat);
        let mut fx = x + dx;
        let mut fy = y + dy;
        let mut j: u32 = 0;
        while j < k
            invariant
                self.wf(),
                wi == self.width,
                hi == self.height,
                w == self.width,
                cells@.len() == self.n(),
                unit_step(dx as int, dy as int),
                k <= run_len(cells@, wi, hi, x + dx, y + dy, dx as int, dy as int, o),
                ray == ray_cells(wi, x as int, y as int, dx as int, dy as int, k as nat),
                j <= k,
                fx == x + scale(j + 1, dx as int),
                fy == y + scale(j + 1, dy as int),
                out@ == start + ray.subrange(0, j as int),
            decreases k - j,
        {
            proof {
                lemma_run_at(cells@, wi, hi, x + dx, y + dy, dx as int, dy as int, o, j as int);
                lemma_cell_index(wi, hi, fx as int, fy as int);
            }
            out.push((fy * w + fx) as u16);
            proof {
                assert(out@ =~= start + ray.subrange(0, j + 1));
            }
            fx = fx + dx;
            fy = fy + dy;
            j += 1;
        }
        assert(ray.subrange(0, k as int) =~= ray);
    }

    /// The cells that a disc of `p` on `cell` flips.
    fn collect_flips(&self, cells: &Vec<u8>, cell: u16, p: Player) -> (out: Vec<u16>)
        requires
            self.wf(),
            cells@.len() == self.n(),
            (cell as int) < self.n(),
        ensures
            out@ == self.flips(cells@, cell as int, p),
    {
        let ghost wi = self.width as int;
        let ghost hi = self.height as int;
        let mut out: Vec<u16> = Vec::new();
        let mut d: usize = 0;
        while d < 8
            invariant
                self.wf(),
                wi == self.width,
                hi == self.height,
                cells@.len() == self.n(),
                (cell as int) < self.n(),
                d <= 8,
                out@ == flips_upto(cells@, wi, hi, cell as int, p, d as int),
            decreases 8 - d,
        {
            let k = self.bracket(cells, cell, d, p);
            self.push_ray(cells, cell, d, p, k, &mut out);
            d += 1;
        }
        out
    }

    /// Would a disc of `p` on `cell` flip anything?
    fn placement_is_legal(&self, cells: &Vec<u8>, cell: u16, p: Player) -> (r: bool)
        requires
            self.wf(),
            cells@.len() == self.n(),
            (cell as int) < self.n(),
        ensures
            r == legal_at(cells@, self.width as int, self.height as int, cell as int, p),
    {
        let ghost wi = self.width as int;
        let ghost hi = self.height as int;
        let mut d: usize = 0;
        while d < 8
            invariant
                self.wf(),
                wi == self.width,
                hi == self.height,
                cells@.len() == self.n(),
                (cell as int) < self.n(),
                d <= 8,
                !any_bracket(cells@, wi, hi, cell as int, p, d as int),
            decreases 8 - d,
        {
            if self.bracket(cells, cell, d, p) > 0 {
                proof {
                    lemma_any_bracket(cells@, wi, hi, cell as int, p, 8);
                    assert(bracket_len(cells@, wi, hi, cell as int, d as int, p) > 0);
                }
                return true;
            }
            d += 1;
        }
        false
    }

    /// Does `p` have a legal placement?
    fn has_placement(&self, cells: &Vec<u8>, p: Player) -> (r: bool)
        requires
            self.wf(),
            cells@.len() == self.n(),
        ensures
            r == (self.placements(cells@, p).len() > 0),
    {
        let ghost wi = self.width as int;
        let ghost hi = self.height as int;
        let n = cells.len();
        let mut cell: usize = 0;
        while cell < n
            invariant
                self.wf(),
                wi == self.width,
                hi == self.height,
                n == cells@.len(),
                n == self.n(),
                cell <= n,
                place_moves(cells@, wi, hi, p, cell as int).len() == 0,
            decreases n - cell,
        {
            if cells[cell] == EMPTY && self.placement_is_legal(cells, cell as u16, p) {
                proof {
                    lemma_place_moves_mono(cells@, wi, hi, p, cell + 1, n as int);
                }
                return true;
            }
            cell += 1;
        }
        false
    }

    /// Append the legal placements of `p`.
    fn generate(&self, cells: &Vec<u8>, p: Player, moves: &mut Vec<OthelloMove>)
        requires
            self.wf(),
            cells@.len() == self.n(),
        ensures
            final(moves)@ == old(moves)@ + self.placements(cells@, p),
    {
        let ghost wi = self.width as int;
        let ghost hi = self.height as int;
        let ghost start = moves@;
        let n = cells.len();
        let mut cell: usize = 0;
        while cell < n
            invariant
                self.wf(),
                wi == self.width,
                hi == self.height,
                n == cells@.len(),
                n == self.n(),
                cell <= n,
                moves@ == start + place_moves(cells@, wi, hi, p, cell as int),
            decreases n - cell,
        {
            if cells[cell] == EMPTY && self.placement_is_legal(cells, cell as u16, p) {
                moves.push(OthelloMove::Place(cell as u16));
            }
            proof {
                assert(moves@ =~= start + place_moves(cells@, wi, hi, p, cell + 1));
            }
            cell += 1;
        }
    }

    /// The result of a board whose disc counts are `discs`.
    fn terminal_outcome(&self, cells: &Vec<u8>, discs: [u16; 2]) -> (o: Option<Outcome>)
        requires
            self.wf(),
            cells@.len() == self.n(),
            discs[0] == self.counts(cells@).0,
            discs[1] == self.counts(cells@).1,
        ensures
            o == self.terminal(cells@),
    {
        if !self.has_placement(cells, Player::One) && !self.has_placement(cells, Player::Two) {
            let ones = discs[0];
            let twos = discs[1];
            if ones > twos {
                Some(Outcome::Win(Player::One))
            } else if ones < twos {
                Some(Outcome::Win(Player::Two))
            } else {
                Some(Outcome::Draw)
            }
        } else {
            None
        }
    }

    /// The state of a board with `to_move` to play, derived fields
    /// computed.
    fn board_state(&self, cells: Vec<u8>, to_move: Player) -> (s: OthelloState)
        requires
            self.wf(),
            cells@.len() == self.n(),
            forall|c: int| 0 <= c < cells@.len() ==> #[trigger] cells@[c] <= 2,
        ensures
            self.model(&s) == self.board_model(cells@, to_move),
            self.valid(self.model(&s)),
    {
        let key = self.compute_key(&cells, to_move);
        let ones = count_cells(&cells, 1);
        let twos = count_cells(&cells, 2);
        let outcome = self.terminal_outcome(&cells, [ones, twos]);
        OthelloState { cells, to_move, key, discs: [ones, twos], outcome }
    }

    /// Build an arbitrary position (tests and diagnostics): every listed
    /// disc must be on the board and on a cell of its own.
    pub fn custom_state(&self, discs: &[(u16, Player)], to_move: Player) -> (r: Result<
        OthelloState,
        String,
    >)
        requires
            self.wf(),
        ensures
            r is Ok <==> disc_error(discs@, self.n() as nat, discs@.len() as int) is None,
            r matches Err(e) ==> disc_error(discs@, self.n() as nat, discs@.len() as int) == Some(
                e@,
            ),
            r matches Ok(s) ==> {
                &&& self.model(&s) == self.board_model(
                    placed(discs@, self.n() as nat, discs@.len() as int),
                    to_move,
                )
                &&& self.valid(self.model(&s))
            },
    {
        let n = self.cell_count() as usize;
        let mut cells: Vec<u8> = Vec::new();
        let mut c: usize = 0;
        while c < n
            invariant
                c <= n,
                cells@ =~= Seq::new(c as nat, |j: int| 0u8),
            decreases n - c,
        {
            cells.push(EMPTY);
            c += 1;
        }
        assert(cells@ =~= placed(discs@, n as nat, 0));
        let mut k: usize = 0;
        while k < discs.len()
            invariant
                self.wf(),
                n == self.n(),
                k <= discs@.len(),
                cells@ == placed(discs@, n as nat, k as int),
                disc_error(discs@, n as nat, k as int) is None,
            decreases discs@.len() - k,
        {
            let (cell, player) = discs[k];
            proof {
                lemma_placed_len(discs@, n as nat, k as int);
            }
            if cell as usize >= n {
                proof {
                    lemma_disc_error_stays(discs@, n as nat, k + 1, discs@.len() as int);
                }
                return Err(text_number_text("cell ", cell as u64, " out of bounds"));
            }
            if cells[cell as usize] != EMPTY {
                proof {
                    lemma_disc_error_stays(discs@, n as nat, k + 1, discs@.len() as int);
                }
                return Err(text_number_text("cell ", cell as u64, " occupied twice"));
            }
            cells.set(cell as usize, code_of(player));
            k += 1;
        }
        proof {
            lemma_placed_len(discs@, n as nat, k as int);
        }
        Ok(self.board_state(cells, to_move))
    }
}

proof fn lemma_placed_len(discs: Seq<(u16, Player)>, n: nat, k: int)
    requires
        0 <= k <= discs.len(),
    ensures
        placed(discs, n, k).len() == n,
        forall|c: int| 0 <= c < n ==> #[trigger] placed(discs, n, k)[c] <= 2,
    decreases k,
{
    if k > 0 {
        lemma_placed_len(discs, n, k - 1);
    }
}

impl Othello {
    /// Side term of the key: the side key when Player Two is to move.
    closed spec fn side_bits(&self, p: Player) -> u64 {
        if p == Player::Two {
            self.zobrist_side
        } else {
            0u64
        }
    }

    /// Zobrist term of `code` on `cell`.
    fn zkey(&self, cell: usize, code: u8) -> (z: u64)
        requires
            self.wf(),
            (cell as int) < self.n(),
            code <= 2,
        ensures
            z == zterm(self.zobrist@, 2, cell as int, code),
    {
        if code == 0 {
            0
        } else {
            self.zobrist[2 * cell + code as usize - 1]
        }
    }

    /// Set one cell, keeping the disc counts and the board part of the
    /// key in step.
    fn set_cell(&self, state: &mut OthelloState, f: usize, code: u8)
        requires
            self.wf(),
            (f as int) < self.n(),
            code <= 2,
            old(state).cells@.len() == self.n(),
            forall|c: int| 0 <= c < old(state).cells@.len() ==> #[trigger] old(state).cells@[c] <= 2,
            old(state).discs[0] == self.counts(old(state).cells@).0,
            old(state).discs[1] == self.counts(old(state).cells@).1,
        ensures
            final(state).cells@ == old(state).cells@.update(f as int, code),
            forall|c: int| 0 <= c < final(state).cells@.len() ==> #[trigger] final(state).cells@[c] <= 2,
            final(state).discs[0] == self.counts(final(state).cells@).0,
            final(state).discs[1] == self.counts(final(state).cells@).1,
            final(state).key ^ zfold(self.zobrist@, 2, final(state).cells@, self.n()) == old(state).key
                ^ zfold(self.zobrist@, 2, old(state).cells@, self.n()),
            final(state).to_move == old(state).to_move,
            final(state).outcome == old(state).outcome,
    {
        let ghost before = state.cells@;
        let ghost n = self.n();
        let v = state.cells[f];
        let zold = self.zkey(f, v);
        let znew = self.zkey(f, code);
        proof {
            lemma_zfold_update(self.zobrist@, 2, before, f as int, code, n);
            lemma_count_code_update(before, 1, f as int, code, n);
            lemma_count_code_update(before, 2, f as int, code, n);
            lemma_count_code_bounds(before.update(f as int, code), 1, n);
            lemma_count_code_bounds(before.update(f as int, code), 2, n);
            if v == 1 {
                lemma_count_code_pos(before, 1, f as int, n);
            }
            if v == 2 {
                lemma_count_code_pos(before, 2, f as int, n);
            }
            let k = state.key;
            let zf = zfold(self.zobrist@, 2, before, n);
            assert((k ^ zold ^ znew) ^ (zf ^ zold ^ znew) == k ^ zf) by (bit_vector);
        }
        let mut d0 = state.discs[0];
        let mut d1 = state.discs[1];
        if v == 1 {
            d0 = d0 - 1;
        } else if v == 2 {
            d1 = d1 - 1;
        }
        if code == 1 {
            d0 = d0 + 1;
        } else if code == 2 {
            d1 = d1 + 1;
        }
        state.cells.set(f, code);
        state.discs = [d0, d1];
        state.key = state.key ^ zold ^ znew;
    }

    /// Facts about a legal placement of a valid position.
    proof fn lemma_place_facts(&self, m: OthelloModel, c: u16)
        requires
            self.wf(),
            self.valid(m),
            self.moves(m).contains(OthelloMove::Place(c)),
        ensures
            (c as int) < self.n(),
            m.cells[c as int] == 0,
            self.placements(m.cells, m.to_move).len() > 0,
            forall|k: int|
                0 <= k < self.flips(m.cells, c as int, m.to_move).len() ==> {
                    let f = #[trigger] self.flips(m.cells, c as int, m.to_move)[k] as int;
                    &&& 0 <= f < self.n()
                    &&& f != c
                    &&& m.cells[f] == cell_code(m.to_move.other())
                },
    {
        let w = self.width as int;
        let h = self.height as int;
        let pl = self.placements(m.cells, m.to_move);
        lemma_place_moves(m.cells, w, h, m.to_move, self.n());
        if pl.len() == 0 {
            assert(self.moves(m) == seq![OthelloMove::Pass]);
            assert(self.moves(m)[0] == OthelloMove::Pass);
            assert(false);
        }
        let k = choose|k: int| 0 <= k < self.moves(m).len() && self.moves(m)[k] == OthelloMove::Place(c);
        assert(pl[k] == OthelloMove::Place(c));
        lemma_cell_coords(w, h, 0);
        lemma_flips(m.cells, w, h, c as int, m.to_move, 8);
    }
}

proof fn lemma_key_side(k: u64, zf: u64, s: u64)
    ensures
        (k == zf ^ s) <==> (k ^ zf == s),
        (k ^ zf == s) ==> ((k ^ s) ^ zf == 0u64),
        ((k ^ s) ^ zf == 0u64) ==> k ^ s == zf ^ 0u64,
        (k ^ zf == 0u64) ==> (k ^ s) == zf ^ s,
{
    assert((k == zf ^ s) <==> (k ^ zf == s)) by (bit_vector);
    assert((k ^ zf == s) ==> ((k ^ s) ^ zf == 0u64)) by (bit_vector);
    assert(((k ^ s) ^ zf == 0u64) ==> k ^ s == zf ^ 0u64) by (bit_vector);
    assert((k ^ zf == 0u64) ==> (k ^ s) == zf ^ s) by (bit_vector);
}

impl Game for Othello {
    type State = OthelloState;
    type Move = OthelloMove;
    type Undo = OthelloUndo;
    type UndoModel = OthelloUndoModel;
    type Model = OthelloModel;

    closed spec fn wf(&self) -> bool {
        &&& Self::parameters_ok(self.width, self.height)
        &&& self.n() <= 65535
        &&& self.zobrist@.len() == 2 * self.n()
    }

    closed spec fn model(&self, s: &OthelloState) -> OthelloModel {
        OthelloModel {
            cells: s.cells@,
            to_move: s.to_move,
            key: s.key,
            discs: (s.discs[0] as nat, s.discs[1] as nat),
            outcome: s.outcome,
        }
    }

    open spec fn valid(&self, m: OthelloModel) -> bool {
        &&& m.cells.len() == self.n()
        &&& forall|c: int| 0 <= c < m.cells.len() ==> #[trigger] m.cells[c] <= 2
        &&& m == self.board_model(m.cells, m.to_move)
    }

    open spec fn initial(&self) -> OthelloModel {
        self.board_model(start_cells(self.spec_width(), self.spec_height()), Player::One)
    }

    open spec fn side(&self, m: OthelloModel) -> Player {
        m.to_move
    }

    open spec fn result(&self, m: OthelloModel) -> Option<Outcome> {
        m.outcome
    }

    open spec fn key(&self, m: OthelloModel) -> u64 {
        m.key
    }

    open spec fn moves(&self, m: OthelloModel) -> Seq<OthelloMove> {
        let pl = self.placements(m.cells, m.to_move);
        if pl.len() == 0 {
            seq![OthelloMove::Pass]
        } else {
            pl
        }
    }

    open spec fn next(&self, m: OthelloModel, mv: OthelloMove) -> OthelloModel {
        let p = m.to_move;
        match mv {
            OthelloMove::Place(c) => self.board_model(
                paint(m.cells.update(c as int, cell_code(p)), self.flips(m.cells, c as int, p), cell_code(p)),
                p.other(),
            ),
            OthelloMove::Pass => self.board_model(m.cells, p.other()),
        }
    }

    closed spec fn undo_model(&self, u: &OthelloUndo) -> OthelloUndoModel {
        OthelloUndoModel { flipped: u.flipped@, prev_outcome: u.prev_outcome }
    }

    open spec fn undo(&self, m: OthelloModel, mv: OthelloMove) -> OthelloUndoModel {
        OthelloUndoModel {
            flipped: match mv {
                OthelloMove::Place(c) => self.flips(m.cells, c as int, m.to_move),
                OthelloMove::Pass => Seq::empty(),
            },
            prev_outcome: m.outcome,
        }
    }

    open spec fn restore(&self, m: OthelloModel, mv: OthelloMove, u: OthelloUndoModel) -> OthelloModel {
        let p = m.to_move.other();
        let cells = match mv {
            OthelloMove::Place(c) => paint(m.cells, u.flipped, cell_code(m.to_move)).update(c as int, 0),
            OthelloMove::Pass => m.cells,
        };
        OthelloModel {
            cells,
            to_move: p,
            key: self.key_of(cells, p),
            discs: self.counts(cells),
            outcome: u.prev_outcome,
        }
    }

    open spec fn features(&self, m: OthelloModel) -> Seq<FeatureId> {
        occupancy_features(m.cells, cell_code(m.to_move), self.n())
    }

    open spec fn action(&self, m: OthelloModel, mv: OthelloMove) -> ActionId {
        match mv {
            OthelloMove::Place(c) => c as ActionId,
            OthelloMove::Pass => self.n() as ActionId,
        }
    }

    open spec fn tactical(&self, m: OthelloModel, mv: OthelloMove) -> bool {
        false
    }

    open spec fn acyclic(&self) -> bool {
        true
    }

    open spec fn height(&self, m: OthelloModel) -> nat {
        2 * count_code(m.cells, 0, self.n()) + if self.placements(m.cells, m.to_move).len() > 0 {
            0nat
        } else {
            1nat
        }
    }

    proof fn lemma_initial_valid(&self) {
        let w = self.width as int;
        let h = self.height as int;
        let cells = start_cells(w, h);
        assert(cells.len() == self.n());
    }

    proof fn lemma_step(&self, m: OthelloModel, mv: OthelloMove) {
        let p = m.to_move;
        match mv {
            OthelloMove::Pass => {
                let r = self.restore(self.next(m, mv), mv, self.undo(m, mv));
                assert(r =~= m);
            },
            OthelloMove::Place(c) => {
                self.lemma_place_facts(m, c);
                let own = cell_code(p);
                let opp = cell_code(p.other());
                let base = m.cells.update(c as int, own);
                let fl = self.flips(m.cells, c as int, p);
                let nc = paint(base, fl, own);
                lemma_paint(base, fl, own);
                assert forall|i: int| 0 <= i < nc.len() implies #[trigger] nc[i] <= 2 by {}
                let back = paint(nc, fl, opp);
                lemma_paint(nc, fl, opp);
                let cells2 = back.update(c as int, 0);
                assert forall|i: int| 0 <= i < m.cells.len() implies #[trigger] cells2[i] == m.cells[i] by {
                    if i != c as int && listed(fl, i) {
                        let j = choose|j: int| 0 <= j < fl.len() && fl[j] as int == i;
                        assert(m.cells[fl[j] as int] == opp);
                    }
                }
                assert(cells2 =~= m.cells);
                let r = self.restore(self.next(m, mv), mv, self.undo(m, mv));
                assert(r.cells == m.cells);
                assert(r =~= m);
            },
        }
    }

    proof fn lemma_live_has_moves(&self, m: OthelloModel) {
    }

    proof fn lemma_height_decreases(&self, m: OthelloModel, mv: OthelloMove) {
        let p = m.to_move;
        let n = self.n();
        match mv {
            OthelloMove::Pass => {
                if self.placements(m.cells, p).len() > 0 {
                    assert(self.moves(m)[0] is Place) by {
                        lemma_place_moves(m.cells, self.width as int, self.height as int, p, n);
                    }
                    let k = choose|k: int| 0 <= k < self.moves(m).len() && self.moves(m)[k] == mv;
                    lemma_place_moves(m.cells, self.width as int, self.height as int, p, n);
                    assert(self.moves(m)[k] is Place);
                    assert(false);
                }
                assert(self.placements(m.cells, p.other()).len() > 0);
            },
            OthelloMove::Place(c) => {
                self.lemma_place_facts(m, c);
                let own = cell_code(p);
                let base = m.cells.update(c as int, own);
                let fl = self.flips(m.cells, c as int, p);
                lemma_count_code_update(m.cells, 0, c as int, own, n);
                assert forall|j: int| 0 <= j < fl.len() implies (#[trigger] fl[j] as int) < base.len()
                    && base[fl[j] as int] != 0 by {}
                lemma_paint_empties(base, fl, own);
                lemma_count_code_pos(m.cells, 0, c as int, n);
            },
        }
    }

    proof fn lemma_height_bounded(&self, m: OthelloModel) {
        lemma_count_code_bounds(m.cells, 0, self.n());
    }

    proof fn lemma_moves_bounded(&self, m: OthelloModel) {
        lemma_place_moves(m.cells, self.width as int, self.height as int, m.to_move, self.n());
    }

    fn initial_state(&self) -> (s: OthelloState) {
        let ghost wi = self.width as int;
        let ghost hi = self.height as int;
        let n = self.cell_count() as usize;
        let mut cells: Vec<u8> = Vec::new();
        let mut c: usize = 0;
        while c < n
            invariant
                c <= n,
                cells@ =~= Seq::new(c as nat, |j: int| 0u8),
            decreases n - c,
        {
            cells.push(EMPTY);
            c += 1;
        }
        let cx = self.width / 2;
        let cy = self.height / 2;
        proof {
            lemma_cell_index(wi, hi, cx - 1, cy as int);
            lemma_cell_index(wi, hi, cx as int, cy - 1);
            lemma_cell_index(wi, hi, cx - 1, cy - 1);
            lemma_cell_index(wi, hi, cx as int, cy as int);
            assert((cy - 1) * wi == cy * wi - wi) by (nonlinear_arith);
        }
        let a = cy * self.width + cx - 1;
        let b = (cy - 1) * self.width + cx;
        let e = (cy - 1) * self.width + cx - 1;
        let f = cy * self.width + cx;
        cells.set(a as usize, 1);
        cells.set(b as usize, 1);
        cells.set(e as usize, 2);
        cells.set(f as usize, 2);
        assert(cells@ =~= start_cells(wi, hi));
        self.board_state(cells, Player::One)
    }

    fn side_to_move(&self, state: &OthelloState) -> (p: Player) {
        state.to_move
    }

    fn legal_moves(&self, state: &OthelloState, moves: &mut Vec<OthelloMove>) {
        moves.clear();
        self.generate(&state.cells, state.to_move, moves);
        if moves.len() == 0 {
            // Only reached in non-terminal states, i.e. the opponent
            // still has a placement: the mover must pass.
            moves.push(OthelloMove::Pass);
        }
        assert(moves@ =~= self.moves(self.model(state)));
    }

    fn make_move(&self, state: &mut OthelloState, mv: OthelloMove) -> (u: OthelloUndo) {
        let ghost m = self.model(state);
        let ghost n = self.n();
        let mover = state.to_move;
        let prev_outcome = state.outcome;
        proof {
            lemma_key_side(m.key, zfold(self.zobrist@, 2, m.cells, n), self.side_bits(mover));
        }
        let flipped = match mv {
            OthelloMove::Pass => Vec::new(),
            OthelloMove::Place(cell) => {
                proof {
                    self.lemma_place_facts(m, cell);
                }
                let mc = code_of(mover);
                let flips = self.collect_flips(&state.cells, cell, mover);
                let ghost fl = flips@;
                let ghost base = m.cells.update(cell as int, mc);
                self.set_cell(state, cell as usize, mc);
                assert(state.cells@ == paint(base, fl.take(0), mc));
                let mut i: usize = 0;
                while i < flips.len()
                    invariant
                        self.wf(),
                        n == self.n(),
                        fl == flips@,
                        fl == self.flips(m.cells, cell as int, mover),
                        forall|k: int| 0 <= k < fl.len() ==> (#[trigger] fl[k] as int) < n,
                        mc == cell_code(mover),
                        i <= fl.len(),
                        state.cells@ == paint(base, fl.take(i as int), mc),
                        state.cells@.len() == n,
                        forall|c: int| 0 <= c < state.cells@.len() ==> #[trigger] state.cells@[c] <= 2,
                        state.discs[0] == self.counts(state.cells@).0,
                        state.discs[1] == self.counts(state.cells@).1,
                        state.key ^ zfold(self.zobrist@, 2, state.cells@, n) == self.side_bits(mover),
                        state.to_move == mover,
                    decreases flips@.len() - i,
                {
                    let f = flips[i] as usize;
                    assert(fl[i as int] as int == f);
                    self.set_cell(state, f, mc);
                    proof {
                        let t = fl.take(i + 1);
                        assert(t.drop_last() =~= fl.take(i as int));
                        assert(t.last() == fl[i as int]);
                    }
                    i += 1;
                }
                assert(fl.take(fl.len() as int) =~= fl);
                flips
            },
        };
        let ghost k1 = state.key;
        let ghost zf = zfold(self.zobrist@, 2, state.cells@, n);
        state.to_move = mover.opponent();
        state.key = state.key ^ self.zobrist_side;
        proof {
            let s = self.zobrist_side;
            if mover == Player::One {
                assert(k1 ^ zf == 0u64);
                assert((k1 ^ s) == zf ^ s) by (bit_vector)
                    requires
                        k1 ^ zf == 0u64,
                ;
            } else {
                assert(k1 ^ zf == s);
                assert((k1 ^ s) == zf ^ 0u64) by (bit_vector)
                    requires
                        k1 ^ zf == s,
                ;
            }
        }
        state.outcome = self.terminal_outcome(&state.cells, state.discs);
        proof {
            assert(self.model(state) =~= self.next(m, mv));
        }
        OthelloUndo { flipped, prev_outcome }
    }

    fn unmake_move(&self, state: &mut OthelloState, mv: OthelloMove, u: OthelloUndo) {
        let ghost p = choose|p: OthelloModel|
            #![trigger self.next(p, mv)]
            {
                &&& self.valid(p)
                &&& self.result(p) is None
                &&& self.moves(p).contains(mv)
                &&& self.next(p, mv) == self.model(state)
                &&& self.undo(p, mv) == self.undo_model(&u)
            };
        let ghost m = self.model(state);
        let ghost n = self.n();
        proof {
            self.lemma_step(p, mv);
            lemma_key_side(m.key, zfold(self.zobrist@, 2, m.cells, n), self.side_bits(m.to_move));
        }
        let mover = state.to_move.opponent();
        match mv {
            OthelloMove::Pass => {},
            OthelloMove::Place(cell) => {
                proof {
                    self.lemma_place_facts(p, cell);
                }
                let oc = code_of(state.to_move);
                let ghost fl = u.flipped@;
                let mut i: usize = 0;
                while i < u.flipped.len()
                    invariant
                        self.wf(),
                        n == self.n(),
                        fl == u.flipped@,
                        forall|k: int| 0 <= k < fl.len() ==> (#[trigger] fl[k] as int) < n,
                        oc == cell_code(m.to_move),
                        i <= fl.len(),
                        state.cells@ == paint(m.cells, fl.take(i as int), oc),
                        state.cells@.len() == n,
                        forall|c: int| 0 <= c < state.cells@.len() ==> #[trigger] state.cells@[c] <= 2,
                        state.discs[0] == self.counts(state.cells@).0,
                        state.discs[1] == self.counts(state.cells@).1,
                        state.key ^ zfold(self.zobrist@, 2, state.cells@, n) == self.side_bits(m.to_move),
                        state.to_move == m.to_move,
                    decreases fl.len() - i,
                {
                    let f = u.flipped[i] as usize;
                    assert(fl[i as int] as int == f);
                    self.set_cell(state, f, oc);
                    proof {
                        let t = fl.take(i + 1);
                        assert(t.drop_last() =~= fl.take(i as int));
                        assert(t.last() == fl[i as int]);
                    }
                    i += 1;
                }
                assert(fl.take(fl.len() as int) =~= fl);
                self.set_cell(state, cell as usize, EMPTY);
            },
        }
        let ghost k1 = state.key;
        let ghost zf = zfold(self.zobrist@, 2, state.cells@, n);
        state.key = state.key ^ self.zobrist_side;
        state.to_move = mover;
        state.outcome = u.prev_outcome;
        proof {
            let s = self.zobrist_side;
            if mover == Player::Two {
                assert(k1 ^ zf == 0u64);
                assert((k1 ^ s) == zf ^ s) by (bit_vector)
                    requires
                        k1 ^ zf == 0u64,
                ;
            } else {
                assert(k1 ^ zf == s);
                assert((k1 ^ s) == zf ^ 0u64) by (bit_vector)
                    requires
                        k1 ^ zf == s,
                ;
            }
            assert(self.model(state) =~= self.restore(m, mv, self.undo_model(&u)));
        }
    }

    fn outcome(&self, state: &OthelloState) -> (o: Option<Outcome>) {
        state.outcome
    }

    fn position_key(&self, state: &OthelloState) -> (k: u64) {
        state.key
    }

    fn encode_features(&self, state: &OthelloState, features: &mut Vec<FeatureId>) {
        features.clear();
        let own = code_of(state.to_move);
        let n = state.cells.len();
        let mut cell: usize = 0;
        while cell < n
            invariant
                n == state.cells@.len(),
                n == self.n(),
                self.wf(),
                cell <= n,
                own == cell_code(state.to_move),
                features@ == occupancy_features(state.cells@, own, cell as int),
            decreases n - cell,
        {
            let code = state.cells[cell];
            if code != EMPTY {
                let relative: u32 = if code != own {
                    1
                } else {
                    0
                };
                features.push(2 * cell as u32 + relative);
            }
            cell += 1;
        }
    }

    fn action_id(&self, state: &OthelloState, mv: OthelloMove) -> (a: ActionId) {
        match mv {
            OthelloMove::Place(cell) => cell as ActionId,
            OthelloMove::Pass => self.cell_count(),
        }
    }

    fn is_tactical(&self, state: &OthelloState, mv: OthelloMove) -> (t: bool) {
        false
    }

    fn clone_state(&self, state: &OthelloState) -> (c: OthelloState) {
        let cells = state.cells.clone();
        assert(cells@ =~= state.cells@);
        OthelloState {
            cells,
            to_move: state.to_move,
            key: state.key,
            discs: [state.discs[0], state.discs[1]],
            outcome: state.outcome,
        }
    }

    fn same_move(&self, a: OthelloMove, b: OthelloMove) -> (r: bool) {
        a == b
    }
}

} // verus!
