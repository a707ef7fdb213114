//! Parameterized Breakthrough on a `width` x `height` board.
//!
//! Each player starts with `rows` full ranks of pawns (Player One at the
//! bottom moving up, Player Two at the top moving down). A pawn moves one
//! square straight or diagonally forward to an empty square; it may move
//! diagonally forward onto an enemy pawn, capturing it. Straight moves
//! never capture.
//!
//! Terminal rule: a player wins by moving a pawn onto the opponent's home
//! rank; a player with no legal move (including having no pawns) loses.
//! Pawns only advance, so no position can repeat and every game
//! terminates; there are no draws.
//!
//! Cells are indexed `cell = y * width + x`, with row `y = 0` at the
//! bottom (Player One's home rank).

use crate::game::{ActionId, FeatureId, Game, Outcome, Player};
use crate::games::grid::{
    cell_code, code_of, count_cells, count_code, lemma_cell_coords, lemma_cell_index,
    lemma_count_code_bounds, lemma_count_code_pos, lemma_count_code_update, lemma_zfold_update,
    slot_of, zfold, zobrist_fold, zterm,
};
use crate::text::text_number_text;
use crate::zobrist::chacha12_u64s;
use vstd::prelude::*;

verus! {

/// Fixed seed for Zobrist key generation so position keys are stable
/// across processes and runs.
const ZOBRIST_SEED: u64 = 0xb4ea_c704_9a11_5eed;

const EMPTY: u8 = 0;

/// Rules object for one Breakthrough parameterization.
pub struct Breakthrough {
    width: u16,
    height: u16,
    rows: u16,
    /// `zobrist[2 * cell + code - 1]`
    zobrist: Vec<u64>,
    zobrist_side: u64,
}

/// A move: source and destination cell indices.
#[derive(Clone, Copy, PartialEq, Eq, PartialOrd, Ord, Debug, Structural)]
pub struct BreakthroughMove {
    pub from: u16,
    pub to: u16,
}

/// Board state. `cells[cell]` is `0` (empty), `1` (Player One) or
/// `2` (Player Two).
#[derive(Clone, PartialEq, Eq, Debug)]
pub struct BreakthroughState {
    cells: Vec<u8>,
    to_move: Player,
    key: u64,
    /// Live pawn counts per player slot.
    pawns: [u16; 2],
    outcome: Option<Outcome>,
}

/// Undo record for `unmake_move`.
pub struct BreakthroughUndo {
    captured: u8,
    prev_outcome: Option<Outcome>,
}

/// Mathematical view of a Breakthrough state.
#[verifier::ext_equal]
pub struct BreakthroughModel {
    pub cells: Seq<u8>,
    pub to_move: Player,
    pub key: u64,
    pub pawns: (nat, nat),
    pub outcome: Option<Outcome>,
}

/// Rank step of a player's forward direction.
pub open spec fn forward(p: Player) -> int {
    match p {
        Player::One => 1,
        Player::Two => -1,
    }
}

/// The forward step of the pawn on `from` by file offset `dx`, if it
/// stays on the board and is open: straight steps need an empty square,
/// diagonal steps anything but an own pawn.
pub open spec fn step_moves(cells: Seq<u8>, w: int, h: int, p: Player, from: int, dx: int) -> Seq<
    BreakthroughMove,
> {
    let nx = from % w + dx;
    let ny = from / w + forward(p);
    let to = ny * w + nx;
    if 0 <= nx < w && 0 <= ny < h && (if dx == 0 {
        cells[to] == 0
    } else {
        cells[to] != cell_code(p)
    }) {
        seq![BreakthroughMove { from: from as u16, to: to as u16 }]
    } else {
        Seq::empty()
    }
}

/// Moves of the pawn on `from`, in file order left, straight, right.
pub open spec fn pawn_moves(cells: Seq<u8>, w: int, h: int, p: Player, from: int) -> Seq<
    BreakthroughMove,
> {
    step_moves(cells, w, h, p, from, -1) + step_moves(cells, w, h, p, from, 0) + step_moves(
        cells,
        w,
        h,
        p,
        from,
        1,
    )
}

/// Moves of `p`'s pawns on cells `0..i`, in cell order.
pub open spec fn bt_moves(cells: Seq<u8>, w: int, h: int, p: Player, i: int) -> Seq<
    BreakthroughMove,
>
    decreases i,
{
    if i <= 0 {
        Seq::empty()
    } else {
        bt_moves(cells, w, h, p, i - 1) + if cells[i - 1] == cell_code(p) {
            pawn_moves(cells, w, h, p, i - 1)
        } else {
            Seq::empty()
        }
    }
}

/// A pawn step of `p`: from an own pawn one rank forward, at most one
/// file aside, onto an open square.
pub open spec fn legal_step(cells: Seq<u8>, w: int, h: int, p: Player, mv: BreakthroughMove) -> bool {
    let from = mv.from as int;
    let to = mv.to as int;
    &&& 0 <= from < w * h
    &&& 0 <= to < w * h
    &&& cells[from] == cell_code(p)
    &&& to / w == from / w + forward(p)
    &&& -1 <= to % w - from % w <= 1
    &&& to % w == from % w ==> cells[to] == 0
    &&& to % w != from % w ==> cells[to] != cell_code(p)
}

/// Cell seen from `p`'s side: Player Two sees the board mirrored
/// vertically, so forward is always up.
pub open spec fn perspective(w: int, h: int, p: Player, cell: int) -> int {
    match p {
        Player::One => cell,
        Player::Two => (h - 1 - cell / w) * w + cell % w,
    }
}

/// Side-relative features over perspective cells `0..i`: `2 * pcell` for
/// an own pawn, `2 * pcell + 1` for an opponent pawn, ascending.
pub open spec fn bt_features(cells: Seq<u8>, w: int, h: int, p: Player, i: int) -> Seq<FeatureId>
    decreases i,
{
    if i <= 0 {
        Seq::empty()
    } else {
        let prev = bt_features(cells, w, h, p, i - 1);
        let c = perspective(w, h, p, i - 1);
        if cells[c] != 0 {
            prev.push((2 * (i - 1) + if cells[c] != cell_code(p) {
                1int
            } else {
                0int
            }) as FeatureId)
        } else {
            prev
        }
    }
}

/// Ranks a pawn with `code` on row `y` still has to cover, counting its
/// own presence (0 for an empty cell).
pub open spec fn advance_left(code: u8, y: int, h: int) -> int {
    if code == 1 {
        h - y
    } else if code == 2 {
        y + 1
    } else {
        0
    }
}

/// Sum of `advance_left` over cells `0..i`.
pub open spec fn advance_sum(cells: Seq<u8>, w: int, h: int, i: int) -> int
    decreases i,
{
    if i <= 0 {
        0
    } else {
        advance_sum(cells, w, h, i - 1) + advance_left(cells[i - 1], (i - 1) / w, h)
    }
}

/// The starting board: `rows` ranks of pawns per side.
pub open spec fn start_cells(w: int, h: int, rows: int) -> Seq<u8> {
    Seq::new(
        (w * h) as nat,
        |c: int|
            if c / w < rows {
                1u8
            } else if c / w >= h - rows {
                2u8
            } else {
                0u8
            },
    )
}

/// Cells after placing the first `k` listed pawns on an empty board.
pub open spec fn placed(pawns: Seq<(u16, Player)>, n: nat, k: int) -> Seq<u8>
    decreases k,
{
    if k <= 0 {
        Seq::new(n, |c: int| 0u8)
    } else {
        let prev = placed(pawns, n, k - 1);
        let cell = pawns[k - 1].0 as int;
        if cell < n {
            prev.update(cell, cell_code(pawns[k - 1].1))
        } else {
            prev
        }
    }
}

/// The first `k` listed pawns are in bounds, off the opponent's home rank
/// and on distinct cells.
pub open spec fn pawns_ok(pawns: Seq<(u16, Player)>, w: int, h: int, k: int) -> bool
    decreases k,
{
    if k <= 0 {
        true
    } else {
        let (cell, p) = pawns[k - 1];
        &&& pawns_ok(pawns, w, h, k - 1)
        &&& (cell as int) < w * h
        &&& !(p == Player::One && (cell as int) / w == h - 1)
        &&& !(p == Player::Two && (cell as int) / w == 0)
        &&& placed(pawns, (w * h) as nat, k - 1)[cell as int] == 0
    }
}

proof fn lemma_bt_moves_mono(cells: Seq<u8>, w: int, h: int, p: Player, i: int, j: int)
    requires
        0 <= i <= j,
    ensures
        bt_moves(cells, w, h, p, i).len() <= bt_moves(cells, w, h, p, j).len(),
    decreases j,
{
    if i < j {
        lemma_bt_moves_mono(cells, w, h, p, i, j - 1);
    }
}

/// Every generated move is a legal step, and there are at most three per
/// cell.
proof fn lemma_bt_moves(cells: Seq<u8>, w: int, h: int, p: Player, i: int)
    requires
        0 < w,
        0 < h,
        w * h <= 65535,
        0 <= i <= w * h,
        cells.len() == w * h,
    ensures
        bt_moves(cells, w, h, p, i).len() <= 3 * i,
        forall|k: int|
            0 <= k < bt_moves(cells, w, h, p, i).len() ==> legal_step(
                cells,
                w,
                h,
                p,
                #[trigger] bt_moves(cells, w, h, p, i)[k],
            ),
    decreases i,
{
    if i > 0 {
        lemma_bt_moves(cells, w, h, p, i - 1);
        let prev = bt_moves(cells, w, h, p, i - 1);
        let from = i - 1;
        lemma_cell_coords(w, h, from);
        let extra = if cells[from] == cell_code(p) {
            pawn_moves(cells, w, h, p, from)
        } else {
            Seq::empty()
        };
        if cells[from] == cell_code(p) {
            lemma_step_moves(cells, w, h, p, from, -1);
            lemma_step_moves(cells, w, h, p, from, 0);
            lemma_step_moves(cells, w, h, p, from, 1);
        }
        assert forall|k: int| 0 <= k < (prev + extra).len() implies legal_step(
            cells,
            w,
            h,
            p,
            #[trigger] (prev + extra)[k],
        ) by {
            if k < prev.len() {
                assert((prev + extra)[k] == prev[k]);
            } else {
                let a = step_moves(cells, w, h, p, from, -1);
                let b = step_moves(cells, w, h, p, from, 0);
                let c = step_moves(cells, w, h, p, from, 1);
                let r = k - prev.len();
                if r < a.len() {
                    assert((prev + extra)[k] == a[r]);
                } else if r < a.len() + b.len() {
                    assert((prev + extra)[k] == b[r - a.len()]);
                } else {
                    assert((prev + extra)[k] == c[r - a.len() - b.len()]);
                }
            }
        }
    }
}

proof fn lemma_step_moves(cells: Seq<u8>, w: int, h: int, p: Player, from: int, dx: int)
    requires
        0 < w,
        0 < h,
        w * h <= 65535,
        0 <= from < w * h,
        -1 <= dx <= 1,
        cells[from] == cell_code(p),
    ensures
        forall|k: int|
            0 <= k < step_moves(cells, w, h, p, from, dx).len() ==> legal_step(
                cells,
                w,
                h,
                p,
                #[trigger] step_moves(cells, w, h, p, from, dx)[k],
            ),
        step_moves(cells, w, h, p, from, dx).len() <= 1,
{
    lemma_cell_coords(w, h, from);
    let nx = from % w + dx;
    let ny = from / w + forward(p);
    if 0 <= nx < w && 0 <= ny < h {
        lemma_cell_index(w, h, nx, ny);
    }
}

proof fn lemma_pawns_ok_prefix(pawns: Seq<(u16, Player)>, w: int, h: int, i: int, j: int)
    requires
        0 <= i <= j,
        pawns_ok(pawns, w, h, j),
    ensures
        pawns_ok(pawns, w, h, i),
    decreases j,
{
    if i < j {
        lemma_pawns_ok_prefix(pawns, w, h, i, j - 1);
    }
}

proof fn lemma_placed(pawns: Seq<(u16, Player)>, n: nat, k: int)
    requires
        0 <= k <= pawns.len(),
    ensures
        placed(pawns, n, k).len() == n,
        forall|c: int| 0 <= c < n ==> #[trigger] placed(pawns, n, k)[c] <= 2,
    decreases k,
{
    if k > 0 {
        lemma_placed(pawns, n, k - 1);
    }
}

proof fn lemma_advance_update(cells: Seq<u8>, w: int, h: int, c: int, v: u8, i: int)
    requires
        0 <= c < cells.len(),
        0 <= i <= cells.len(),
    ensures
        advance_sum(cells.update(c, v), w, h, i) + (if c < i {
            advance_left(cells[c], c / w, h)
        } else {
            0
        }) == advance_sum(cells, w, h, i) + (if c < i {
            advance_left(v, c / w, h)
        } else {
            0
        }),
    decreases i,
{
    if i > 0 {
        lemma_advance_update(cells, w, h, c, v, i - 1);
    }
}

proof fn lemma_advance_bound(cells: Seq<u8>, w: int, h: int, i: int)
    requires
        0 < w,
        0 < h,
        0 <= i <= w * h,
    ensures
        0 <= advance_sum(cells, w, h, i) <= i * h,
    decreases i,
{
    if i > 0 {
        lemma_advance_bound(cells, w, h, i - 1);
        lemma_cell_coords(w, h, i - 1);
        assert((i - 1) * h + h == i * h) by (nonlinear_arith);
    }
}

impl Breakthrough {
    /// Number of cells.
    pub open spec fn n(&self) -> int {
        self.spec_width() * self.spec_height()
    }

    pub closed spec fn spec_width(&self) -> int {
        self.width as int
    }

    pub closed spec fn spec_height(&self) -> int {
        self.height as int
    }

    pub closed spec fn spec_rows(&self) -> int {
        self.rows as int
    }

    /// The rule parameters that `new` accepts.
    pub open spec fn parameters_ok(width: u16, height: u16, rows: u16) -> bool {
        &&& width >= 2
        &&& rows >= 1
        &&& 2 * rows < height
    }

    /// Zobrist key of a board with `p` to move.
    pub closed spec fn key_of(&self, cells: Seq<u8>, p: Player) -> u64 {
        zfold(self.zobrist@, 2, cells, self.n()) ^ if p == Player::Two {
            self.zobrist_side
        } else {
            0u64
        }
    }

    /// Pawn counts of both players.
    pub open spec fn counts(&self, cells: Seq<u8>) -> (nat, nat) {
        (count_code(cells, 1, self.n()), count_code(cells, 2, self.n()))
    }

    /// All moves of `p` on this board.
    pub open spec fn live(&self, cells: Seq<u8>, p: Player) -> Seq<BreakthroughMove> {
        bt_moves(cells, self.spec_width(), self.spec_height(), p, self.n())
    }

    /// The model of a custom position with `to_move` to play.
    pub open spec fn custom_model(&self, cells: Seq<u8>, to_move: Player) -> BreakthroughModel {
        BreakthroughModel {
            cells,
            to_move,
            key: self.key_of(cells, to_move),
            pawns: self.counts(cells),
            outcome: if self.live(cells, to_move).len() == 0 {
                Some(Outcome::Win(to_move.other()))
            } else {
                None
            },
        }
    }

    /// Rejects degenerate parameters; otherwise builds the rules object
    /// with Zobrist keys drawn from the fixed seed. Boards are limited to
    /// cell indices that fit `u16`.
    pub fn new(width: u16, height: u16, rows: u16) -> (r: Result<Breakthrough, String>)
        requires
            width as int * height as int <= 65535,
        ensures
            r is Ok <==> Self::parameters_ok(width, height, rows),
            r matches Ok(g) ==> {
                &&& g.wf()
                &&& g.spec_width() == width
                &&& g.spec_height() == height
                &&& g.spec_rows() == rows
            },
    {
        if width < 2 {
            return Err(
                text_number_text("width ", width as u64, " < 2 makes diagonal play degenerate"),
            );
        }
        if rows == 0 {
            return Err(String::from_str("rows must be at least 1"));
        }
        if 2 * rows as u32 >= height as u32 {
            let mut message = text_number_text("", rows as u64, " pawn rows per side need at least ");
            let tail = text_number_text("", 2 * rows as u64 + 1, " ranks, board has ");
            message.append(tail.as_str());
            let size = text_number_text("", height as u64, "");
            message.append(size.as_str());
            return Err(message);
        }
        let cells = width as usize * height as usize;
        let draws = chacha12_u64s(ZOBRIST_SEED, 2 * cells + 1);
        let mut zobrist: Vec<u64> = Vec::new();
        let mut i: usize = 0;
        while i < 2 * cells
            invariant
                cells <= 65535,
                i <= 2 * cells,
                draws@.len() == 2 * cells + 1,
                zobrist@ == draws@.subrange(0, i as int),
            decreases 2 * cells - i,
        {
            zobrist.push(draws[i]);
            i += 1;
        }
        let zobrist_side = draws[2 * cells];
        Ok(Breakthrough { width, height, rows, zobrist, zobrist_side })
    }

    pub fn width(&self) -> (w: u16)
        ensures
            w == self.spec_width(),
    {
        self.width
    }

    pub fn height(&self) -> (h: u16)
        ensures
            h == self.spec_height(),
    {
        self.height
    }

    pub fn cell_count(&self) -> (n: u32)
        ensures
            n == self.n(),
    {
        let w = self.width as u32;
        let h = self.height as u32;
        assert(w * h <= 65535 * 65535) by (nonlinear_arith)
            requires
                w <= 65535,
                h <= 65535,
        ;
        w * h
    }

    /// Total distinct feature IDs (2 per cell: own-pawn and opponent-pawn,
    /// in the side-to-move's mirrored frame).
    pub fn feature_count(&self) -> (n: usize)
        requires
            self.wf(),
        ensures
            n == 2 * self.n(),
    {
        2 * self.cell_count() as usize
    }

    /// Total distinct action IDs (3 forward directions per source cell,
    /// in the side-to-move's mirrored frame).
    pub fn action_count(&self) -> (n: usize)
        requires
            self.wf(),
        ensures
            n == 3 * self.n(),
    {
        3 * self.cell_count() as usize
    }

    /// Zobrist key of a board.
    fn compute_key(&self, cells: &Vec<u8>, to_move: Player) -> (k: u64)
        requires
            self.wf(),
            cells@.len() == self.n(),
            forall|c: int| 0 <= c < cells@.len() ==> #[trigger] cells@[c] <= 2,
        ensures
            k == self.key_of(cells@, to_move),
    {
        let board = zobrist_fold(&self.zobrist, 2, cells);
        let side: u64 = match to_move {
            Player::One => 0,
            Player::Two => self.zobrist_side,
        };
        board ^ side
    }

    /// Append the open forward step of the pawn on `from` by `dx`.
    fn push_step(&self, cells: &Vec<u8>, p: Player, from: u16, dx: i32, moves: &mut Vec<BreakthroughMove>)
        requires
            self.wf(),
            cells@.len() == self.n(),
            (from as int) < self.n(),
            -1 <= dx <= 1,
        ensures
            final(moves)@ == old(moves)@ + step_moves(
                cells@,
                self.width as int,
                self.height as int,
                p,
                from as int,
                dx as int,
            ),
    {
        let ghost w = self.width as int;
        let ghost h = self.height as int;
        proof {
            lemma_cell_coords(w, h, from as int);
        }
        let x = (from % self.width) as i32;
        let y = (from / self.width) as i32;
        let nx = x + dx;
        let ny = match p {
            Player::One => y + 1,
            Player::Two => y - 1,
        };
        if nx < 0 || nx >= self.width as i32 || ny < 0 || ny >= self.height as i32 {
            assert(step_moves(cells@, w, h, p, from as int, dx as int) =~= Seq::empty());
            assert(moves@ =~= old(moves)@ + Seq::empty());
            return;
        }
        proof {
            lemma_cell_index(w, h, nx as int, ny as int);
        }
        let to = (ny * self.width as i32 + nx) as u16;
        let target = cells[to as usize];
        let open = if dx == 0 {
            target == EMPTY
        } else {
            target != code_of(p)
        };
        if open {
            moves.push(BreakthroughMove { from, to });
        } else {
            assert(step_moves(cells@, w, h, p, from as int, dx as int) =~= Seq::empty());
            assert(moves@ =~= old(moves)@ + Seq::empty());
        }
    }

    /// Append every move of the pawn on `from`.
    fn push_pawn_moves(&self, cells: &Vec<u8>, p: Player, from: u16, moves: &mut Vec<BreakthroughMove>)
        requires
            self.wf(),
            cells@.len() == self.n(),
            (from as int) < self.n(),
        ensures
            final(moves)@ == old(moves)@ + pawn_moves(
                cells@,
                self.width as int,
                self.height as int,
                p,
                from as int,
            ),
    {
        self.push_step(cells, p, from, -1, moves);
        self.push_step(cells, p, from, 0, moves);
        self.push_step(cells, p, from, 1, moves);
        proof {
            let w = self.width as int;
            let h = self.height as int;
            assert(final(moves)@ =~= old(moves)@ + pawn_moves(cells@, w, h, p, from as int));
        }
    }

    /// Append all moves of `p`.
    fn generate(&self, cells: &Vec<u8>, p: Player, moves: &mut Vec<BreakthroughMove>)
        requires
            self.wf(),
            cells@.len() == self.n(),
        ensures
            final(moves)@ == old(moves)@ + self.live(cells@, p),
    {
        let ghost w = self.width as int;
        let ghost h = self.height as int;
        let ghost start = moves@;
        let own = code_of(p);
        let n = cells.len();
        let mut cell: usize = 0;
        while cell < n
            invariant
                self.wf(),
                n == cells@.len(),
                n == self.n(),
                w == self.width,
                h == self.height,
                own == cell_code(p),
                cell <= n,
                moves@ == start + bt_moves(cells@, w, h, p, cell as int),
            decreases n - cell,
        {
            if cells[cell] == own {
                self.push_pawn_moves(cells, p, cell as u16, moves);
            }
            proof {
                assert(moves@ =~= start + bt_moves(cells@, w, h, p, cell + 1));
            }
            cell += 1;
        }
    }

    /// Does `p` have at least one legal move?
    fn has_any_move_on(&self, cells: &Vec<u8>, p: Player) -> (r: bool)
        requires
            self.wf(),
            cells@.len() == self.n(),
        ensures
            r == (self.live(cells@, p).len() > 0),
    {
        let ghost w = self.width as int;
        let ghost h = self.height as int;
        let own = code_of(p);
        let n = cells.len();
        let mut cell: usize = 0;
        while cell < n
            invariant
                self.wf(),
                n == cells@.len(),
                n == self.n(),
                w == self.width,
                h == self.height,
                own == cell_code(p),
                cell <= n,
                bt_moves(cells@, w, h, p, cell as int).len() == 0,
            decreases n - cell,
        {
            if cells[cell] == own {
                let mut scratch: Vec<BreakthroughMove> = Vec::new();
                self.push_pawn_moves(cells, p, cell as u16, &mut scratch);
                if scratch.len() > 0 {
                    proof {
                        lemma_bt_moves_mono(cells@, w, h, p, cell + 1, n as int);
                    }
                    return true;
                }
            }
            cell += 1;
        }
        false
    }

    /// Cell index in the side-to-move frame: Player Two sees the board
    /// mirrored vertically so "forward" is always +y.
    pub fn perspective_cell(&self, cell: u16, p: Player) -> (r: u16)
        requires
            self.wf(),
            (cell as int) < self.n(),
        ensures
            r == perspective(self.spec_width(), self.spec_height(), p, cell as int),
            (r as int) < self.n(),
    {
        proof {
            lemma_cell_coords(self.width as int, self.height as int, cell as int);
        }
        match p {
            Player::One => cell,
            Player::Two => {
                let x = cell % self.width;
                let y = cell / self.width;
                proof {
                    lemma_cell_index(self.width as int, self.height as int, x as int, self.height - 1 - y);
                }
                (self.height - 1 - y) * self.width + x
            },
        }
    }

    /// The cells of a state: `0` empty, `1` Player One, `2` Player Two.
    pub fn cells<'a>(&self, state: &'a BreakthroughState) -> (r: &'a Vec<u8>)
        ensures
            r@ == self.model(state).cells,
    {
        &state.cells
    }

    /// Does the side to move have a legal move?
    pub fn has_any_move(&self, state: &BreakthroughState) -> (r: bool)
        requires
            self.wf(),
            self.valid(self.model(state)),
        ensures
            r == (self.live(self.model(state).cells, self.model(state).to_move).len() > 0),
    {
        self.has_any_move_on(&state.cells, state.to_move)
    }

    /// Build an arbitrary position (tests and diagnostics). Validates
    /// pawn placement (in bounds, no pawn on the opponent's home rank,
    /// no cell used twice) and computes the derived fields, including
    /// the no-move loss rule.
    pub fn custom_state(&self, pawns: &[(u16, Player)], to_move: Player) -> (r: Result<
        BreakthroughState,
        String,
    >)
        requires
            self.wf(),
        ensures
            r is Ok <==> pawns_ok(pawns@, self.spec_width(), self.spec_height(), pawns@.len() as int),
            r matches Ok(s) ==> {
                &&& self.model(&s) == self.custom_model(
                    placed(pawns@, self.n() as nat, pawns@.len() as int),
                    to_move,
                )
                &&& self.valid(self.model(&s))
            },
    {
        let ghost w = self.width as int;
        let ghost h = self.height as int;
        let n = self.cell_count() as usize;
        let mut cells: Vec<u8> = Vec::new();
        let mut c: usize = 0;
        while c < n
            invariant
                c <= n,
                cells@ =~= Seq::new(c as nat, |j: int| 0u8),
            decreases n - c,
        {
            cells.push(EMPTY);
            c += 1;
        }
        assert(cells@ =~= placed(pawns@, n as nat, 0));
        let mut k: usize = 0;
        while k < pawns.len()
            invariant
                self.wf(),
                n == self.n(),
                w == self.width,
                h == self.height,
                k <= pawns@.len(),
                cells@ == placed(pawns@, n as nat, k as int),
                pawns_ok(pawns@, w, h, k as int),
            decreases pawns@.len() - k,
        {
            let (cell, player) = pawns[k];
            proof {
                lemma_placed(pawns@, n as nat, k as int);
            }
            if cell as usize >= n {
                proof {
                    if pawns_ok(pawns@, w, h, pawns@.len() as int) {
                        lemma_pawns_ok_prefix(pawns@, w, h, k + 1, pawns@.len() as int);
                    }
                }
                return Err(text_number_text("cell ", cell as u64, " out of bounds"));
            }
            let y = cell / self.width;
            if (player == Player::One && y == self.height - 1) || (player == Player::Two && y == 0) {
                proof {
                    if pawns_ok(pawns@, w, h, pawns@.len() as int) {
                        lemma_pawns_ok_prefix(pawns@, w, h, k + 1, pawns@.len() as int);
                    }
                }
                return Err(text_number_text("pawn on opponent home rank at cell ", cell as u64, ""));
            }
            if cells[cell as usize] != EMPTY {
                proof {
                    if pawns_ok(pawns@, w, h, pawns@.len() as int) {
                        lemma_pawns_ok_prefix(pawns@, w, h, k + 1, pawns@.len() as int);
                    }
                }
                return Err(text_number_text("cell ", cell as u64, " occupied twice"));
            }
            cells.set(cell as usize, code_of(player));
            k += 1;
        }
        proof {
            lemma_placed(pawns@, n as nat, k as int);
        }
        let key = self.compute_key(&cells, to_move);
        let ones = count_cells(&cells, 1);
        let twos = count_cells(&cells, 2);
        let outcome = if !self.has_any_move_on(&cells, to_move) {
            Some(Outcome::Win(to_move.opponent()))
        } else {
            None
        };
        Ok(BreakthroughState { cells, to_move, key, pawns: [ones, twos], outcome })
    }

    /// Facts about a legal move of a valid position.
    proof fn lemma_move_facts(&self, m: BreakthroughModel, mv: BreakthroughMove)
        requires
            self.wf(),
            self.valid(m),
            self.moves(m).contains(mv),
        ensures
            legal_step(m.cells, self.width as int, self.height as int, m.to_move, mv),
            mv.from != mv.to,
            m.cells[mv.to as int] != cell_code(m.to_move),
            m.cells[mv.to as int] <= 2,
    {
        let w = self.width as int;
        let h = self.height as int;
        lemma_bt_moves(m.cells, w, h, m.to_move, self.n());
        let k = choose|k: int| 0 <= k < self.moves(m).len() && self.moves(m)[k] == mv;
        assert(legal_step(m.cells, w, h, m.to_move, self.moves(m)[k]));
    }
}

impl Game for Breakthrough {
    type State = BreakthroughState;
    type Move = BreakthroughMove;
    type Undo = BreakthroughUndo;
    type UndoModel = BreakthroughUndo;
    type Model = BreakthroughModel;

    closed spec fn wf(&self) -> bool {
        &&& Self::parameters_ok(self.width, self.height, self.rows)
        &&& self.n() <= 65535
        &&& self.zobrist@.len() == 2 * self.n()
    }

    closed spec fn model(&self, s: &BreakthroughState) -> BreakthroughModel {
        BreakthroughModel {
            cells: s.cells@,
            to_move: s.to_move,
            key: s.key,
            pawns: (s.pawns[0] as nat, s.pawns[1] as nat),
            outcome: s.outcome,
        }
    }

    open spec fn valid(&self, m: BreakthroughModel) -> bool {
        &&& m.cells.len() == self.n()
        &&& forall|c: int| 0 <= c < m.cells.len() ==> #[trigger] m.cells[c] <= 2
        &&& m.key == self.key_of(m.cells, m.to_move)
        &&& m.pawns == self.counts(m.cells)
        &&& m.outcome is None ==> self.live(m.cells, m.to_move).len() > 0
    }

    open spec fn initial(&self) -> BreakthroughModel {
        let cells = start_cells(self.spec_width(), self.spec_height(), self.spec_rows());
        BreakthroughModel {
            cells,
            to_move: Player::One,
            key: self.key_of(cells, Player::One),
            pawns: self.counts(cells),
            outcome: None,
        }
    }

    open spec fn side(&self, m: BreakthroughModel) -> Player {
        m.to_move
    }

    open spec fn result(&self, m: BreakthroughModel) -> Option<Outcome> {
        m.outcome
    }

    open spec fn key(&self, m: BreakthroughModel) -> u64 {
        m.key
    }

    open spec fn moves(&self, m: BreakthroughModel) -> Seq<BreakthroughMove> {
        self.live(m.cells, m.to_move)
    }

    open spec fn next(&self, m: BreakthroughModel, mv: BreakthroughMove) -> BreakthroughModel {
        let p = m.to_move;
        let cells = m.cells.update(mv.from as int, 0).update(mv.to as int, cell_code(p));
        let reached = match p {
            Player::One => mv.to as int / self.spec_width() == self.spec_height() - 1,
            Player::Two => mv.to as int / self.spec_width() == 0,
        };
        BreakthroughModel {
            cells,
            to_move: p.other(),
            key: self.key_of(cells, p.other()),
            pawns: self.counts(cells),
            outcome: if reached || self.live(cells, p.other()).len() == 0 {
                Some(Outcome::Win(p))
            } else {
                None
            },
        }
    }

    open spec fn undo_model(&self, u: &BreakthroughUndo) -> BreakthroughUndo {
        *u
    }

    closed spec fn undo(&self, m: BreakthroughModel, mv: BreakthroughMove) -> BreakthroughUndo {
        BreakthroughUndo { captured: m.cells[mv.to as int], prev_outcome: m.outcome }
    }

    closed spec fn restore(
        &self,
        m: BreakthroughModel,
        mv: BreakthroughMove,
        u: BreakthroughUndo,
    ) -> BreakthroughModel {
        let p = m.to_move.other();
        let cells = m.cells.update(mv.to as int, u.captured).update(mv.from as int, cell_code(p));
        BreakthroughModel {
            cells,
            to_move: p,
            key: self.key_of(cells, p),
            pawns: self.counts(cells),
            outcome: u.prev_outcome,
        }
    }

    open spec fn features(&self, m: BreakthroughModel) -> Seq<FeatureId> {
        bt_features(m.cells, self.spec_width(), self.spec_height(), m.to_move, self.n())
    }

    open spec fn action(&self, m: BreakthroughModel, mv: BreakthroughMove) -> ActionId {
        let w = self.spec_width();
        let h = self.spec_height();
        (3 * perspective(w, h, m.to_move, mv.from as int) + (mv.to as int % w - mv.from as int % w) + 1) as ActionId
    }

    open spec fn tactical(&self, m: BreakthroughModel, mv: BreakthroughMove) -> bool {
        m.cells[mv.to as int] != 0
    }

    open spec fn acyclic(&self) -> bool {
        true
    }

    open spec fn height(&self, m: BreakthroughModel) -> nat {
        advance_sum(m.cells, self.spec_width(), self.spec_height(), self.n()) as nat
    }

    proof fn lemma_initial_valid(&self) {
        let w = self.width as int;
        let h = self.height as int;
        let r = self.rows as int;
        let cells = start_cells(w, h, r);
        let from = (r - 1) * w;
        lemma_cell_index(w, h, 0, r - 1);
        lemma_cell_index(w, h, 0, r);
        assert((r - 1) * w + w == r * w) by (nonlinear_arith);
        assert(cells[from] == 1);
        assert(cells[r * w] == 0);
        assert(step_moves(cells, w, h, Player::One, from, 0).len() == 1);
        assert(bt_moves(cells, w, h, Player::One, from + 1).len() > 0);
        lemma_bt_moves_mono(cells, w, h, Player::One, from + 1, self.n());
    }

    proof fn lemma_step(&self, m: BreakthroughModel, mv: BreakthroughMove) {
        self.lemma_move_facts(m, mv);
        let m2 = self.next(m, mv);
        let r = self.restore(m2, mv, self.undo(m, mv));
        assert(r.cells =~= m.cells);
        assert(r =~= m);
    }

    proof fn lemma_live_has_moves(&self, m: BreakthroughModel) {
    }

    proof fn lemma_height_decreases(&self, m: BreakthroughModel, mv: BreakthroughMove) {
        self.lemma_move_facts(m, mv);
        let w = self.width as int;
        let h = self.height as int;
        let from = mv.from as int;
        let to = mv.to as int;
        let mc = cell_code(m.to_move);
        let c1 = m.cells.update(from, 0);
        lemma_advance_update(m.cells, w, h, from, 0, self.n());
        lemma_advance_update(c1, w, h, to, mc, self.n());
        lemma_cell_coords(w, h, from);
        lemma_cell_coords(w, h, to);
        assert(c1[to] == m.cells[to]);
        let c2 = c1.update(to, mc);
        lemma_advance_bound(m.cells, w, h, self.n());
        lemma_advance_bound(c2, w, h, self.n());
        assert(self.next(m, mv).cells == c2);
        let fy = from / w;
        let ty = to / w;
        assert(0 <= ty < h);
        assert(advance_left(mc, ty, h) + 1 == advance_left(mc, fy, h));
        assert(advance_left(m.cells[to], ty, h) >= 0);
    }

    proof fn lemma_height_bounded(&self, m: BreakthroughModel) {
        let w = self.width as int;
        let h = self.height as int;
        lemma_advance_bound(m.cells, w, h, self.n());
        assert(self.n() * h <= 65535 * 65535) by (nonlinear_arith)
            requires
                self.n() <= 65535,
                h <= 65535,
                0 <= self.n(),
        ;
    }

    proof fn lemma_moves_bounded(&self, m: BreakthroughModel) {
        lemma_bt_moves(m.cells, self.width as int, self.height as int, m.to_move, self.n());
    }

    fn initial_state(&self) -> (s: BreakthroughState) {
        let ghost w = self.width as int;
        let ghost h = self.height as int;
        let ghost start = start_cells(w, h, self.rows as int);
        let n = self.cell_count() as usize;
        let mut cells: Vec<u8> = Vec::new();
        let mut c: usize = 0;
        while c < n
            invariant
                self.wf(),
                n == self.n(),
                w == self.width,
                h == self.height,
                start == start_cells(w, h, self.rows as int),
                c <= n,
                cells@ == start.subrange(0, c as int),
            decreases n - c,
        {
            let y = c as u16 / self.width;
            let code = if y < self.rows {
                1
            } else if y >= self.height - self.rows {
                2
            } else {
                EMPTY
            };
            cells.push(code);
            proof {
                assert(cells@ =~= start.subrange(0, c + 1));
            }
            c += 1;
        }
        assert(cells@ =~= start);
        let key = self.compute_key(&cells, Player::One);
        let ones = count_cells(&cells, 1);
        let twos = count_cells(&cells, 2);
        BreakthroughState { cells, to_move: Player::One, key, pawns: [ones, twos], outcome: None }
    }

    fn side_to_move(&self, state: &BreakthroughState) -> (p: Player) {
        state.to_move
    }

    fn legal_moves(&self, state: &BreakthroughState, moves: &mut Vec<BreakthroughMove>) {
        moves.clear();
        self.generate(&state.cells, state.to_move, moves);
        assert(moves@ =~= self.live(state.cells@, state.to_move));
    }

    fn make_move(&self, state: &mut BreakthroughState, mv: BreakthroughMove) -> (u: BreakthroughUndo) {
        let ghost m = self.model(state);
        let ghost w = self.width as int;
        let ghost h = self.height as int;
        proof {
            self.lemma_move_facts(m, mv);
        }
        let mover = state.to_move;
        let mc = code_of(mover);
        let from = mv.from as usize;
        let to = mv.to as usize;
        let captured = state.cells[to];
        let undo = BreakthroughUndo { captured, prev_outcome: state.outcome };
        let zfrom = self.zobrist[2 * from + mc as usize - 1];
        let zcap: u64 = if captured != EMPTY {
            self.zobrist[2 * to + captured as usize - 1]
        } else {
            0
        };
        let zto = self.zobrist[2 * to + mc as usize - 1];
        let ghost c1 = m.cells.update(from as int, 0);
        let ghost c2 = c1.update(to as int, mc);
        proof {
            lemma_zfold_update(self.zobrist@, 2, m.cells, from as int, 0, self.n());
            lemma_zfold_update(self.zobrist@, 2, c1, to as int, mc, self.n());
            assert(c1[to as int] == captured);
            assert(zterm(self.zobrist@, 2, from as int, mc) == zfrom);
            assert(zterm(self.zobrist@, 2, to as int, captured) == zcap);
            assert(zterm(self.zobrist@, 2, to as int, mc) == zto);
            assert(zterm(self.zobrist@, 2, from as int, 0) == 0);
            let f = zfold(self.zobrist@, 2, m.cells, self.n());
            let s = self.zobrist_side;
            let k = state.key;
            if mover == Player::One {
                assert(k == f ^ 0u64);
                assert((k ^ zfrom ^ zcap ^ zto ^ s) == (f ^ zfrom ^ 0u64 ^ zcap ^ zto) ^ s) by (bit_vector)
                    requires
                        k == f ^ 0u64,
                ;
            } else {
                assert(k == f ^ s);
                assert((k ^ zfrom ^ zcap ^ zto ^ s) == (f ^ zfrom ^ 0u64 ^ zcap ^ zto) ^ 0u64) by (bit_vector)
                    requires
                        k == f ^ s,
                ;
            }
        }
        state.cells.set(from, EMPTY);
        state.cells.set(to, mc);
        state.key = state.key ^ zfrom ^ zcap ^ zto ^ self.zobrist_side;
        proof {
            assert(state.cells@ == c2);
            lemma_count_code_update(m.cells, 1, from as int, 0, self.n());
            lemma_count_code_update(c1, 1, to as int, mc, self.n());
            lemma_count_code_update(m.cells, 2, from as int, 0, self.n());
            lemma_count_code_update(c1, 2, to as int, mc, self.n());
            if captured != EMPTY {
                lemma_count_code_pos(m.cells, captured, to as int, self.n());
            }
        }
        if captured != EMPTY {
            let p0 = state.pawns[0];
            let p1 = state.pawns[1];
            if slot_of(mover.opponent()) == 0 {
                state.pawns = [p0 - 1, p1];
            } else {
                state.pawns = [p0, p1 - 1];
            }
        }
        state.to_move = mover.opponent();
        let to_row = mv.to / self.width;
        let reached = match mover {
            Player::One => to_row == self.height - 1,
            Player::Two => to_row == 0,
        };
        state.outcome = if reached || !self.has_any_move_on(&state.cells, state.to_move) {
            Some(Outcome::Win(mover))
        } else {
            None
        };
        proof {
            assert(self.model(state) =~= self.next(m, mv));
        }
        undo
    }

    fn unmake_move(&self, state: &mut BreakthroughState, mv: BreakthroughMove, u: BreakthroughUndo) {
        let ghost p = choose|p: BreakthroughModel|
            #![trigger self.next(p, mv)]
            {
                &&& self.valid(p)
                &&& self.result(p) is None
                &&& self.moves(p).contains(mv)
                &&& self.next(p, mv) == self.model(state)
                &&& self.undo(p, mv) == self.undo_model(&u)
            };
        let ghost m = self.model(state);
        proof {
            self.lemma_move_facts(p, mv);
        }
        let mover = state.to_move.opponent();
        let mc = code_of(mover);
        let from = mv.from as usize;
        let to = mv.to as usize;
        let captured = u.captured;
        let zfrom = self.zobrist[2 * from + mc as usize - 1];
        let zcap: u64 = if captured != EMPTY {
            self.zobrist[2 * to + captured as usize - 1]
        } else {
            0
        };
        let zto = self.zobrist[2 * to + mc as usize - 1];
        let ghost c1 = m.cells.update(to as int, captured);
        let ghost c2 = c1.update(from as int, mc);
        proof {
            lemma_zfold_update(self.zobrist@, 2, m.cells, to as int, captured, self.n());
            lemma_zfold_update(self.zobrist@, 2, c1, from as int, mc, self.n());
            assert(m.cells[to as int] == mc);
            assert(c1[from as int] == 0);
            assert(zterm(self.zobrist@, 2, from as int, mc) == zfrom);
            assert(zterm(self.zobrist@, 2, to as int, captured) == zcap);
            assert(zterm(self.zobrist@, 2, to as int, mc) == zto);
            assert(zterm(self.zobrist@, 2, from as int, 0) == 0);
            let f = zfold(self.zobrist@, 2, m.cells, self.n());
            let s = self.zobrist_side;
            let k = state.key;
            if mover == Player::Two {
                assert(k == f ^ 0u64);
                assert((k ^ zto ^ zcap ^ zfrom ^ s) == (f ^ zto ^ zcap ^ 0u64 ^ zfrom) ^ s) by (bit_vector)
                    requires
                        k == f ^ 0u64,
                ;
            } else {
                assert(k == f ^ s);
                assert((k ^ zto ^ zcap ^ zfrom ^ s) == (f ^ zto ^ zcap ^ 0u64 ^ zfrom) ^ 0u64) by (bit_vector)
                    requires
                        k == f ^ s,
                ;
            }
        }
        state.cells.set(to, captured);
        state.cells.set(from, mc);
        state.key = state.key ^ zto ^ zcap ^ zfrom ^ self.zobrist_side;
        proof {
            assert(state.cells@ == c2);
            lemma_count_code_update(m.cells, 1, to as int, captured, self.n());
            lemma_count_code_update(c1, 1, from as int, mc, self.n());
            lemma_count_code_update(m.cells, 2, to as int, captured, self.n());
            lemma_count_code_update(c1, 2, from as int, mc, self.n());
            lemma_count_code_bounds(c2, 1, self.n());
            lemma_count_code_bounds(c2, 2, self.n());
        }
        if captured != EMPTY {
            let p0 = state.pawns[0];
            let p1 = state.pawns[1];
            if slot_of(mover.opponent()) == 0 {
                state.pawns = [p0 + 1, p1];
            } else {
                state.pawns = [p0, p1 + 1];
            }
        }
        state.to_move = mover;
        state.outcome = u.prev_outcome;
        proof {
            assert(self.model(state) =~= self.restore(m, mv, u));
        }
    }

    fn outcome(&self, state: &BreakthroughState) -> (o: Option<Outcome>) {
        state.outcome
    }

    fn position_key(&self, state: &BreakthroughState) -> (k: u64) {
        state.key
    }

    fn encode_features(&self, state: &BreakthroughState, features: &mut Vec<FeatureId>) {
        features.clear();
        let ghost w = self.width as int;
        let ghost h = self.height as int;
        let own = code_of(state.to_move);
        let n = state.cells.len();
        let mut pcell: usize = 0;
        while pcell < n
            invariant
                self.wf(),
                n == state.cells@.len(),
                n == self.n(),
                w == self.width,
                h == self.height,
                pcell <= n,
                own == cell_code(state.to_move),
                features@ == bt_features(state.cells@, w, h, state.to_move, pcell as int),
            decreases n - pcell,
        {
            let cell = self.perspective_cell(pcell as u16, state.to_move);
            let code = state.cells[cell as usize];
            if code != EMPTY {
                let relative: u32 = if code != own {
                    1
                } else {
                    0
                };
                features.push(2 * pcell as u32 + relative);
            }
            pcell += 1;
        }
    }

    fn action_id(&self, state: &BreakthroughState, mv: BreakthroughMove) -> (a: ActionId) {
        proof {
            self.lemma_move_facts(self.model(state), mv);
        }
        let from = self.perspective_cell(mv.from, state.to_move);
        let dx = (mv.to % self.width) as i32 - (mv.from % self.width) as i32;
        3 * from as u32 + (dx + 1) as u32
    }

    fn is_tactical(&self, state: &BreakthroughState, mv: BreakthroughMove) -> (t: bool) {
        proof {
            self.lemma_move_facts(self.model(state), mv);
        }
        state.cells[mv.to as usize] != EMPTY
    }

    fn clone_state(&self, state: &BreakthroughState) -> (c: BreakthroughState) {
        let cells = state.cells.clone();
        assert(cells@ =~= state.cells@);
        BreakthroughState {
            cells,
            to_move: state.to_move,
            key: state.key,
            pawns: [state.pawns[0], state.pawns[1]],
            outcome: state.outcome,
        }
    }

    fn same_move(&self, a: BreakthroughMove, b: BreakthroughMove) -> (r: bool) {
        a == b
    }
}

} // verus!
