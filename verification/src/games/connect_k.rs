//! Parameterized Connect-k on a `width` x `height` board.
//!
//! Players alternately place stones. The first player to own `k` contiguous
//! stones in a row, column, or diagonal wins; a full board is a draw.
//! With `gravity` on, a stone falls to the lowest empty cell of its column
//! (Connect Four). With `gravity` off, any empty cell may be played
//! (k-in-a-row / gomoku style).
//!
//! Cells are indexed `cell = y * width + x`, with row `y = 0` at the bottom.

use crate::game::{ActionId, FeatureId, Game, Outcome, Player};
use crate::games::grid::{
    cell_code, code_of, count_stones, lemma_cell_coords, lemma_cell_index, lemma_count_bounds,
    lemma_count_full, lemma_count_update, line_through, player_slot, run, slot_of,
};
use crate::zobrist::chacha12_u64s;
use vstd::prelude::*;

verus! {

/// Fixed seed for Zobrist key generation so position keys are stable
/// across processes and runs.
const ZOBRIST_SEED: u64 = 0x00c0_44ec_7a11_5eed;

const EMPTY: u8 = 0;

/// Rules object for one Connect-k parameterization.
pub struct ConnectK {
    width: u16,
    height: u16,
    k: u16,
    gravity: bool,
    /// `zobrist[2 * cell + player_slot]`
    zobrist: Vec<u64>,
    zobrist_side: u64,
}

/// A move: the destination cell index.
#[derive(Clone, Copy, PartialEq, Eq, PartialOrd, Ord, Debug, Structural)]
pub struct ConnectKMove(pub u16);

/// Board state. `cells[cell]` is `0` (empty), `1` (Player One) or
/// `2` (Player Two).
#[derive(Clone, PartialEq, Eq, Debug)]
pub struct ConnectKState {
    cells: Vec<u8>,
    to_move: Player,
    key: u64,
    stones: u32,
    outcome: Option<Outcome>,
}

/// Undo record for `unmake_move`.
pub struct ConnectKUndo {
    prev_outcome: Option<Outcome>,
}

/// Mathematical view of a Connect-k state.
#[verifier::ext_equal]
pub struct ConnectKModel {
    pub cells: Seq<u8>,
    pub to_move: Player,
    pub key: u64,
    pub stones: nat,
    pub outcome: Option<Outcome>,
}

/// Cell of the lowest empty square at or above row `y` of column `x`.
pub open spec fn column_bottom(cells: Seq<u8>, w: int, h: int, x: int, y: int) -> Option<int>
    decreases h - y,
{
    if y < 0 || y >= h {
        None
    } else if cells[y * w + x] == 0 {
        Some(y * w + x)
    } else {
        column_bottom(cells, w, h, x, y + 1)
    }
}

/// Gravity moves of columns `0..x`: each column's lowest empty cell.
pub open spec fn gravity_moves(cells: Seq<u8>, w: int, h: int, x: int) -> Seq<ConnectKMove>
    decreases x,
{
    if x <= 0 {
        Seq::empty()
    } else {
        let prev = gravity_moves(cells, w, h, x - 1);
        match column_bottom(cells, w, h, x - 1, 0) {
            Some(c) => prev.push(ConnectKMove(c as u16)),
            None => prev,
        }
    }
}

/// Free-placement moves among cells `0..i`: every empty cell in order.
pub open spec fn free_moves(cells: Seq<u8>, i: int) -> Seq<ConnectKMove>
    decreases i,
{
    if i <= 0 {
        Seq::empty()
    } else {
        let prev = free_moves(cells, i - 1);
        if cells[i - 1] == 0 {
            prev.push(ConnectKMove((i - 1) as u16))
        } else {
            prev
        }
    }
}

/// Side-relative occupancy features of cells `0..i`: `2 * cell` for an
/// own stone, `2 * cell + 1` for an opponent stone.
pub open spec fn occupancy_features(cells: Seq<u8>, own: u8, i: int) -> Seq<FeatureId>
    decreases i,
{
    if i <= 0 {
        Seq::empty()
    } else {
        let prev = occupancy_features(cells, own, i - 1);
        if cells[i - 1] != 0 {
            prev.push((2 * (i - 1) + if cells[i - 1] != own { 1int } else { 0int }) as FeatureId)
        } else {
            prev
        }
    }
}

/// Is the cell at row `y` of column `x` empty?
pub open spec fn empty_at(cells: Seq<u8>, w: int, x: int, y: int) -> bool {
    cells[y * w + x] == 0
}

/// Character of a cell code in the ASCII board.
pub open spec fn stone_char(code: u8) -> char {
    if code == 1 {
        'X'
    } else if code == 2 {
        'O'
    } else {
        '.'
    }
}

/// Characters of cells `0..x` of row `y`.
pub open spec fn row_text(cells: Seq<u8>, w: int, y: int, x: int) -> Seq<char>
    decreases x,
{
    if x <= 0 {
        Seq::empty()
    } else {
        row_text(cells, w, y, x - 1).push(stone_char(cells[y * w + x - 1]))
    }
}

/// The top `k` rows of the board, top row first, each ended by a newline.
pub open spec fn board_text(cells: Seq<u8>, w: int, h: int, k: int) -> Seq<char>
    decreases k,
{
    if k <= 0 {
        Seq::empty()
    } else {
        board_text(cells, w, h, k - 1) + row_text(cells, w, h - k, w).push('\n')
    }
}

proof fn lemma_column_bottom(cells: Seq<u8>, w: int, h: int, x: int, y: int)
    requires
        0 <= x < w,
        0 <= y,
        cells.len() == w * h,
    ensures
        column_bottom(cells, w, h, x, y) matches Some(c) ==> {
            &&& 0 <= c < w * h
            &&& c % w == x
            &&& cells[c] == 0
            &&& y * w + x <= c
        },
        (exists|yy: int| y <= yy < h && #[trigger] empty_at(cells, w, x, yy)) ==> column_bottom(
            cells,
            w,
            h,
            x,
            y,
        ) is Some,
    decreases h - y,
{
    if y < h {
        lemma_cell_index(w, h, x, y);
        if cells[y * w + x] != 0 {
            lemma_column_bottom(cells, w, h, x, y + 1);
            assert((y + 1) * w + x == y * w + x + w) by (nonlinear_arith);
            if exists|yy: int| y <= yy < h && #[trigger] empty_at(cells, w, x, yy) {
                let yy = choose|yy: int| y <= yy < h && #[trigger] empty_at(cells, w, x, yy);
                assert(yy != y);
                assert(y + 1 <= yy < h && empty_at(cells, w, x, yy));
            }
        }
    }
}

proof fn lemma_gravity_moves(cells: Seq<u8>, w: int, h: int, x: int)
    requires
        0 <= x <= w,
        0 < h,
        w * h <= 65535,
        cells.len() == w * h,
    ensures
        forall|i: int|
            0 <= i < gravity_moves(cells, w, h, x).len() ==> {
                let c = #[trigger] gravity_moves(cells, w, h, x)[i].0 as int;
                &&& 0 <= c < w * h
                &&& c % w < x
                &&& cells[c] == 0
            },
        gravity_moves(cells, w, h, x).len() <= x,
        (exists|c: int| 0 <= c < w * h && c % w < x && cells[c] == 0) ==> gravity_moves(
            cells,
            w,
            h,
            x,
        ).len() > 0,
    decreases x,
{
    if x == 0 {
        if exists|c: int| 0 <= c < w * h && c % w < x && cells[c] == 0 {
            let c = choose|c: int| 0 <= c < w * h && c % w < x && cells[c] == 0;
            lemma_cell_coords(w, h, c);
        }
    }
    if x > 0 {
        lemma_gravity_moves(cells, w, h, x - 1);
        lemma_column_bottom(cells, w, h, x - 1, 0);
        if exists|c: int| 0 <= c < w * h && c % w < x && cells[c] == 0 {
            let c = choose|c: int| 0 <= c < w * h && c % w < x && cells[c] == 0;
            if c % w == x - 1 {
                let yy = c / w;
                lemma_cell_coords(w, h, c);
                assert(0 <= yy < h && empty_at(cells, w, x - 1, yy));
                assert(column_bottom(cells, w, h, x - 1, 0) is Some);
            } else {
                assert(0 <= c < w * h && c % w < x - 1 && cells[c] == 0);
                assert(gravity_moves(cells, w, h, x - 1).len() > 0);
            }
        }
        let prev = gravity_moves(cells, w, h, x - 1);
        match column_bottom(cells, w, h, x - 1, 0) {
            Some(c) => {
                assert forall|i: int| 0 <= i < prev.push(ConnectKMove(c as u16)).len() implies {
                    let cc = #[trigger] prev.push(ConnectKMove(c as u16))[i].0 as int;
                    &&& 0 <= cc < w * h
                    &&& cc % w < x
                    &&& cells[cc] == 0
                } by {
                    if i < prev.len() {
                        assert(prev.push(ConnectKMove(c as u16))[i] == prev[i]);
                    }
                }
            },
            None => {},
        }
    }
}

proof fn lemma_free_moves(cells: Seq<u8>, i: int)
    requires
        0 <= i <= cells.len(),
        cells.len() <= 65536,
    ensures
        forall|j: int|
            0 <= j < free_moves(cells, i).len() ==> {
                let c = #[trigger] free_moves(cells, i)[j].0 as int;
                &&& 0 <= c < i
                &&& cells[c] == 0
            },
        free_moves(cells, i).len() <= i,
        (exists|c: int| 0 <= c < i && cells[c] == 0) ==> free_moves(cells, i).len() > 0,
    decreases i,
{
    if i > 0 {
        lemma_free_moves(cells, i - 1);
        let prev = free_moves(cells, i - 1);
        if cells[i - 1] == 0 {
            assert forall|j: int| 0 <= j < prev.push(ConnectKMove((i - 1) as u16)).len() implies {
                let c = #[trigger] prev.push(ConnectKMove((i - 1) as u16))[j].0 as int;
                &&& 0 <= c < i
                &&& cells[c] == 0
            } by {
                if j < prev.len() {
                    assert(prev.push(ConnectKMove((i - 1) as u16))[j] == prev[j]);
                }
            }
        }
    }
}

proof fn lemma_occupancy_len(cells: Seq<u8>, own: u8, i: int)
    requires
        0 <= i,
    ensures
        occupancy_features(cells, own, i).len() <= i,
    decreases i,
{
    if i > 0 {
        lemma_occupancy_len(cells, own, i - 1);
    }
}

impl ConnectK {
    /// Number of cells.
    pub open spec fn n(&self) -> int {
        self.spec_width() * self.spec_height()
    }

    pub closed spec fn spec_width(&self) -> int {
        self.width as int
    }

    pub closed spec fn spec_height(&self) -> int {
        self.height as int
    }

    pub closed spec fn spec_k(&self) -> int {
        self.k as int
    }

    pub closed spec fn spec_gravity(&self) -> bool {
        self.gravity
    }

    /// The rule parameters that `new` accepts.
    pub open spec fn parameters_ok(width: u16, height: u16, k: u16) -> bool {
        &&& width > 0
        &&& height > 0
        &&& k >= 2
        &&& !(k > width && k > height)
    }

    /// Legal moves of a non-terminal board.
    pub open spec fn live_moves(&self, cells: Seq<u8>) -> Seq<ConnectKMove> {
        if self.spec_gravity() {
            gravity_moves(cells, self.spec_width(), self.spec_height(), self.spec_width())
        } else {
            free_moves(cells, self.n())
        }
    }

    /// Longest same-owner line through `cell` after playing it.
    pub open spec fn line_at(&self, cells: Seq<u8>, cell: int) -> nat {
        line_through(cells, self.spec_width(), self.spec_height(), cell)
    }

    pub closed spec fn zkey(&self, cell: int, p: Player) -> u64 {
        self.zobrist@[2 * cell + player_slot(p)]
    }

    pub closed spec fn zside(&self) -> u64 {
        self.zobrist_side
    }

    /// Rejects degenerate parameters; otherwise builds the rules object
    /// with Zobrist keys drawn from the fixed seed. Boards are limited to
    /// cell indices that fit `u16`.
    pub fn new(width: u16, height: u16, k: u16, gravity: bool) -> (r: Result<ConnectK, String>)
        requires
            width as int * height as int <= 65535,
        ensures
            r is Ok <==> Self::parameters_ok(width, height, k),
            r matches Ok(g) ==> {
                &&& g.wf()
                &&& g.spec_width() == width
                &&& g.spec_height() == height
                &&& g.spec_k() == k
                &&& g.spec_gravity() == gravity
            },
    {
        if width == 0 || height == 0 {
            return Err(String::from_str("board has no cells"));
        }
        if k < 2 {
            return Err(String::from_str("k is trivial; require k >= 2"));
        }
        if k > width && k > height {
            return Err(String::from_str("k exceeds both board dimensions"));
        }
        let cells = width as usize * height as usize;
        let draws = chacha12_u64s(ZOBRIST_SEED, 2 * cells + 1);
        let mut zobrist: Vec<u64> = Vec::new();
        let mut i: usize = 0;
        while i < 2 * cells
            invariant
                cells <= 65535,
                i <= 2 * cells,
                draws@.len() == 2 * cells + 1,
                zobrist@ == draws@.subrange(0, i as int),
            decreases 2 * cells - i,
        {
            zobrist.push(draws[i]);
            i += 1;
        }
        let zobrist_side = draws[2 * cells];
        Ok(ConnectK { width, height, k, gravity, zobrist, zobrist_side })
    }

    pub fn width(&self) -> (w: u16)
        ensures
            w == self.spec_width(),
    {
        self.width
    }

    /// Line length that wins.
    pub fn k(&self) -> (k: u16)
        ensures
            k == self.spec_k(),
    {
        self.k
    }

    /// ASCII rendering for logs and debugging: rows top-down, `X` for
    /// Player One, `O` for Player Two, `.` for empty cells.
    pub fn render(&self, state: &ConnectKState) -> (out: String)
        requires
            self.wf(),
            self.valid(self.model(state)),
        ensures
            out@ == board_text(self.model(state).cells, self.spec_width(), self.spec_height(), self.spec_height()),
    {
        let ghost cells = state.cells@;
        let ghost w = self.width as int;
        let ghost h = self.height as int;
        let mut out = String::new();
        let mut k: u16 = 0;
        while k < self.height
            invariant
                self.wf(),
                cells == state.cells@,
                cells.len() == self.n(),
                w == self.width,
                h == self.height,
                k <= self.height,
                out@ == board_text(cells, w, h, k as int),
            decreases self.height - k,
        {
            let y = self.height - 1 - k;
            let ghost before = out@;
            let mut x: u16 = 0;
            while x < self.width
                invariant
                    self.wf(),
                    cells == state.cells@,
                    cells.len() == self.n(),
                    w == self.width,
                    h == self.height,
                    y < self.height,
                    x <= self.width,
                    out@ == before + row_text(cells, w, y as int, x as int),
                decreases self.width - x,
            {
                proof {
                    lemma_cell_index(w, h, x as int, y as int);
                }
                let code = state.cells[(y * self.width + x) as usize];
                if code == 1 {
                    out.append("X");
                    proof { reveal_strlit("X"); }
                } else if code == 2 {
                    out.append("O");
                    proof { reveal_strlit("O"); }
                } else {
                    out.append(".");
                    proof { reveal_strlit("."); }
                }
                proof {
                    assert(out@ =~= before + row_text(cells, w, y as int, x + 1));
                }
                x += 1;
            }
            out.append("\n");
            proof {
                reveal_strlit("\n");
                assert(out@ =~= board_text(cells, w, h, k + 1));
            }
            k += 1;
        }
        out
    }

    /// The cell codes of a state.
    pub fn cells<'a>(&self, state: &'a ConnectKState) -> (r: &'a Vec<u8>)
        ensures
            r@ == self.model(state).cells,
    {
        &state.cells
    }

    /// Number of stones on the board.
    pub fn stone_count(&self, state: &ConnectKState) -> (r: u32)
        ensures
            r == self.model(state).stones,
    {
        state.stones
    }

    pub fn height(&self) -> (h: u16)
        ensures
            h == self.spec_height(),
    {
        self.height
    }

    pub fn cell_count(&self) -> (n: u32)
        ensures
            n == self.n(),
    {
        let w = self.width as u32;
        let h = self.height as u32;
        assert(w * h <= 65535 * 65535) by (nonlinear_arith)
            requires
                w <= 65535,
                h <= 65535,
        ;
        w * h
    }
}


impl ConnectK {
    /// Longest same-owner line through the occupied `cell`.
    pub fn longest_line_through(&self, cells: &Vec<u8>, cell: u16) -> (best: u32)
        requires
            self.wf(),
            cells@.len() == self.n(),
            cell < self.n(),
        ensures
            best == self.line_at(cells@, cell as int),
    {
        let w = self.width as i32;
        let h = self.height as i32;
        proof {
            lemma_cell_coords(w as int, h as int, cell as int);
        }
        let x = (cell % self.width) as i32;
        let y = (cell / self.width) as i32;
        let o = cells[cell as usize];
        let a = 1 + run(cells, w, h, x + 1, y, 1, 0, o) + run(cells, w, h, x - 1, y, -1, 0, o);
        let b = 1 + run(cells, w, h, x, y + 1, 0, 1, o) + run(cells, w, h, x, y - 1, 0, -1, o);
        let c = 1 + run(cells, w, h, x + 1, y + 1, 1, 1, o) + run(cells, w, h, x - 1, y - 1, -1, -1, o);
        let d = 1 + run(cells, w, h, x + 1, y - 1, 1, -1, o) + run(cells, w, h, x - 1, y + 1, -1, 1, o);
        let mut best = a;
        if b > best {
            best = b;
        }
        if c > best {
            best = c;
        }
        if d > best {
            best = d;
        }
        best
    }

    /// Facts about every generated move of a board.
    proof fn lemma_live_moves(&self, cells: Seq<u8>)
        requires
            self.wf(),
            cells.len() == self.n(),
        ensures
            forall|i: int|
                0 <= i < self.live_moves(cells).len() ==> {
                    let c = #[trigger] self.live_moves(cells)[i].0 as int;
                    &&& 0 <= c < self.n()
                    &&& cells[c] == 0
                },
            self.live_moves(cells).len() <= self.n(),
            (exists|c: int| 0 <= c < self.n() && cells[c] == 0) ==> self.live_moves(cells).len()
                > 0,
    {
        let w = self.width as int;
        let h = self.height as int;
        if self.gravity {
            lemma_gravity_moves(cells, w, h, w);
            assert(w <= self.n()) by (nonlinear_arith)
                requires
                    h >= 1,
                    w >= 0,
                    self.n() == w * h,
            ;
            if exists|c: int| 0 <= c < self.n() && cells[c] == 0 {
                let c = choose|c: int| 0 <= c < self.n() && cells[c] == 0;
                lemma_cell_coords(w, h, c);
                assert(0 <= c < w * h && c % w < w && cells[c] == 0);
            }
        } else {
            lemma_free_moves(cells, self.n());
        }
    }
}

impl Game for ConnectK {
    type State = ConnectKState;
    type Move = ConnectKMove;
    type Undo = ConnectKUndo;
    type UndoModel = ConnectKUndo;
    type Model = ConnectKModel;

    closed spec fn wf(&self) -> bool {
        &&& Self::parameters_ok(self.width, self.height, self.k)
        &&& self.n() <= 65535
        &&& self.zobrist@.len() == 2 * self.n()
    }

    closed spec fn model(&self, s: &ConnectKState) -> ConnectKModel {
        ConnectKModel {
            cells: s.cells@,
            to_move: s.to_move,
            key: s.key,
            stones: s.stones as nat,
            outcome: s.outcome,
        }
    }

    open spec fn valid(&self, m: ConnectKModel) -> bool {
        &&& m.cells.len() == self.n()
        &&& m.stones == count_stones(m.cells, self.n())
        &&& m.outcome is None ==> m.stones < self.n()
    }

    open spec fn initial(&self) -> ConnectKModel {
        ConnectKModel {
            cells: Seq::new(self.n() as nat, |i: int| 0u8),
            to_move: Player::One,
            key: 0,
            stones: 0,
            outcome: None,
        }
    }

    open spec fn side(&self, m: ConnectKModel) -> Player {
        m.to_move
    }

    open spec fn result(&self, m: ConnectKModel) -> Option<Outcome> {
        m.outcome
    }

    open spec fn key(&self, m: ConnectKModel) -> u64 {
        m.key
    }

    open spec fn moves(&self, m: ConnectKModel) -> Seq<ConnectKMove> {
        if m.outcome is Some {
            Seq::empty()
        } else {
            self.live_moves(m.cells)
        }
    }

    open spec fn next(&self, m: ConnectKModel, mv: ConnectKMove) -> ConnectKModel {
        let c = mv.0 as int;
        let p = m.to_move;
        let cells = m.cells.update(c, cell_code(p));
        let stones = m.stones + 1;
        ConnectKModel {
            cells,
            to_move: p.other(),
            key: m.key ^ self.zkey(c, p) ^ self.zside(),
            stones,
            outcome: if self.line_at(cells, c) >= self.spec_k() {
                Some(Outcome::Win(p))
            } else if stones == self.n() {
                Some(Outcome::Draw)
            } else {
                None
            },
        }
    }

    open spec fn undo_model(&self, u: &ConnectKUndo) -> ConnectKUndo {
        *u
    }

    closed spec fn undo(&self, m: ConnectKModel, mv: ConnectKMove) -> ConnectKUndo {
        ConnectKUndo { prev_outcome: m.outcome }
    }

    closed spec fn restore(&self, m: ConnectKModel, mv: ConnectKMove, u: ConnectKUndo) -> ConnectKModel {
        let c = mv.0 as int;
        let p = m.to_move.other();
        ConnectKModel {
            cells: m.cells.update(c, 0),
            to_move: p,
            key: m.key ^ self.zkey(c, p) ^ self.zside(),
            stones: (m.stones - 1) as nat,
            outcome: u.prev_outcome,
        }
    }

    open spec fn features(&self, m: ConnectKModel) -> Seq<FeatureId> {
        occupancy_features(m.cells, cell_code(m.to_move), self.n())
    }

    open spec fn action(&self, m: ConnectKModel, mv: ConnectKMove) -> ActionId {
        if self.spec_gravity() {
            (mv.0 as int % self.spec_width()) as ActionId
        } else {
            mv.0 as ActionId
        }
    }

    open spec fn tactical(&self, m: ConnectKModel, mv: ConnectKMove) -> bool {
        false
    }

    open spec fn acyclic(&self) -> bool {
        true
    }

    open spec fn height(&self, m: ConnectKModel) -> nat {
        (self.n() - m.stones) as nat
    }

    proof fn lemma_initial_valid(&self) {
        let m = self.initial();
        assert(self.n() > 0) by (nonlinear_arith)
            requires
                self.width > 0,
                self.height > 0,
                self.n() == self.width as int * self.height as int,
        ;
        assert forall|i: int| 0 <= i <= self.n() implies count_stones(m.cells, i) == 0 by {
            lemma_zero_count(m.cells, i);
        }
    }

    proof fn lemma_step(&self, m: ConnectKModel, mv: ConnectKMove) {
        self.lemma_live_moves(m.cells);
        let i = choose|i: int| 0 <= i < self.moves(m).len() && self.moves(m)[i] == mv;
        let c = mv.0 as int;
        assert(0 <= c < self.n() && m.cells[c] == 0);
        let p = m.to_move;
        lemma_count_update(m.cells, c, cell_code(p), self.n());
        lemma_count_bounds(m.cells.update(c, cell_code(p)), self.n());
        let m2 = self.next(m, mv);
        let r = self.restore(m2, mv, self.undo(m, mv));
        assert(r.cells =~= m.cells);
        let k = m.key;
        let a = self.zkey(c, p);
        let s = self.zside();
        assert(k ^ a ^ s ^ a ^ s == k) by (bit_vector);
        assert(r =~= m);
    }

    proof fn lemma_live_has_moves(&self, m: ConnectKModel) {
        lemma_count_full(m.cells, self.n());
        self.lemma_live_moves(m.cells);
    }

    proof fn lemma_height_decreases(&self, m: ConnectKModel, mv: ConnectKMove) {
    }

    proof fn lemma_moves_bounded(&self, m: ConnectKModel) {
        self.lemma_live_moves(m.cells);
    }

    proof fn lemma_height_bounded(&self, m: ConnectKModel) {
        lemma_count_bounds(m.cells, self.n());
    }

    fn initial_state(&self) -> (s: ConnectKState) {
        let n = self.cell_count() as usize;
        let mut cells: Vec<u8> = Vec::new();
        let mut i: usize = 0;
        while i < n
            invariant
                i <= n,
                cells@ =~= Seq::new(i as nat, |j: int| 0u8),
            decreases n - i,
        {
            cells.push(EMPTY);
            i += 1;
        }
        ConnectKState { cells, to_move: Player::One, key: 0, stones: 0, outcome: None }
    }

    fn side_to_move(&self, state: &ConnectKState) -> (p: Player) {
        state.to_move
    }

    fn legal_moves(&self, state: &ConnectKState, moves: &mut Vec<ConnectKMove>) {
        moves.clear();
        if state.outcome.is_some() {
            return;
        }
        let ghost cells = state.cells@;
        let ghost w = self.width as int;
        let ghost h = self.height as int;
        if self.gravity {
            let mut x: u16 = 0;
            while x < self.width
                invariant
                    self.wf(),
                    cells == state.cells@,
                    cells.len() == self.n(),
                    w == self.width,
                    h == self.height,
                    x <= self.width,
                    moves@ == gravity_moves(cells, w, h, x as int),
                decreases self.width - x,
            {
                let mut y: u16 = 0;
                loop
                    invariant_except_break
                        moves@ == gravity_moves(cells, w, h, x as int),
                    invariant
                        self.wf(),
                        cells == state.cells@,
                        cells.len() == self.n(),
                        w == self.width,
                        h == self.height,
                        x < self.width,
                        y <= self.height,
                        column_bottom(cells, w, h, x as int, 0) == column_bottom(
                            cells,
                            w,
                            h,
                            x as int,
                            y as int,
                        ),
                    ensures
                        moves@ == gravity_moves(cells, w, h, x + 1),
                    decreases self.height - y,
                {
                    if y >= self.height {
                        break;
                    }
                    proof {
                        lemma_cell_index(w, h, x as int, y as int);
                    }
                    let cell = y * self.width + x;
                    if state.cells[cell as usize] == EMPTY {
                        moves.push(ConnectKMove(cell));
                        break;
                    }
                    y += 1;
                }
                x += 1;
            }
        } else {
            let n = self.cell_count() as u16;
            let mut cell: u16 = 0;
            while cell < n
                invariant
                    cells == state.cells@,
                    cells.len() == n,
                    cell <= n,
                    n == self.n(),
                    moves@ == free_moves(cells, cell as int),
                decreases n - cell,
            {
                if state.cells[cell as usize] == EMPTY {
                    moves.push(ConnectKMove(cell));
                }
                cell += 1;
            }
        }
    }

    fn make_move(&self, state: &mut ConnectKState, mv: ConnectKMove) -> (u: ConnectKUndo) {
        proof {
            self.lemma_live_moves(state.cells@);
            lemma_count_bounds(state.cells@, self.n());
        }
        let cell = mv.0;
        let undo = ConnectKUndo { prev_outcome: state.outcome };
        let mover = state.to_move;
        let code = code_of(mover);
        state.cells.set(cell as usize, code);
        state.stones = state.stones + 1;
        state.key = state.key ^ self.zobrist[2 * cell as usize + slot_of(mover)];
        state.key = state.key ^ self.zobrist_side;
        state.to_move = mover.opponent();
        let line = self.longest_line_through(&state.cells, cell);
        state.outcome = if line >= self.k as u32 {
            Some(Outcome::Win(mover))
        } else if state.stones == self.cell_count() {
            Some(Outcome::Draw)
        } else {
            None
        };
        undo
    }

    fn unmake_move(&self, state: &mut ConnectKState, mv: ConnectKMove, u: ConnectKUndo) {
        let ghost p = choose|p: ConnectKModel|
            #![trigger self.next(p, mv)]
            {
                &&& self.valid(p)
                &&& self.result(p) is None
                &&& self.moves(p).contains(mv)
                &&& self.next(p, mv) == self.model(state)
                &&& self.undo(p, mv) == self.undo_model(&u)
            };
        proof {
            self.lemma_live_moves(p.cells);
        }
        let cell = mv.0;
        let mover = state.to_move.opponent();
        state.cells.set(cell as usize, EMPTY);
        state.stones = state.stones - 1;
        state.key = state.key ^ self.zobrist[2 * cell as usize + slot_of(mover)];
        state.key = state.key ^ self.zobrist_side;
        state.to_move = mover;
        state.outcome = u.prev_outcome;
    }

    fn outcome(&self, state: &ConnectKState) -> (o: Option<Outcome>) {
        state.outcome
    }

    fn position_key(&self, state: &ConnectKState) -> (k: u64) {
        state.key
    }

    fn encode_features(&self, state: &ConnectKState, features: &mut Vec<FeatureId>) {
        features.clear();
        let own = code_of(state.to_move);
        let n = state.cells.len();
        let mut cell: usize = 0;
        while cell < n
            invariant
                n == state.cells@.len(),
                n == self.n(),
                self.wf(),
                cell <= n,
                own == cell_code(state.to_move),
                features@ == occupancy_features(state.cells@, own, cell as int),
            decreases n - cell,
        {
            let code = state.cells[cell];
            if code != EMPTY {
                let relative: u32 = if code != own { 1 } else { 0 };
                features.push(2 * cell as u32 + relative);
            }
            cell += 1;
        }
    }

    fn action_id(&self, state: &ConnectKState, mv: ConnectKMove) -> (a: ActionId) {
        if self.gravity {
            (mv.0 % self.width) as ActionId
        } else {
            mv.0 as ActionId
        }
    }

    fn is_tactical(&self, state: &ConnectKState, mv: ConnectKMove) -> (t: bool) {
        false
    }

    fn clone_state(&self, state: &ConnectKState) -> (c: ConnectKState) {
        let cells = state.cells.clone();
        assert(cells@ =~= state.cells@);
        ConnectKState {
            cells,
            to_move: state.to_move,
            key: state.key,
            stones: state.stones,
            outcome: state.outcome,
        }
    }

    fn same_move(&self, a: ConnectKMove, b: ConnectKMove) -> (r: bool) {
        a == b
    }
}

proof fn lemma_zero_count(cells: Seq<u8>, i: int)
    requires
        0 <= i <= cells.len(),
        forall|j: int| 0 <= j < cells.len() ==> cells[j] == 0,
    ensures
        count_stones(cells, i) == 0,
    decreases i,
{
    if i > 0 {
        lemma_zero_count(cells, i - 1);
    }
}

} // verus!
