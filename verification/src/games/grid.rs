//! Board-grid facts shared by the stone and pawn games: cell codes,
//! row-major cell indexing, stone counting and straight-line runs.

use crate::game::Player;
use vstd::prelude::*;

verus! {

/// Cell code of a player's stone: `1` for Player One, `2` for Player Two
/// (`0` is an empty cell).
pub open spec fn cell_code(p: Player) -> u8 {
    match p {
        Player::One => 1,
        Player::Two => 2,
    }
}

/// Index of a player in per-player tables.
pub open spec fn player_slot(p: Player) -> int {
    match p {
        Player::One => 0,
        Player::Two => 1,
    }
}

pub fn code_of(p: Player) -> (c: u8)
    ensures
        c == cell_code(p),
{
    match p {
        Player::One => 1,
        Player::Two => 2,
    }
}

pub fn slot_of(p: Player) -> (s: usize)
    ensures
        s == player_slot(p),
{
    match p {
        Player::One => 0,
        Player::Two => 1,
    }
}

/// Number of occupied cells among `cells[0..i]`.
pub open spec fn count_stones(cells: Seq<u8>, i: int) -> nat
    decreases i,
{
    if i <= 0 {
        0
    } else {
        count_stones(cells, i - 1) + if cells[i - 1] != 0 {
            1nat
        } else {
            0nat
        }
    }
}

/// Number of cells among `cells[0..i]` that hold `code`.
pub open spec fn count_code(cells: Seq<u8>, code: u8, i: int) -> nat
    decreases i,
{
    if i <= 0 {
        0
    } else {
        count_code(cells, code, i - 1) + if cells[i - 1] == code {
            1nat
        } else {
            0nat
        }
    }
}

pub proof fn lemma_count_bounds(cells: Seq<u8>, i: int)
    requires
        0 <= i,
    ensures
        count_stones(cells, i) <= i,
    decreases i,
{
    if i > 0 {
        lemma_count_bounds(cells, i - 1);
    }
}

pub proof fn lemma_count_code_bounds(cells: Seq<u8>, code: u8, i: int)
    requires
        0 <= i,
    ensures
        count_code(cells, code, i) <= i,
    decreases i,
{
    if i > 0 {
        lemma_count_code_bounds(cells, code, i - 1);
    }
}

/// Changing one cell changes the stone count by the change in occupancy.
pub proof fn lemma_count_update(cells: Seq<u8>, c: int, v: u8, i: int)
    requires
        0 <= c < cells.len(),
        0 <= i <= cells.len(),
    ensures
        count_stones(cells.update(c, v), i) + (if c < i && cells[c] != 0 {
            1int
        } else {
            0int
        }) == count_stones(cells, i) + (if c < i && v != 0 {
            1int
        } else {
            0int
        }),
    decreases i,
{
    if i > 0 {
        lemma_count_update(cells, c, v, i - 1);
    }
}

/// Changing one cell changes the per-code count accordingly.
pub proof fn lemma_count_code_update(cells: Seq<u8>, code: u8, c: int, v: u8, i: int)
    requires
        0 <= c < cells.len(),
        0 <= i <= cells.len(),
    ensures
        count_code(cells.update(c, v), code, i) + (if c < i && cells[c] == code {
            1int
        } else {
            0int
        }) == count_code(cells, code, i) + (if c < i && v == code {
            1int
        } else {
            0int
        }),
    decreases i,
{
    if i > 0 {
        lemma_count_code_update(cells, code, c, v, i - 1);
    }
}

/// A board with fewer stones than cells has an empty cell.
pub proof fn lemma_count_full(cells: Seq<u8>, i: int)
    requires
        0 <= i <= cells.len(),
        count_stones(cells, i) < i,
    ensures
        exists|c: int| 0 <= c < i && cells[c] == 0,
    decreases i,
{
    if cells[i - 1] != 0 {
        lemma_count_full(cells, i - 1);
        let c = choose|c: int| 0 <= c < i - 1 && cells[c] == 0;
        assert(0 <= c < i && cells[c] == 0);
    }
}

/// A cell holding `code` makes its count positive.
pub proof fn lemma_count_code_pos(cells: Seq<u8>, code: u8, c: int, i: int)
    requires
        0 <= c < i,
        cells[c] == code,
    ensures
        count_code(cells, code, i) >= 1,
    decreases i,
{
    if c < i - 1 {
        lemma_count_code_pos(cells, code, c, i - 1);
    }
}

/// Zobrist term of one cell: the key of `code` on `cell`, nothing for an
/// empty cell. Keys are laid out `stride` per cell, one per nonzero code.
pub open spec fn zterm(z: Seq<u64>, stride: int, cell: int, code: u8) -> u64 {
    if code == 0 {
        0
    } else {
        z[stride * cell + code - 1]
    }
}

/// XOR of the Zobrist terms of cells `0..i`.
pub open spec fn zfold(z: Seq<u64>, stride: int, cells: Seq<u8>, i: int) -> u64
    decreases i,
{
    if i <= 0 {
        0
    } else {
        zfold(z, stride, cells, i - 1) ^ zterm(z, stride, i - 1, cells[i - 1])
    }
}

/// Changing one cell changes the fold by the old and the new term.
pub proof fn lemma_zfold_update(z: Seq<u64>, stride: int, cells: Seq<u8>, c: int, v: u8, i: int)
    requires
        0 <= c < cells.len(),
        0 <= i <= cells.len(),
    ensures
        zfold(z, stride, cells.update(c, v), i) == if c < i {
            zfold(z, stride, cells, i) ^ zterm(z, stride, c, cells[c]) ^ zterm(z, stride, c, v)
        } else {
            zfold(z, stride, cells, i)
        },
    decreases i,
{
    if i > 0 {
        lemma_zfold_update(z, stride, cells, c, v, i - 1);
        let a = zfold(z, stride, cells, i - 1);
        let t = zterm(z, stride, i - 1, cells[i - 1]);
        let zo = zterm(z, stride, c, cells[c]);
        let zv = zterm(z, stride, c, v);
        if c == i - 1 {
            assert(a ^ zv == a ^ zo ^ zo ^ zv) by (bit_vector);
        } else if c < i - 1 {
            assert(a ^ zo ^ zv ^ t == a ^ t ^ zo ^ zv) by (bit_vector);
        }
    }
}

/// XOR of the Zobrist keys of the occupied cells.
pub fn zobrist_fold(z: &Vec<u64>, stride: usize, cells: &Vec<u8>) -> (k: u64)
    requires
        stride * cells@.len() <= z@.len(),
        forall|c: int| 0 <= c < cells@.len() ==> #[trigger] cells@[c] <= stride,
    ensures
        k == zfold(z@, stride as int, cells@, cells@.len() as int),
{
    let n = cells.len();
    let zl = z.len();
    let mut k: u64 = 0;
    let mut c: usize = 0;
    while c < n
        invariant
            n == cells@.len(),
            zl == z@.len(),
            stride * n <= z@.len(),
            forall|c: int| 0 <= c < cells@.len() ==> #[trigger] cells@[c] <= stride,
            c <= n,
            k == zfold(z@, stride as int, cells@, c as int),
        decreases n - c,
    {
        let code = cells[c];
        if code != 0 {
            assert(stride * c + code - 1 < stride * n && stride * c <= stride * n) by (nonlinear_arith)
                requires
                    c < n,
                    1 <= code <= stride,
            ;
            let at = stride * c + code as usize - 1;
            assert(zterm(z@, stride as int, c as int, code) == z@[at as int]);
            k = k ^ z[at];
        } else {
            assert(k ^ 0u64 == k) by (bit_vector);
        }
        assert(zfold(z@, stride as int, cells@, c + 1) == zfold(z@, stride as int, cells@, c as int)
            ^ zterm(z@, stride as int, c as int, code));
        c += 1;
    }
    k
}

/// Number of cells holding `code`.
pub fn count_cells(cells: &Vec<u8>, code: u8) -> (k: u16)
    requires
        cells@.len() <= 65535,
    ensures
        k == count_code(cells@, code, cells@.len() as int),
{
    let n = cells.len();
    let mut k: u16 = 0;
    let mut c: usize = 0;
    while c < n
        invariant
            n == cells@.len(),
            n <= 65535,
            c <= n,
            k == count_code(cells@, code, c as int),
        decreases n - c,
    {
        proof {
            lemma_count_code_bounds(cells@, code, c as int);
        }
        if cells[c] == code {
            k += 1;
        }
        c += 1;
    }
    k
}

/// Row-major indexing of in-bounds coordinates.
pub proof fn lemma_cell_index(w: int, h: int, x: int, y: int)
    requires
        0 <= x < w,
        0 <= y < h,
    ensures
        0 <= y * w + x < w * h,
        (y * w + x) % w == x,
        (y * w + x) / w == y,
{
    assert(0 <= y * w + x < w * h) by (nonlinear_arith)
        requires
            0 <= x < w,
            0 <= y < h,
    ;
    assert((y * w + x) % w == x && (y * w + x) / w == y) by (nonlinear_arith)
        requires
            0 <= x < w,
            0 <= y,
    ;
}

/// Coordinates of an in-bounds cell.
pub proof fn lemma_cell_coords(w: int, h: int, c: int)
    requires
        0 < w,
        0 <= c < w * h,
    ensures
        0 <= c % w < w,
        0 <= c / w < h,
        c == (c / w) * w + c % w,
{
    assert(0 <= c % w < w && c == (c / w) * w + c % w) by (nonlinear_arith)
        requires
            0 < w,
            0 <= c,
    ;
    assert(0 <= c / w < h) by (nonlinear_arith)
        requires
            0 < w,
            0 <= c < w * h,
    ;
}

/// Distance to the board edge along a step direction.
pub open spec fn run_measure(w: int, h: int, x: int, y: int, dx: int, dy: int) -> int {
    (if dx > 0 {
        w - x
    } else if dx < 0 {
        x + 1
    } else {
        0
    }) + (if dy > 0 {
        h - y
    } else if dy < 0 {
        y + 1
    } else {
        0
    })
}

pub open spec fn unit_step(dx: int, dy: int) -> bool {
    &&& -1 <= dx <= 1
    &&& -1 <= dy <= 1
    &&& (dx != 0 || dy != 0)
}

/// Number of consecutive cells holding `owner`, starting at `(x, y)` and
/// stepping by `(dx, dy)` until the edge or another code.
pub open spec fn run_len(
    cells: Seq<u8>,
    w: int,
    h: int,
    x: int,
    y: int,
    dx: int,
    dy: int,
    owner: u8,
) -> nat
    decreases run_measure(w, h, x, y, dx, dy),
    when unit_step(dx, dy)
{
    if 0 <= x < w && 0 <= y < h && cells[y * w + x] == owner {
        1 + run_len(cells, w, h, x + dx, y + dy, dx, dy, owner)
    } else {
        0
    }
}

pub proof fn lemma_run_len_bound(
    cells: Seq<u8>,
    w: int,
    h: int,
    x: int,
    y: int,
    dx: int,
    dy: int,
    owner: u8,
)
    requires
        unit_step(dx, dy),
    ensures
        run_len(cells, w, h, x, y, dx, dy, owner) <= (if 0 <= x < w && 0 <= y < h {
            run_measure(w, h, x, y, dx, dy)
        } else {
            0
        }),
    decreases run_measure(w, h, x, y, dx, dy),
{
    if 0 <= x < w && 0 <= y < h && cells[y * w + x] == owner {
        lemma_run_len_bound(cells, w, h, x + dx, y + dy, dx, dy, owner);
    }
}

/// Longest same-owner line through `cell` over the four line directions.
pub open spec fn line_through(cells: Seq<u8>, w: int, h: int, cell: int) -> nat {
    let x = cell % w;
    let y = cell / w;
    let o = cells[cell];
    let a = 1 + run_len(cells, w, h, x + 1, y, 1, 0, o) + run_len(cells, w, h, x - 1, y, -1, 0, o);
    let b = 1 + run_len(cells, w, h, x, y + 1, 0, 1, o) + run_len(cells, w, h, x, y - 1, 0, -1, o);
    let c = 1 + run_len(cells, w, h, x + 1, y + 1, 1, 1, o) + run_len(
        cells,
        w,
        h,
        x - 1,
        y - 1,
        -1,
        -1,
        o,
    );
    let d = 1 + run_len(cells, w, h, x + 1, y - 1, 1, -1, o) + run_len(
        cells,
        w,
        h,
        x - 1,
        y + 1,
        -1,
        1,
        o,
    );
    vstd::math::max(vstd::math::max(vstd::math::max(a as int, b as int), c as int), d as int) as nat
}

/// Count the run of `owner` cells from `(x0, y0)` in direction `(dx, dy)`.
pub fn run(cells: &Vec<u8>, w: i32, h: i32, x0: i32, y0: i32, dx: i32, dy: i32, owner: u8) -> (r:
    u32)
    requires
        0 < w,
        0 < h,
        w as int * h as int <= 65535,
        cells@.len() == w as int * h as int,
        -1 <= x0 <= w,
        -1 <= y0 <= h,
        unit_step(dx as int, dy as int),
    ensures
        r == run_len(cells@, w as int, h as int, x0 as int, y0 as int, dx as int, dy as int, owner),
        r <= w + h,
{
    let ghost total = run_len(
        cells@,
        w as int,
        h as int,
        x0 as int,
        y0 as int,
        dx as int,
        dy as int,
        owner,
    );
    proof {
        lemma_run_len_bound(cells@, w as int, h as int, x0 as int, y0 as int, dx as int, dy as int, owner);
    }
    let mut x = x0;
    let mut y = y0;
    let mut r: u32 = 0;
    loop
        invariant
            0 < w,
            0 < h,
            w as int * h as int <= 65535,
            cells@.len() == w as int * h as int,
            unit_step(dx as int, dy as int),
            -1 <= x <= w,
            -1 <= y <= h,
            total <= w + h,
            r + run_len(cells@, w as int, h as int, x as int, y as int, dx as int, dy as int, owner)
                == total,
        ensures
            r == total,
        decreases run_measure(w as int, h as int, x as int, y as int, dx as int, dy as int),
    {
        if !(x >= 0 && x < w && y >= 0 && y < h) {
            break;
        }
        proof {
            lemma_cell_index(w as int, h as int, x as int, y as int);
        }
        let c = (y * w + x) as usize;
        if cells[c] != owner {
            break;
        }
        r += 1;
        x += dx;
        y += dy;
    }
    r
}

} // verus!
