//! Compact binary tablebase format for solved Forward Chess positions.
//!
//! Layout: a 16-byte header (magic "FCTB", version, ruleset code, width,
//! height, u64 little-endian position count), one variable-length record
//! per position, then a 12-byte footer (magic "BTCF", u64 little-endian
//! FNV-1a-64 checksum of header and records). A record is the cell codes
//! packed at 5 bits each (least significant bit first, zero padding), a
//! flags byte (bit 0 side to move, bits 1-2 WDL, bits 3-6 castling, bit 7
//! en-passant present), the en-passant square byte when flagged, and the
//! halfmove-clock byte. Repetition history is path-dependent and never
//! stored; key and outcome are recomputed on load.

use crate::experiment::{fnv_fold, fnv_update, lemma_fnv_concat, FNV_OFFSET};
use crate::game::{Game, Player};
use crate::games::forward_chess::{
    code_owner, code_piece, CoreModel, FcCore, FcModel, FcState, ForwardChess, Piece, ruleset_castles,
    ruleset_code, board_ok, lemma_pack_unpack, pack_code, Ruleset,
};
use crate::search::Wdl;
use crate::text::{decimal, text_number_text};
use vstd::prelude::*;

verus! {

/// File magic "FCTB".
pub const TB_MAGIC: [u8; 4] = [0x46, 0x43, 0x54, 0x42];

pub const TB_VERSION: u8 = 1;

/// Footer magic "BTCF".
pub const TB_FOOTER_MAGIC: [u8; 4] = [0x42, 0x54, 0x43, 0x46];

/// Bytes holding `n` cell codes at 5 bits each.
pub open spec fn packed_len(n: int) -> int {
    (n * 5 + 7) / 8
}

/// Bit `b` of the packed cell stream.
pub open spec fn bit_at(cells: Seq<u8>, n: int, b: int) -> u8 {
    if 0 <= b / 5 < n {
        (cells[b / 5] >> ((b % 5) as u8)) & 1
    } else {
        0
    }
}

/// The low `k` bits of packed byte `j`.
pub open spec fn byte_bits(cells: Seq<u8>, n: int, j: int, k: int) -> u8
    decreases k,
{
    if k <= 0 {
        0
    } else {
        byte_bits(cells, n, j, k - 1) | (bit_at(cells, n, 8 * j + k - 1) << ((k - 1) as u8))
    }
}

/// The packed cell codes.
pub open spec fn packed_cells(cells: Seq<u8>, n: int) -> Seq<u8> {
    Seq::new(packed_len(n) as nat, |j: int| byte_bits(cells, n, j, 8))
}

pub open spec fn wdl_bits(w: Wdl) -> int {
    match w {
        Wdl::Loss => 0,
        Wdl::Draw => 1,
        Wdl::Win => 2,
    }
}

pub open spec fn flag(b: bool, v: int) -> int {
    if b {
        v
    } else {
        0
    }
}

/// The flags byte of a record.
pub open spec fn record_flags(core: CoreModel, wdl: Wdl) -> u8 {
    (flag(core.to_move == Player::Two, 1) + 2 * wdl_bits(wdl) + flag(core.castling[0], 8) + flag(
        core.castling[1],
        16,
    ) + flag(core.castling[2], 32) + flag(core.castling[3], 64) + flag(core.ep is Some, 128)) as u8
}

/// The bytes of one record.
pub open spec fn record_bytes(core: CoreModel, wdl: Wdl, n: int) -> Seq<u8> {
    packed_cells(core.cells, n) + seq![record_flags(core, wdl)] + match core.ep {
        Some(e) => seq![e as u8],
        None => Seq::empty(),
    } + seq![core.halfmove as u8]
}

/// The 5-bit code of cell `c` read back from packed bytes starting at
/// `start`.
pub open spec fn code_at(bytes: Seq<u8>, start: int, packed: int, c: int) -> u8 {
    let bit = 5 * c;
    let j = bit / 8;
    let word = (bytes[start + j] as u16) | (if j + 1 < packed {
        (bytes[start + j + 1] as u16) << 8u16
    } else {
        0u16
    });
    ((word >> ((bit % 8) as u16)) & 0x1f) as u8
}

/// Cells `0..c` decoded from a record.
pub open spec fn decoded_cells(bytes: Seq<u8>, start: int, packed: int, n: int) -> Seq<u8> {
    Seq::new(n as nat, |c: int| code_at(bytes, start, packed, c))
}

/// Number of kings of `owner` among cells `0..i`.
pub open spec fn king_count(cells: Seq<u8>, owner: Player, i: int) -> nat
    decreases i,
{
    if i <= 0 {
        0
    } else {
        king_count(cells, owner, i - 1) + if cells[i - 1] != 0 && code_piece(cells[i - 1]) == Piece::King
            && code_owner(cells[i - 1]) == owner {
            1nat
        } else {
            0nat
        }
    }
}

proof fn lemma_king_count_frame(a: Seq<u8>, b: Seq<u8>, owner: Player, i: int)
    requires
        0 <= i <= a.len(),
        i <= b.len(),
        forall|j: int| 0 <= j < i ==> a[j] == b[j],
    ensures
        king_count(a, owner, i) == king_count(b, owner, i),
    decreases i,
{
    if i > 0 {
        lemma_king_count_frame(a, b, owner, i - 1);
    }
}

/// Little-endian bytes of a 64-bit word.
pub open spec fn le_bytes(x: u64) -> Seq<u8> {
    Seq::new(8, |i: int| ((x >> ((8 * i) as u64)) & 0xff) as u8)
}

/// The 64-bit word of 8 little-endian bytes at `start`.
pub open spec fn le_word(bytes: Seq<u8>, start: int) -> u64 {
    (bytes[start] as u64) | ((bytes[start + 1] as u64) << 8u64) | ((bytes[start + 2] as u64) << 16u64) | ((
    bytes[start + 3] as u64) << 24u64) | ((bytes[start + 4] as u64) << 32u64) | ((bytes[start + 5] as u64)
        << 40u64) | ((bytes[start + 6] as u64) << 48u64) | ((bytes[start + 7] as u64) << 56u64)
}

proof fn lemma_or_bit(x: u8, b: u8, t: u8, k: u8)
    requires
        b <= 1,
        t < 8,
        k < 8,
    ensures
        ((x | (b << t)) >> k) & 1 == if k == t {
            b | ((x >> k) & 1)
        } else {
            (x >> k) & 1
        },
{
    assert(((x | (b << t)) >> k) & 1 == if k == t {
        b | ((x >> k) & 1)
    } else {
        (x >> k) & 1
    }) by (bit_vector)
        requires
            b <= 1,
            t < 8,
            k < 8,
    ;
}

/// Bit `k` of a packed byte is bit `8 j + k` of the stream; bits at and
/// above `m` of the partial byte are clear.
proof fn lemma_byte_bits(cells: Seq<u8>, n: int, j: int, m: int, k: int)
    requires
        0 <= m <= 8,
        0 <= k < 8,
    ensures
        (byte_bits(cells, n, j, m) >> (k as u8)) & 1 == if k < m {
            bit_at(cells, n, 8 * j + k)
        } else {
            0
        },
    decreases m,
{
    if m == 0 {
        let kk: u8 = k as u8;
        assert((0u8 >> kk) & 1 == 0) by (bit_vector);
    } else {
        let x = byte_bits(cells, n, j, m - 1);
        let b = bit_at(cells, n, 8 * j + m - 1);
        lemma_byte_bits(cells, n, j, m - 1, k);
        lemma_byte_bits(cells, n, j, m - 1, m - 1);
        let v = if 0 <= (8 * j + m - 1) / 5 < n { cells[(8 * j + m - 1) / 5] } else { 0 };
        let sh = ((8 * j + m - 1) % 5) as u8;
        assert((v >> sh) & 1 <= 1) by (bit_vector);
        assert(b <= 1);
        lemma_or_bit(x, b, (m - 1) as u8, k as u8);
        assert(b | 0u8 == b) by (bit_vector);
    }
}

/// The five bits of a cell code sit at stream bits `5 c .. 5 c + 4`.
proof fn lemma_bit_at_code(cells: Seq<u8>, n: int, c: int, i: int)
    requires
        0 <= c < n,
        0 <= i < 5,
    ensures
        bit_at(cells, n, 5 * c + i) == (cells[c] >> (i as u8)) & 1,
{
    assert((5 * c + i) / 5 == c);
    assert((5 * c + i) % 5 == i);
}

proof fn lemma_word_bits(b0: u8, b1: u8, k: u16)
    requires
        k < 16,
    ensures
        k < 8 ==> ((((b0 as u16) | ((b1 as u16) << 8u16)) >> k) & 1) as u8 == (b0 >> (k as u8)) & 1,
        k >= 8 ==> ((((b0 as u16) | ((b1 as u16) << 8u16)) >> k) & 1) as u8 == (b1 >> ((k - 8) as u8))
            & 1,
{
    assert(k < 8 ==> ((((b0 as u16) | ((b1 as u16) << 8u16)) >> k) & 1) as u8 == (b0 >> (k as u8)) & 1)
        by (bit_vector);
    assert(k >= 8 ==> ((((b0 as u16) | ((b1 as u16) << 8u16)) >> k) & 1) as u8 == (b1 >> ((k - 8) as u8))
        & 1) by (bit_vector)
        requires
            k < 16,
    ;
}

/// A five-bit field equals a code below 32 whose bits it matches.
proof fn lemma_field(word: u16, s: u16, v: u8)
    requires
        s < 8,
        v < 32,
        (((word >> s) & 1) as u8) == (v >> 0u8) & 1,
        (((word >> ((s + 1) as u16)) & 1) as u8) == (v >> 1u8) & 1,
        (((word >> ((s + 2) as u16)) & 1) as u8) == (v >> 2u8) & 1,
        (((word >> ((s + 3) as u16)) & 1) as u8) == (v >> 3u8) & 1,
        (((word >> ((s + 4) as u16)) & 1) as u8) == (v >> 4u8) & 1,
    ensures
        ((word >> s) & 0x1f) as u8 == v,
{
    assert(((word >> s) & 0x1f) as u8 == v) by (bit_vector)
        requires
            s < 8,
            v < 32,
            (((word >> s) & 1) as u8) == (v >> 0u8) & 1,
            (((word >> ((s + 1) as u16)) & 1) as u8) == (v >> 1u8) & 1,
            (((word >> ((s + 2) as u16)) & 1) as u8) == (v >> 2u8) & 1,
            (((word >> ((s + 3) as u16)) & 1) as u8) == (v >> 3u8) & 1,
            (((word >> ((s + 4) as u16)) & 1) as u8) == (v >> 4u8) & 1,
    ;
}

/// The 16-bit window that `code_at` reads for cell `c`.
pub open spec fn code_word(bytes: Seq<u8>, start: int, packed: int, c: int) -> u16 {
    let j = (5 * c) / 8;
    (bytes[start + j] as u16) | (if j + 1 < packed {
        (bytes[start + j + 1] as u16) << 8u16
    } else {
        0u16
    })
}

/// The bytes at `start` hold the packed cells.
pub open spec fn holds_packed(data: Seq<u8>, start: int, cells: Seq<u8>, n: int) -> bool {
    &&& 0 <= start
    &&& start + packed_len(n) <= data.len()
    &&& forall|j: int| 0 <= j < packed_len(n) ==> data[start + j] == #[trigger] byte_bits(cells, n, j, 8)
}

proof fn lemma_code_bit(data: Seq<u8>, start: int, cells: Seq<u8>, n: int, c: int, i: int)
    requires
        1 <= n <= 64,
        board_ok(cells, n),
        0 <= c < n,
        0 <= i < 5,
        holds_packed(data, start, cells, n),
    ensures
        ((code_word(data, start, packed_len(n), c) >> ((((5 * c) % 8) + i) as u16)) & 1) as u8 == (
        cells[c] >> (i as u8)) & 1,
{
    let packed = packed_len(n);
    let j = (5 * c) / 8;
    let sh = (5 * c) % 8;
    assert(8 * j + sh == 5 * c);
    assert(8 * packed >= 5 * n);
    assert(0 <= j < packed);
    let b0 = data[start + j];
    let b1 = if j + 1 < packed {
        data[start + j + 1]
    } else {
        0u8
    };
    assert((0u8 as u16) << 8u16 == 0u16) by (bit_vector);
    assert(code_word(data, start, packed, c) == (b0 as u16) | ((b1 as u16) << 8u16));
    let k = (sh + i) as u16;
    lemma_word_bits(b0, b1, k);
    lemma_bit_at_code(cells, n, c, i);
    if sh + i < 8 {
        assert(b0 == byte_bits(cells, n, j, 8));
        lemma_byte_bits(cells, n, j, 8, sh + i);
    } else {
        assert(j + 1 < packed);
        assert(b1 == byte_bits(cells, n, j + 1, 8));
        lemma_byte_bits(cells, n, j + 1, 8, sh + i - 8);
        assert(8 * (j + 1) + (sh + i - 8) == 5 * c + i);
    }
}

/// A cell code packed into a record reads back unchanged.
proof fn lemma_code_roundtrip(data: Seq<u8>, start: int, cells: Seq<u8>, n: int, c: int)
    requires
        1 <= n <= 64,
        board_ok(cells, n),
        0 <= c < n,
        holds_packed(data, start, cells, n),
    ensures
        code_at(data, start, packed_len(n), c) == cells[c],
{
    let packed = packed_len(n);
    let word = code_word(data, start, packed, c);
    let sh = ((5 * c) % 8) as u16;
    lemma_code_bit(data, start, cells, n, c, 0);
    lemma_code_bit(data, start, cells, n, c, 1);
    lemma_code_bit(data, start, cells, n, c, 2);
    lemma_code_bit(data, start, cells, n, c, 3);
    lemma_code_bit(data, start, cells, n, c, 4);
    lemma_field(word, sh, cells[c]);
}

proof fn lemma_high_clear(x: u8, u: u8)
    requires
        u < 8,
        0 >= u ==> (x >> 0u8) & 1 == 0,
        1 >= u ==> (x >> 1u8) & 1 == 0,
        2 >= u ==> (x >> 2u8) & 1 == 0,
        3 >= u ==> (x >> 3u8) & 1 == 0,
        4 >= u ==> (x >> 4u8) & 1 == 0,
        5 >= u ==> (x >> 5u8) & 1 == 0,
        6 >= u ==> (x >> 6u8) & 1 == 0,
        7 >= u ==> (x >> 7u8) & 1 == 0,
    ensures
        x >> u == 0,
{
    assert(x >> u == 0) by (bit_vector)
        requires
            u < 8,
            0 >= u ==> (x >> 0u8) & 1 == 0,
            1 >= u ==> (x >> 1u8) & 1 == 0,
            2 >= u ==> (x >> 2u8) & 1 == 0,
            3 >= u ==> (x >> 3u8) & 1 == 0,
            4 >= u ==> (x >> 4u8) & 1 == 0,
            5 >= u ==> (x >> 5u8) & 1 == 0,
            6 >= u ==> (x >> 6u8) & 1 == 0,
            7 >= u ==> (x >> 7u8) & 1 == 0,
    ;
}

proof fn lemma_pad_bit(cells: Seq<u8>, n: int, k: int)
    requires
        1 <= n <= 64,
        0 <= k < 8,
    ensures
        ({
            let packed = packed_len(n);
            let used_last = n * 5 - (packed - 1) * 8;
            k >= used_last ==> (byte_bits(cells, n, packed - 1, 8) >> (k as u8)) & 1 == 0
        }),
{
    let packed = packed_len(n);
    lemma_byte_bits(cells, n, packed - 1, 8, k);
}

/// The padding bits above the last cell code are clear.
proof fn lemma_padding(cells: Seq<u8>, n: int)
    requires
        1 <= n <= 64,
    ensures
        ({
            let packed = packed_len(n);
            let used_last = n * 5 - (packed - 1) * 8;
            used_last < 8 ==> byte_bits(cells, n, packed - 1, 8) >> (used_last as u8) == 0
        }),
{
    let packed = packed_len(n);
    let used_last = n * 5 - (packed - 1) * 8;
    if used_last < 8 {
        assert(1 <= used_last);
        let x = byte_bits(cells, n, packed - 1, 8);
        lemma_pad_bit(cells, n, 0);
        lemma_pad_bit(cells, n, 1);
        lemma_pad_bit(cells, n, 2);
        lemma_pad_bit(cells, n, 3);
        lemma_pad_bit(cells, n, 4);
        lemma_pad_bit(cells, n, 5);
        lemma_pad_bit(cells, n, 6);
        lemma_pad_bit(cells, n, 7);
        lemma_high_clear(x, used_last as u8);
    }
}

proof fn lemma_flags(t: bool, wb: u8, c0: bool, c1: bool, c2: bool, c3: bool, e: bool, f: u8)
    requires
        wb <= 2,
        f as int == (if t { 1int } else { 0int }) + 2 * wb + (if c0 { 8int } else { 0int }) + (if c1 {
            16int
        } else {
            0int
        }) + (if c2 { 32int } else { 0int }) + (if c3 { 64int } else { 0int }) + (if e {
            128int
        } else {
            0int
        }),
    ensures
        (f & 1 == 0) == !t,
        (f >> 1u8) & 3 == wb,
        (f & 8 != 0) == c0,
        (f & 16 != 0) == c1,
        (f & 32 != 0) == c2,
        (f & 64 != 0) == c3,
        (f & 0x80 != 0) == e,
{
    let a: u8 = if t { 1 } else { 0 };
    let b0: u8 = if c0 { 1 } else { 0 };
    let b1: u8 = if c1 { 1 } else { 0 };
    let b2: u8 = if c2 { 1 } else { 0 };
    let b3: u8 = if c3 { 1 } else { 0 };
    let be: u8 = if e { 1 } else { 0 };
    assert(f == a + 2 * wb + 8 * b0 + 16 * b1 + 32 * b2 + 64 * b3 + 128 * be);
    assert({
        &&& (f & 1 == 0) == (a == 0)
        &&& (f >> 1u8) & 3 == wb
        &&& (f & 8 != 0) == (b0 == 1)
        &&& (f & 16 != 0) == (b1 == 1)
        &&& (f & 32 != 0) == (b2 == 1)
        &&& (f & 64 != 0) == (b3 == 1)
        &&& (f & 0x80 != 0) == (be == 1)
    }) by (bit_vector)
        requires
            a <= 1,
            b0 <= 1,
            b1 <= 1,
            b2 <= 1,
            b3 <= 1,
            be <= 1,
            wb <= 2,
            f == a + 2 * wb + 8 * b0 + 16 * b1 + 32 * b2 + 64 * b3 + 128 * be,
    ;
}

/// Reading the little-endian bytes of a word gives the word back.
proof fn lemma_le_roundtrip(x: u64, data: Seq<u8>, start: int)
    requires
        0 <= start,
        start + 8 <= data.len(),
        data.subrange(start, start + 8) == le_bytes(x),
    ensures
        le_word(data, start) == x,
{
    let b = le_bytes(x);
    assert(data[start] == b[0]);
    assert(data[start + 1] == b[1]);
    assert(data[start + 2] == b[2]);
    assert(data[start + 3] == b[3]);
    assert(data[start + 4] == b[4]);
    assert(data[start + 5] == b[5]);
    assert(data[start + 6] == b[6]);
    assert(data[start + 7] == b[7]);
    let y0 = ((x >> 0u64) & 0xff) as u8;
    let y1 = ((x >> 8u64) & 0xff) as u8;
    let y2 = ((x >> 16u64) & 0xff) as u8;
    let y3 = ((x >> 24u64) & 0xff) as u8;
    let y4 = ((x >> 32u64) & 0xff) as u8;
    let y5 = ((x >> 40u64) & 0xff) as u8;
    let y6 = ((x >> 48u64) & 0xff) as u8;
    let y7 = ((x >> 56u64) & 0xff) as u8;
    assert(b[0] == y0 && b[1] == y1 && b[2] == y2 && b[3] == y3);
    assert(b[4] == y4 && b[5] == y5 && b[6] == y6 && b[7] == y7);
    assert((y0 as u64) | ((y1 as u64) << 8u64) | ((y2 as u64) << 16u64) | ((y3 as u64) << 24u64) | ((
    y4 as u64) << 32u64) | ((y5 as u64) << 40u64) | ((y6 as u64) << 48u64) | ((y7 as u64) << 56u64) == x)
        by (bit_vector)
        requires
            y0 == ((x >> 0u64) & 0xff) as u8,
            y1 == ((x >> 8u64) & 0xff) as u8,
            y2 == ((x >> 16u64) & 0xff) as u8,
            y3 == ((x >> 24u64) & 0xff) as u8,
            y4 == ((x >> 32u64) & 0xff) as u8,
            y5 == ((x >> 40u64) & 0xff) as u8,
            y6 == ((x >> 48u64) & 0xff) as u8,
            y7 == ((x >> 56u64) & 0xff) as u8,
    ;
}

impl ForwardChess {
    /// Bytes of the packed cell codes of one record.
    pub fn packed_cells_len(&self) -> (n: usize)
        requires
            self.wf_rules(),
        ensures
            n == packed_len(self.n()),
    {
        (self.cell_count() as usize * 5 + 7) / 8
    }

    /// Decoded record starting at `start` of `bytes` (ending before `end`):
    /// the core without key and outcome, its value and the bytes used,
    /// or `None` for a malformed record.
    #[verifier::opaque]
    pub open spec fn decode_spec(&self, bytes: Seq<u8>, start: int, end: int) -> Option<(CoreModel, Wdl, int)> {
        let n = self.n();
        let packed = packed_len(n);
        let avail = end - start;
        let used_last = n * 5 - (packed - 1) * 8;
        let cells = decoded_cells(bytes, start, packed, n);
        let flags = bytes[start + packed];
        let wdl_code = (flags >> 1u8) & 3;
        let rights = Seq::new(4, |i: int| flags & ((1u8 << ((3 + i) as u8)) as u8) != 0);
        let has_ep = flags & 0x80 != 0;
        let cursor = start + packed + 1;
        let after_ep = if has_ep { cursor + 1 } else { cursor };
        let ep_square = bytes[cursor] as int;
        if avail < packed + 1 {
            None
        } else if used_last < 8 && (bytes[start + packed - 1] >> (used_last as u8)) != 0 {
            None
        } else if exists|c: int| 0 <= c < n && #[trigger] code_at(bytes, start, packed, c) > 24 {
            None
        } else if king_count(cells, Player::One, n) != 1 || king_count(cells, Player::Two, n) != 1 {
            None
        } else if wdl_code == 3 {
            None
        } else if (rights[0] || rights[1] || rights[2] || rights[3]) && !ruleset_castles(self.spec_ruleset()) {
            None
        } else if has_ep && (cursor >= end || ep_square >= n || ep_square / self.w() == 0 || ep_square / self.w() + 1 >= self.h()) {
            None
        } else if after_ep >= end {
            None
        } else {
            let to_move = if flags & 1 == 0 { Player::One } else { Player::Two };
            let wdl = if wdl_code == 0 { Wdl::Loss } else if wdl_code == 1 { Wdl::Draw } else { Wdl::Win };
            let ep = if has_ep { Some(ep_square as u16) } else { None };
            let halfmove = bytes[after_ep] as u16;
            Some((self.core_model_of(cells, to_move, rights, ep, halfmove), wdl, after_ep + 1 - start))
        }
    }
}


impl ForwardChess {
    /// A position that a record stores and gives back: one king per side,
    /// castling rights only where the ruleset castles, an en-passant
    /// square off the first and last ranks, and a halfmove clock that
    /// fits a byte.
    pub open spec fn storable(&self, core: CoreModel) -> bool {
        &&& core.halfmove <= 255
        &&& king_count(core.cells, Player::One, self.n()) == 1
        &&& king_count(core.cells, Player::Two, self.n()) == 1
        &&& (core.castling[0] || core.castling[1] || core.castling[2] || core.castling[3])
            ==> ruleset_castles(self.spec_ruleset())
        &&& core.ep matches Some(e) ==> (e as int) / self.w() != 0 && (e as int) / self.w() + 1 < self.h()
    }

    /// The core a record of `core` loads as: the stored fields, with key
    /// and outcome recomputed from them (repetition history is not
    /// stored).
    pub open spec fn reloaded(&self, core: CoreModel) -> CoreModel {
        self.core_model_of(core.cells, core.to_move, core.castling, core.ep, core.halfmove)
    }

    /// A written record decodes to the core it was written from.
    #[verifier::rlimit(80)]
    proof fn lemma_decode_record(&self, data: Seq<u8>, start: int, end: int, core: CoreModel, wdl: Wdl)
        requires
            self.wf(),
            self.core_ok(core),
            self.storable(core),
            0 <= start,
            start + record_bytes(core, wdl, self.n()).len() <= end <= data.len(),
            data.subrange(start, start + record_bytes(core, wdl, self.n()).len()) == record_bytes(
                core,
                wdl,
                self.n(),
            ),
        ensures
            self.decode_spec(data, start, end) == Some(
                (self.reloaded(core), wdl, record_bytes(core, wdl, self.n()).len() as int),
            ),
    {
        reveal(ForwardChess::decode_spec);
        let n = self.n();
        let rec = record_bytes(core, wdl, n);
        let len = rec.len() as int;
        let packed = packed_len(n);
        let pc = packed_cells(core.cells, n);
        assert forall|t: int| 0 <= t < len implies data[start + t] == rec[t] by {
            assert(data.subrange(start, start + len)[t] == data[start + t]);
        }
        assert forall|j: int| 0 <= j < packed implies data[start + j] == #[trigger] byte_bits(
            core.cells,
            n,
            j,
            8,
        ) by {
            assert(rec[j] == pc[j]);
        }
        assert(holds_packed(data, start, core.cells, n));
        assert forall|c: int| 0 <= c < n implies #[trigger] code_at(data, start, packed, c)
            == core.cells[c] by {
            lemma_code_roundtrip(data, start, core.cells, n, c);
        }
        let cells = decoded_cells(data, start, packed, n);
        assert(cells =~= core.cells);
        lemma_padding(core.cells, n);
        assert(data[start + packed - 1] == byte_bits(core.cells, n, packed - 1, 8));
        let flags = data[start + packed];
        assert(flags == rec[packed]);
        assert(flags == record_flags(core, wdl));
        lemma_flags(
            core.to_move == Player::Two,
            wdl_bits(wdl) as u8,
            core.castling[0],
            core.castling[1],
            core.castling[2],
            core.castling[3],
            core.ep is Some,
            flags,
        );
        assert((1u8 << 3u8) == 8u8 && (1u8 << 4u8) == 16u8 && (1u8 << 5u8) == 32u8 && (1u8 << 6u8) == 64u8)
            by (bit_vector);
        let rights = Seq::new(4, |i: int| flags & ((1u8 << ((3 + i) as u8)) as u8) != 0);
        assert(rights =~= core.castling);
        let cursor = start + packed + 1;
        match core.ep {
            Some(e) => {
                assert(data[cursor] == rec[packed + 1]);
                assert(data[cursor] as int == e);
                assert(data[cursor + 1] == rec[packed + 2]);
                assert(data[cursor + 1] as u16 == core.halfmove);
            },
            None => {
                assert(data[cursor] == rec[packed + 1]);
                assert(data[cursor] as u16 == core.halfmove);
            },
        }
        assert(!(exists|c: int| 0 <= c < n && #[trigger] code_at(data, start, packed, c) > 24));
    }
}

impl ForwardChess {
    /// Append one packed (state, value) record to `out`.
    pub fn pack_record(&self, state: &FcState, wdl: Wdl, out: &mut Vec<u8>)
        requires
            self.wf(),
            self.valid(self.model(state)),
            self.model(state).core.halfmove <= 255,
        ensures
            final(out)@ == old(out)@ + record_bytes(self.model(state).core, wdl, self.n()),
    {
        let ghost core_m = self.model(state).core;
        let ghost start = out@;
        let cells = self.state_cells(state);
        let n = self.cell_count() as usize;
        let packed = self.packed_cells_len();
        assert(board_ok(cells@, self.n()));
        let mut j: usize = 0;
        while j < packed
            invariant
                self.wf_rules(),
                n == self.n(),
                packed == packed_len(n as int),
                n <= 64,
                cells@ == core_m.cells,
                board_ok(cells@, n as int),
                j <= packed,
                out@ == start + packed_cells(cells@, n as int).take(j as int),
            decreases packed - j,
        {
            let mut byte: u8 = 0;
            let mut k: u8 = 0;
            while k < 8
                invariant
                    n == self.n(),
                    n <= 64,
                    j < packed,
                    packed == packed_len(n as int),
                    cells@.len() == n,
                    k <= 8,
                    byte == byte_bits(cells@, n as int, j as int, k as int),
                decreases 8 - k,
            {
                let b = 8 * j + k as usize;
                let c = b / 5;
                let bit: u8 = if c < n {
                    (cells[c] >> ((b % 5) as u8)) & 1
                } else {
                    0
                };
                byte = byte | (bit << k);
                k += 1;
            }
            out.push(byte);
            proof {
                assert(out@ =~= start + packed_cells(cells@, n as int).take(j + 1));
            }
            j += 1;
        }
        let ghost packed_part = out@;
        assert(packed_part =~= start + packed_cells(cells@, n as int));
        let to_move = self.side_to_move(state);
        let rights = self.castling_rights(state);
        let ep = self.ep_square(state);
        let halfmove = self.halfmove(state);
        let flags: u8 = (if to_move == Player::Two {
            1u8
        } else {
            0
        }) + 2 * match wdl {
            Wdl::Loss => 0u8,
            Wdl::Draw => 1,
            Wdl::Win => 2,
        } + (if rights[0] {
            8u8
        } else {
            0
        }) + (if rights[1] {
            16u8
        } else {
            0
        }) + (if rights[2] {
            32u8
        } else {
            0
        }) + (if rights[3] {
            64u8
        } else {
            0
        }) + (if ep.is_some() {
            128u8
        } else {
            0
        });
        out.push(flags);
        match ep {
            Some(e) => {
                out.push(e as u8);
            },
            None => {},
        }
        out.push(halfmove as u8);
        proof {
            assert(out@ =~= start + record_bytes(core_m, wdl, self.n()));
        }
    }
}


impl ForwardChess {
    /// Decode one record from `bytes[start..end]`, validating structure
    /// (cell codes, padding, flags, king counts, en-passant geometry) so
    /// corrupt or adversarial input yields an error, never a panic.
    /// Returns the state, its value, and the bytes consumed.
    pub fn unpack_record_at(&self, bytes: &[u8], start: usize, end: usize) -> (r: Result<(FcState, Wdl, usize), String>)
        requires
            self.wf(),
            start <= end <= bytes@.len(),
        ensures
            r is Ok <==> self.decode_spec(bytes@, start as int, end as int) is Some,
            r matches Ok((s, wdl, used)) ==> {
                &&& self.decode_spec(bytes@, start as int, end as int) == Some((self.model(&s).core, wdl, used as int))
                &&& 0 < used && start + used <= end
                &&& self.model(&s).history == Seq::<u64>::empty()
                &&& self.valid(self.model(&s))
            },
    {
        proof {
            reveal(ForwardChess::decode_spec);
        }
        let ghost b = bytes@;
        let n = self.cell_count() as usize;
        let packed = self.packed_cells_len();
        let avail = end - start;
        if avail < packed + 1 {
            return Err(String::from_str("record truncated"));
        }
        let used_last = n * 5 - (packed - 1) * 8;
        if used_last < 8 && bytes[start + packed - 1] >> (used_last as u8) != 0 {
            return Err(String::from_str("nonzero padding bits"));
        }
        let mut cells: Vec<u8> = Vec::new();
        let mut kings_one: u32 = 0;
        let mut kings_two: u32 = 0;
        let mut c: usize = 0;
        while c < n
            invariant
                self.wf_rules(),
                n == self.n(),
                n <= 64,
                packed == packed_len(n as int),
                start + packed + 1 <= end <= b.len(),
                b == bytes@,
                c <= n,
                cells@ == decoded_cells(b, start as int, packed as int, n as int).take(c as int),
                forall|x: int| 0 <= x < c ==> #[trigger] code_at(b, start as int, packed as int, x) <= 24,
                kings_one == king_count(cells@, Player::One, c as int),
                kings_two == king_count(cells@, Player::Two, c as int),
                kings_one <= c,
                kings_two <= c,
            decreases n - c,
        {
            let bit = 5 * c;
            let j = bit / 8;
            let low = bytes[start + j] as u16;
            let high: u16 = if j + 1 < packed {
                (bytes[start + j + 1] as u16) << 8u16
            } else {
                0
            };
            let word = low | high;
            let code = ((word >> ((bit % 8) as u16)) & 0x1f) as u8;
            assert(code == code_at(b, start as int, packed as int, c as int));
            if code > 24 {
                proof {
                    reveal(ForwardChess::decode_spec);
                }
                return Err(text_number_text("invalid cell code ", code as u64, ""));
            }
            let ghost before = cells@;
            cells.push(code);
            proof {
                assert(cells@ =~= decoded_cells(b, start as int, packed as int, n as int).take(c + 1));
                assert(cells@.drop_last() =~= before);
                lemma_king_count_frame(cells@, before, Player::One, c as int);
                lemma_king_count_frame(cells@, before, Player::Two, c as int);
            }
            if code != 0 {
                let (owner, piece, _) = Self::unpack_code(code);
                if piece == Piece::King {
                    if owner == Player::One {
                        kings_one += 1;
                    } else {
                        kings_two += 1;
                    }
                }
            }
            c += 1;
        }
        let ghost decoded = decoded_cells(b, start as int, packed as int, n as int);
        assert(cells@ =~= decoded);
        if kings_one != 1 || kings_two != 1 {
            let mut message = text_number_text("kings per side [", kings_one as u64, ", ");
            let tail = text_number_text("", kings_two as u64, "], need exactly one each");
            message.append(tail.as_str());
            return Err(message);
        }
        let mut cursor = start + packed;
        let flags = bytes[cursor];
        cursor += 1;
        let to_move = if flags & 1 == 0 {
            Player::One
        } else {
            Player::Two
        };
        let wdl_code = (flags >> 1u8) & 3;
        if wdl_code == 3 {
            return Err(String::from_str("invalid WDL bits"));
        }
        let wdl = if wdl_code == 0 {
            Wdl::Loss
        } else if wdl_code == 1 {
            Wdl::Draw
        } else {
            Wdl::Win
        };
        let r0 = flags & (1u8 << 3u8) != 0;
        let r1 = flags & (1u8 << 4u8) != 0;
        let r2 = flags & (1u8 << 5u8) != 0;
        let r3 = flags & (1u8 << 6u8) != 0;
        let castling = [r0, r1, r2, r3];
        assert(castling@ =~= Seq::new(4, |i: int| flags & ((1u8 << ((3 + i) as u8)) as u8) != 0));
        if (r0 || r1 || r2 || r3) && !self.ruleset().castles_exec() {
            return Err(String::from_str("castling rights in a castling-free ruleset"));
        }
        let ep = if flags & 0x80 != 0 {
            if cursor >= end {
                return Err(String::from_str("record truncated"));
            }
            let square = bytes[cursor] as u16;
            cursor += 1;
            let rank = square / self.width();
            if square as usize >= n || rank == 0 || rank + 1 >= self.height() {
                return Err(text_number_text("en-passant square ", square as u64, " is impossible"));
            }
            Some(square)
        } else {
            None
        };
        if cursor >= end {
            return Err(String::from_str("record truncated"));
        }
        let halfmove = bytes[cursor] as u16;
        cursor += 1;
        let s = self.core_state(cells, to_move, castling, ep, halfmove);
        Ok((s, wdl, cursor - start))
    }

    /// Decode one record from the front of `bytes`.
    pub fn unpack_record(&self, bytes: &[u8]) -> (r: Result<(FcState, Wdl, usize), String>)
        requires
            self.wf(),
        ensures
            r is Ok <==> self.decode_spec(bytes@, 0, bytes@.len() as int) is Some,
            r matches Ok((s, wdl, used)) ==> {
                &&& self.decode_spec(bytes@, 0, bytes@.len() as int) == Some((self.model(&s).core, wdl, used as int))
                &&& self.model(&s).history == Seq::<u64>::empty()
                &&& self.valid(self.model(&s))
            },
    {
        self.unpack_record_at(bytes, 0, bytes.len())
    }
}


/// Header: magic, version, ruleset code, width, height, count.
pub open spec fn header_bytes(code: u8, w: u8, h: u8, count: u64) -> Seq<u8> {
    seq![0x46u8, 0x43u8, 0x54u8, 0x42u8, TB_VERSION, code, w, h] + le_bytes(count)
}

pub open spec fn footer_magic() -> Seq<u8> {
    seq![0x42u8, 0x54u8, 0x43u8, 0x46u8]
}

/// Append the little-endian bytes of `x`.
fn push_le(out: &mut Vec<u8>, x: u64)
    ensures
        final(out)@ == old(out)@ + le_bytes(x),
{
    let ghost start = out@;
    let mut i: u64 = 0;
    while i < 8
        invariant
            i <= 8,
            out@ == start + le_bytes(x).take(i as int),
        decreases 8 - i,
    {
        out.push(((x >> (8 * i)) & 0xff) as u8);
        proof {
            assert(out@ =~= start + le_bytes(x).take(i + 1));
        }
        i += 1;
    }
    assert(le_bytes(x).take(8) =~= le_bytes(x));
}

fn read_le(data: &[u8], start: usize) -> (x: u64)
    requires
        start + 8 <= data@.len(),
    ensures
        x == le_word(data@, start as int),
{
    (data[start] as u64) | ((data[start + 1] as u64) << 8u64) | ((data[start + 2] as u64) << 16u64) | ((
    data[start + 3] as u64) << 24u64) | ((data[start + 4] as u64) << 32u64) | ((data[start + 5] as u64)
        << 40u64) | ((data[start + 6] as u64) << 48u64) | ((data[start + 7] as u64) << 56u64)
}

impl ForwardChess {
    /// Concatenated records of the first `k` states.
    pub open spec fn records_bytes(&self, states: Seq<FcState>, values: Seq<Wdl>, k: int) -> Seq<u8>
        decreases k,
    {
        if k <= 0 {
            Seq::empty()
        } else {
            self.records_bytes(states, values, k - 1) + record_bytes(self.model(&states[k - 1]).core, values[k - 1], self.n())
        }
    }

    /// The whole tablebase file of `states` with `values`.
    pub open spec fn tablebase_bytes(&self, states: Seq<FcState>, values: Seq<Wdl>) -> Seq<u8> {
        let body = header_bytes(ruleset_code(self.spec_ruleset()), self.w() as u8, self.h() as u8, states.len() as u64)
            + self.records_bytes(states, values, states.len() as int);
        body + footer_magic() + le_bytes(fnv_fold(FNV_OFFSET, body))
    }

    /// Records decoded from `cursor`, `count` of them, ending exactly at
    /// `end`.
    pub open spec fn records_decode(&self, data: Seq<u8>, cursor: int, end: int, count: nat) -> Option<Seq<(CoreModel, Wdl)>>
        decreases count,
    {
        if count == 0 {
            if cursor == end {
                Some(Seq::empty())
            } else {
                None
            }
        } else {
            match self.decode_spec(data, cursor, end) {
                Some((core, wdl, used)) => match self.records_decode(data, cursor + used, end, (count - 1) as nat) {
                    Some(rest) => Some(seq![(core, wdl)] + rest),
                    None => None,
                },
                None => None,
            }
        }
    }

    /// What a tablebase file holds, or `None` if it is malformed.
    pub open spec fn read_spec(&self, data: Seq<u8>) -> Option<Seq<(CoreModel, Wdl)>> {
        let len = data.len() as int;
        let body_end = len - 12;
        if len < 28 {
            None
        } else if data.take(4) != seq![0x46u8, 0x43u8, 0x54u8, 0x42u8] {
            None
        } else if data[4] != TB_VERSION {
            None
        } else if data[5] != ruleset_code(self.spec_ruleset()) {
            None
        } else if data[6] != self.w() as u8 || data[7] != self.h() as u8 {
            None
        } else if data.subrange(body_end, body_end + 4) != footer_magic() {
            None
        } else if fnv_fold(FNV_OFFSET, data.take(body_end)) != le_word(data, body_end + 4) {
            None
        } else {
            self.records_decode(data, 16, body_end, le_word(data, 8) as nat)
        }
    }

    /// The message for a file whose header, footer or checksum is wrong,
    /// checked in that order; `None` when all of them are right.
    pub open spec fn header_error(&self, data: Seq<u8>) -> Option<Seq<char>> {
        let len = data.len() as int;
        let body_end = len - 12;
        if len < 28 {
            Some("tablebase truncated"@)
        } else if data.take(4) != seq![0x46u8, 0x43u8, 0x54u8, 0x42u8] {
            Some("bad tablebase magic"@)
        } else if data[4] != TB_VERSION {
            Some("unsupported tablebase version "@ + decimal(data[4] as nat))
        } else if data[5] != ruleset_code(self.spec_ruleset()) {
            Some("tablebase ruleset code "@ + decimal(data[5] as nat) + " does not match "@ + ruleset_label(
                self.spec_ruleset(),
            ))
        } else if data[6] != self.w() as u8 || data[7] != self.h() as u8 {
            Some("tablebase dimensions do not match the ruleset"@)
        } else if data.subrange(body_end, body_end + 4) != footer_magic() {
            Some("bad tablebase footer magic"@)
        } else if fnv_fold(FNV_OFFSET, data.take(body_end)) != le_word(data, body_end + 4) {
            Some("tablebase checksum mismatch"@)
        } else {
            None
        }
    }

    pub open spec fn rows_view(&self, rows: Seq<(FcState, Wdl)>) -> Seq<(CoreModel, Wdl)> {
        Seq::new(rows.len(), |i: int| (self.model(&rows[i].0).core, rows[i].1))
    }
}

impl ForwardChess {
    /// The rows a tablebase of `states` with `values` loads as.
    pub open spec fn reloaded_rows(&self, states: Seq<FcState>, values: Seq<Wdl>) -> Seq<(CoreModel, Wdl)> {
        Seq::new(states.len(), |i: int| (self.reloaded(self.model(&states[i]).core), values[i]))
    }

    proof fn lemma_records_prefix(&self, states: Seq<FcState>, values: Seq<Wdl>, k: int, m: int)
        requires
            0 <= k <= m,
        ensures
            self.records_bytes(states, values, k).len() <= self.records_bytes(states, values, m).len(),
            self.records_bytes(states, values, m).take(self.records_bytes(states, values, k).len() as int)
                == self.records_bytes(states, values, k),
        decreases m,
    {
        if k < m {
            self.lemma_records_prefix(states, values, k, m - 1);
            let a = self.records_bytes(states, values, k);
            let b = self.records_bytes(states, values, m - 1);
            let c = self.records_bytes(states, values, m);
            assert(c.take(a.len() as int) =~= b.take(a.len() as int));
        } else {
            let c = self.records_bytes(states, values, m);
            assert(c.take(c.len() as int) =~= c);
        }
    }

    proof fn lemma_records_decode(&self, states: Seq<FcState>, values: Seq<Wdl>, k: int)
        requires
            self.wf(),
            states.len() == values.len(),
            states.len() <= u64::MAX,
            forall|i: int| 0 <= i < states.len() ==> self.valid(self.model(&#[trigger] states[i])),
            forall|i: int| 0 <= i < states.len() ==> self.storable(self.model(&#[trigger] states[i]).core),
            0 <= k <= states.len(),
        ensures
            self.records_decode(
                self.tablebase_bytes(states, values),
                16 + self.records_bytes(states, values, k).len() as int,
                self.tablebase_bytes(states, values).len() - 12,
                (states.len() - k) as nat,
            ) == Some(self.reloaded_rows(states, values).subrange(k, states.len() as int)),
        decreases states.len() - k,
    {
        let data = self.tablebase_bytes(states, values);
        let len = states.len() as int;
        let all = self.records_bytes(states, values, len);
        let body = header_bytes(ruleset_code(self.spec_ruleset()), self.w() as u8, self.h() as u8, len as u64) + all;
        assert(data.len() - 12 == 16 + all.len());
        let cursor: int = 16 + self.records_bytes(states, values, k).len() as int;
        let end = data.len() - 12;
        let rows = self.reloaded_rows(states, values);
        if k == len {
            assert(rows.subrange(k, len) =~= Seq::<(CoreModel, Wdl)>::empty());
        } else {
            let core = self.model(&states[k]).core;
            let rec = record_bytes(core, values[k], self.n());
            let before = self.records_bytes(states, values, k);
            let after = self.records_bytes(states, values, k + 1);
            assert(after == before + rec);
            self.lemma_records_prefix(states, values, k + 1, len);
            assert(all.take(after.len() as int) == after);
            assert(data.subrange(cursor, cursor + rec.len() as int) =~= rec) by {
                assert forall|t: int| 0 <= t < rec.len() implies data.subrange(cursor, cursor + rec.len() as int)[t]
                    == rec[t] by {
                    assert(data[cursor + t] == body[cursor + t]);
                    assert(body[cursor + t] == all[before.len() + t]);
                    assert(all[before.len() + t] == all.take(after.len() as int)[before.len() + t]);
                    assert(after[before.len() + t] == rec[t]);
                }
            }
            self.lemma_decode_record(data, cursor, end, core, values[k]);
            self.lemma_records_decode(states, values, k + 1);
            assert(cursor + rec.len() == 16 + after.len());
            assert(seq![(self.reloaded(core), values[k])] + rows.subrange(k + 1, len) =~= rows.subrange(k, len));
        }
    }

    /// Reading back a written tablebase gives each stored position — its
    /// board, side to move, castling rights, en-passant square and
    /// halfmove clock, with key and outcome recomputed from them — with
    /// its value, in the order written.
    pub proof fn lemma_tablebase_roundtrip(&self, states: Seq<FcState>, values: Seq<Wdl>)
        requires
            self.wf(),
            states.len() == values.len(),
            states.len() <= u64::MAX,
            forall|i: int| 0 <= i < states.len() ==> self.valid(self.model(&#[trigger] states[i])),
            forall|i: int| 0 <= i < states.len() ==> self.storable(self.model(&#[trigger] states[i]).core),
        ensures
            self.read_spec(self.tablebase_bytes(states, values)) == Some(self.reloaded_rows(states, values)),
    {
        let data = self.tablebase_bytes(states, values);
        let len = states.len() as int;
        let all = self.records_bytes(states, values, len);
        let header = header_bytes(ruleset_code(self.spec_ruleset()), self.w() as u8, self.h() as u8, len as u64);
        let body = header + all;
        let ck = fnv_fold(FNV_OFFSET, body);
        assert(data == body + footer_magic() + le_bytes(ck));
        let body_end = data.len() - 12;
        assert(body_end == body.len());
        assert(data.take(4) =~= seq![0x46u8, 0x43u8, 0x54u8, 0x42u8]);
        assert(data[4] == TB_VERSION);
        assert(data[5] == ruleset_code(self.spec_ruleset()));
        assert(data[6] == self.w() as u8 && data[7] == self.h() as u8);
        assert(data.subrange(body_end, body_end + 4) =~= footer_magic());
        assert(data.take(body_end) =~= body);
        assert(data.subrange(body_end + 4, body_end + 12) =~= le_bytes(ck));
        lemma_le_roundtrip(ck, data, body_end + 4);
        assert(data.subrange(8, 16) =~= le_bytes(len as u64));
        lemma_le_roundtrip(len as u64, data, 8);
        self.lemma_records_decode(states, values, 0);
        assert(self.records_bytes(states, values, 0).len() == 0);
        let rows = self.reloaded_rows(states, values);
        assert(rows.subrange(0, len) =~= rows);
    }
}

impl ForwardChess {
    /// One packed record reads back as the position it was packed from
    /// (key and outcome recomputed), with its value, using all its bytes.
    pub proof fn lemma_record_roundtrip(&self, core: CoreModel, wdl: Wdl)
        requires
            self.wf(),
            self.core_ok(core),
            self.storable(core),
        ensures
            self.decode_spec(record_bytes(core, wdl, self.n()), 0, record_bytes(core, wdl, self.n()).len() as int)
                == Some((self.reloaded(core), wdl, record_bytes(core, wdl, self.n()).len() as int)),
    {
        let b = record_bytes(core, wdl, self.n());
        assert(b.subrange(0, b.len() as int) =~= b);
        self.lemma_decode_record(b, 0, b.len() as int, core, wdl);
    }

    /// A file shorter than header and footer, or written for another
    /// ruleset, is refused.
    pub proof fn lemma_tablebase_rejects(&self, other: &ForwardChess, data: Seq<u8>)
        requires
            self.wf(),
            other.wf(),
            self.spec_ruleset() != other.spec_ruleset(),
        ensures
            data.len() < 28 ==> self.read_spec(data) is None,
            other.read_spec(data) is Some ==> self.read_spec(data) is None,
    {
    }

    /// An empty tablebase is the 28 bytes of header and footer.
    pub proof fn lemma_empty_tablebase(&self)
        requires
            self.wf(),
        ensures
            self.tablebase_bytes(Seq::empty(), Seq::empty()).len() == 28,
            self.read_spec(self.tablebase_bytes(Seq::empty(), Seq::empty())) == Some(Seq::<(CoreModel, Wdl)>::empty()),
    {
        self.lemma_tablebase_roundtrip(Seq::empty(), Seq::empty());
        assert(self.reloaded_rows(Seq::empty(), Seq::empty()) =~= Seq::<(CoreModel, Wdl)>::empty());
    }
}

/// Append a solved tablebase to `out`; returns the bytes written.
pub fn write_tablebase(game: &ForwardChess, states: &[FcState], values: &[Wdl], out: &mut Vec<u8>) -> (total: u64)
    requires
        game.wf(),
        states@.len() == values@.len(),
        forall|i: int| 0 <= i < states@.len() ==> game.valid(game.model(&#[trigger] states@[i])),
        forall|i: int| 0 <= i < states@.len() ==> game.model(&#[trigger] states@[i]).core.halfmove <= 255,
    ensures
        final(out)@ == old(out)@ + game.tablebase_bytes(states@, values@),
        total == game.tablebase_bytes(states@, values@).len(),
{
    let ghost start = out@;
    let start_len = out.len();
    let mut body: Vec<u8> = Vec::new();
    body.push(0x46);
    body.push(0x43);
    body.push(0x54);
    body.push(0x42);
    body.push(TB_VERSION);
    body.push(game.ruleset().code());
    body.push(game.width() as u8);
    body.push(game.height() as u8);
    push_le(&mut body, states.len() as u64);
    assert(body@ =~= header_bytes(ruleset_code(game.spec_ruleset()), game.w() as u8, game.h() as u8, states@.len() as u64));
    let ghost header = body@;
    let mut i: usize = 0;
    while i < states.len()
        invariant
            game.wf(),
            states@.len() == values@.len(),
            forall|i: int| 0 <= i < states@.len() ==> game.valid(game.model(&#[trigger] states@[i])),
            forall|i: int| 0 <= i < states@.len() ==> game.model(&#[trigger] states@[i]).core.halfmove <= 255,
            i <= states@.len(),
            body@ == header + game.records_bytes(states@, values@, i as int),
        decreases states@.len() - i,
    {
        let ghost before = body@;
        game.pack_record(&states[i], values[i], &mut body);
        proof {
            assert(body@ =~= header + game.records_bytes(states@, values@, i + 1));
        }
        i += 1;
    }
    let checksum = fnv_update(FNV_OFFSET, body.as_slice());
    let mut k: usize = 0;
    let ghost body_view = body@;
    while k < body.len()
        invariant
            k <= body@.len(),
            body@ == body_view,
            out@ == start + body_view.take(k as int),
        decreases body@.len() - k,
    {
        out.push(body[k]);
        proof {
            assert(out@ =~= start + body_view.take(k + 1));
        }
        k += 1;
    }
    assert(body_view.take(body_view.len() as int) =~= body_view);
    out.push(0x42);
    out.push(0x54);
    out.push(0x43);
    out.push(0x46);
    push_le(out, checksum);
    proof {
        assert(out@ =~= start + game.tablebase_bytes(states@, values@));
    }
    (out.len() - start_len) as u64
}

/// Label of a ruleset.
pub open spec fn ruleset_label(r: Ruleset) -> Seq<char> {
    match r {
        Ruleset::Tiny => "tiny"@,
        Ruleset::Small => "small"@,
        Ruleset::Medium => "medium"@,
        Ruleset::Full => "full"@,
    }
}

/// Read a tablebase file: the checksum is verified before any record is
/// decoded; each decoded record is appended to `rows` in stored order.
/// Returns the record count.
pub fn read_tablebase_with(game: &ForwardChess, data: &[u8], rows: &mut Vec<(FcState, Wdl)>) -> (r: Result<u64, String>)
    requires
        game.wf(),
    ensures
        r is Ok <==> game.read_spec(data@) is Some,
        r matches Ok(count) ==> {
            &&& game.read_spec(data@) == Some(game.rows_view(final(rows)@.skip(old(rows)@.len() as int)))
            &&& final(rows)@.len() == old(rows)@.len() + count
            &&& final(rows)@.take(old(rows)@.len() as int) == old(rows)@
        },
        game.header_error(data@) matches Some(m) ==> (r matches Err(e) && e@ == m),
        game.header_error(data@) is None && r is Err ==> (r matches Err(e) && (e@ == "trailing bytes after the final record"@
            || exists|index: nat, why: Seq<char>| e@ == "record "@ + decimal(index) + ": "@ + why)),
{
    let ghost d = data@;
    if data.len() < 16 + 12 {
        return Err(String::from_str("tablebase truncated"));
    }
    if data[0] != 0x46 || data[1] != 0x43 || data[2] != 0x54 || data[3] != 0x42 {
        proof {
            if d.take(4) == seq![0x46u8, 0x43u8, 0x54u8, 0x42u8] {
                assert(d.take(4)[0] == d[0] && d.take(4)[1] == d[1] && d.take(4)[2] == d[2] && d.take(4)[3] == d[3]);
            }
        }
        return Err(String::from_str("bad tablebase magic"));
    }
    assert(d.take(4) =~= seq![0x46u8, 0x43u8, 0x54u8, 0x42u8]);
    if data[4] != TB_VERSION {
        let message = text_number_text("unsupported tablebase version ", data[4] as u64, "");
        proof {
            reveal_strlit("");
            assert(message@ =~= "unsupported tablebase version "@ + decimal(data[4] as nat));
        }
        return Err(message);
    }
    if data[5] != game.ruleset().code() {
        let mut message = text_number_text("tablebase ruleset code ", data[5] as u64, " does not match ");
        message.append(game.ruleset().label());
        return Err(message);
    }
    if data[6] != game.width() as u8 || data[7] != game.height() as u8 {
        return Err(String::from_str("tablebase dimensions do not match the ruleset"));
    }
    let count = read_le(data, 8);
    let body_end = data.len() - 12;
    if data[body_end] != 0x42 || data[body_end + 1] != 0x54 || data[body_end + 2] != 0x43 || data[body_end + 3] != 0x46 {
        proof {
            let f = d.subrange(body_end as int, body_end + 4);
            if f == footer_magic() {
                assert(f[0] == d[body_end as int] && f[1] == d[body_end + 1] && f[2] == d[body_end + 2] && f[3] == d[body_end + 3]);
            }
        }
        return Err(String::from_str("bad tablebase footer magic"));
    }
    assert(d.subrange(body_end as int, body_end + 4) =~= footer_magic());
    let (body, _) = data.split_at(body_end);
    assert(body@ =~= d.take(body_end as int));
    let checksum = fnv_update(FNV_OFFSET, body);
    let stored = read_le(data, body_end + 4);
    if checksum != stored {
        return Err(String::from_str("tablebase checksum mismatch"));
    }
    let ghost start_rows = rows@;
    assert(game.read_spec(d) == game.records_decode(d, 16, body_end as int, count as nat));
    assert(game.header_error(d) is None);
    let mut cursor: usize = 16;
    let mut index: u64 = 0;
    while index < count
        invariant
            game.wf(),
            d == data@,
            body_end == d.len() - 12,
            body_end >= 16,
            16 <= cursor <= body_end,
            game.header_error(d) is None,
            game.read_spec(d) == game.records_decode(d, 16, body_end as int, count as nat),
            index <= count,
            rows@.len() == start_rows.len() + index,
            rows@.take(start_rows.len() as int) == start_rows,
            game.records_decode(d, 16, body_end as int, count as nat) == match game.records_decode(d, cursor as int, body_end as int, (count - index) as nat) {
                Some(rest) => Some(game.rows_view(rows@.skip(start_rows.len() as int)) + rest),
                None => None,
            },
        decreases count - index,
    {
        let decoded = game.unpack_record_at(data, cursor, body_end);
        match decoded {
            Ok((state, wdl, consumed)) => {
                let ghost before = rows@;
                rows.push((state, wdl));
                proof {
                    assert(rows@.take(start_rows.len() as int) =~= before.take(start_rows.len() as int));
                    assert(game.rows_view(rows@.skip(start_rows.len() as int)) =~= game.rows_view(before.skip(start_rows.len() as int)).push((game.model(&state).core, wdl)));
                }
                cursor = cursor + consumed;
                index = index + 1;
            },
            Err(e) => {
                assert(game.decode_spec(d, cursor as int, body_end as int) is None);
                assert(game.records_decode(d, cursor as int, body_end as int, (count - index) as nat) is None);
                let mut message = text_number_text("record ", index as u64, ": ");
                message.append(e.as_str());
                proof {
                    assert(message@ == "record "@ + decimal(index as nat) + ": "@ + e@);
                }
                return Err(message);
            },
        }
    }
    if cursor != body_end {
        return Err(String::from_str("trailing bytes after the final record"));
    }
    assert(rows@.skip(start_rows.len() as int).len() == count);
    Ok(count)
}

/// Load a whole tablebase into memory.
pub fn read_tablebase(game: &ForwardChess, data: &[u8]) -> (r: Result<Vec<(FcState, Wdl)>, String>)
    requires
        game.wf(),
    ensures
        r is Ok <==> game.read_spec(data@) is Some,
        r matches Ok(rows) ==> game.read_spec(data@) == Some(game.rows_view(rows@)),
        game.header_error(data@) matches Some(m) ==> (r matches Err(e) && e@ == m),
        game.header_error(data@) is None && r is Err ==> (r matches Err(e) && (e@ == "trailing bytes after the final record"@
            || exists|index: nat, why: Seq<char>| e@ == "record "@ + decimal(index) + ": "@ + why)),
{
    let mut rows: Vec<(FcState, Wdl)> = Vec::new();
    match read_tablebase_with(game, data, &mut rows) {
        Ok(_) => {
            assert(rows@.skip(0) =~= rows@);
            Ok(rows)
        },
        Err(e) => Err(e),
    }
}

} // verus!
