//! Experiment bookkeeping: the environment manifest recorded for every
//! run, the FNV-1a fingerprint, run-directory timestamps and the clock.
//!
//! Every run lives in `runs/<timestamp>-<label>-<git-sha>/`; creating the
//! directory and gathering the manifest are I/O and happen in the
//! program around this library.

use crate::text::{decimal, digit_char, push_ascii, push_decimal, push_digit};
use vstd::prelude::*;

verus! {

/// Environment and provenance manifest recorded for every run.
#[derive(Clone, Debug)]
pub struct Manifest {
    pub git_commit: String,
    pub git_dirty: bool,
    pub rust_toolchain: String,
    pub cargo_lock_hash: String,
    pub os: String,
    pub cpu_model: String,
    pub logical_cpus: usize,
    pub allocated_threads: usize,
    pub ram_bytes: u64,
    pub build_profile: String,
    pub build_rustflags: String,
    pub model_parameter_count: u64,
    pub seed: u64,
    pub command: Vec<String>,
    pub start_unix_seconds: u64,
    pub end_unix_seconds: Option<u64>,
    pub exit_status: String,
}

pub const FNV_OFFSET: u64 = 0xcbf2_9ce4_8422_2325;

pub const FNV_PRIME: u64 = 0x0000_0100_0000_01b3;

/// One FNV-1a step: XOR in the byte, then multiply modulo 2^64.
pub open spec fn fnv_step(h: u64, b: u8) -> u64 {
    (((h ^ (b as u64)) as nat * FNV_PRIME as nat) % 0x1_0000_0000_0000_0000) as u64
}

/// FNV-1a state after feeding `bytes` to state `h`.
pub open spec fn fnv_fold(h: u64, bytes: Seq<u8>) -> u64
    decreases bytes.len(),
{
    if bytes.len() == 0 {
        h
    } else {
        fnv_step(fnv_fold(h, bytes.drop_last()), bytes.last())
    }
}

/// Feeding two byte strings one after the other feeds their concatenation.
pub proof fn lemma_fnv_concat(h: u64, a: Seq<u8>, b: Seq<u8>)
    ensures
        fnv_fold(fnv_fold(h, a), b) == fnv_fold(h, a + b),
    decreases b.len(),
{
    if b.len() == 0 {
        assert(a + b =~= a);
    } else {
        lemma_fnv_concat(h, a, b.drop_last());
        assert((a + b).drop_last() =~= a + b.drop_last());
        assert((a + b).last() == b.last());
    }
}

/// Continue an FNV-1a hash with `bytes`.
pub fn fnv_update(h: u64, bytes: &[u8]) -> (r: u64)
    ensures
        r == fnv_fold(h, bytes@),
{
    let mut hash = h;
    let mut i: usize = 0;
    while i < bytes.len()
        invariant
            i <= bytes@.len(),
            hash == fnv_fold(h, bytes@.subrange(0, i as int)),
        decreases bytes@.len() - i,
    {
        proof {
            assert(bytes@.subrange(0, i + 1).drop_last() =~= bytes@.subrange(0, i as int));
        }
        hash = (hash ^ bytes[i] as u64).wrapping_mul(FNV_PRIME);
        i += 1;
    }
    assert(bytes@.subrange(0, i as int) =~= bytes@);
    hash
}

/// 64-bit FNV-1a; used to fingerprint `Cargo.lock`, not for security.
pub fn fnv1a64(bytes: &[u8]) -> (r: u64)
    ensures
        r == fnv_fold(FNV_OFFSET, bytes@),
{
    fnv_update(FNV_OFFSET, bytes)
}

/// Proleptic Gregorian date `(year, month, day)` of day number `days`
/// counted from 1970-01-01 (Howard Hinnant's civil-from-days).
pub open spec fn civil_from_days(days: int) -> (int, int, int) {
    let z = days + 719_468;
    let era = z / 146_097;
    let doe = z % 146_097;
    let yoe = (doe - doe / 1460 + doe / 36_524 - doe / 146_096) / 365;
    let y = yoe + era * 400;
    let doy = doe - (365 * yoe + yoe / 4 - yoe / 100);
    let mp = (5 * doy + 2) / 153;
    let d = doy - (153 * mp + 2) / 5 + 1;
    let m = if mp < 10 {
        mp + 3
    } else {
        mp - 9
    };
    (if m <= 2 {
        y + 1
    } else {
        y
    }, m, d)
}

/// Decimal numeral of `n`, left-padded with zeros to `width` digits.
pub open spec fn padded(n: nat, width: nat) -> Seq<char> {
    Seq::new(
        if decimal(n).len() < width {
            (width - decimal(n).len()) as nat
        } else {
            0
        },
        |i: int| '0',
    ) + decimal(n)
}

/// `YYYYmmdd-HHMMSS` of a Unix time.
pub open spec fn timestamp_text(unix_secs: nat) -> Seq<char> {
    let (y, m, d) = civil_from_days((unix_secs / 86_400) as int);
    let secs = unix_secs % 86_400;
    padded(y as nat, 4) + padded(m as nat, 2) + padded(d as nat, 2) + seq!['-'] + padded(
        secs / 3600,
        2,
    ) + padded((secs % 3600) / 60, 2) + padded(secs % 60, 2)
}

proof fn lemma_decimal_len(n: nat)
    ensures
        decimal(n).len() >= 1,
        n < 10 ==> decimal(n).len() == 1,
        10 <= n < 100 ==> decimal(n).len() == 2,
        100 <= n < 1000 ==> decimal(n).len() == 3,
        10 <= n ==> decimal(n).len() >= 2,
        100 <= n ==> decimal(n).len() >= 3,
        1000 <= n ==> decimal(n).len() >= 4,
    decreases n,
{
    if n >= 10 {
        lemma_decimal_len(n / 10);
    }
}

/// Append `n` zero-padded to `width` digits.
fn push_padded(s: &mut String, n: u64, width: usize)
    requires
        width <= 4,
    ensures
        final(s)@ == old(s)@ + padded(n as nat, width as nat),
{
    proof {
        lemma_decimal_len(n as nat);
    }
    let digits: usize = if n < 10 {
        1
    } else if n < 100 {
        2
    } else if n < 1000 {
        3
    } else {
        4
    };
    let ghost zeros = if decimal(n as nat).len() < width {
        (width - decimal(n as nat).len()) as nat
    } else {
        0nat
    };
    let mut k: usize = digits;
    let ghost start = s@;
    while k < width
        invariant
            digits <= k,
            k <= width || digits == k,
            width <= 4,
            digits <= 4,
            n >= 1000 ==> digits == 4 && decimal(n as nat).len() >= 4,
            n < 1000 ==> decimal(n as nat).len() == digits,
            s@ == start + Seq::new((k - digits) as nat, |i: int| '0'),
        decreases width - k,
    {
        s.append("0");
        proof {
            reveal_strlit("0");
            assert(s@ =~= start + Seq::new((k + 1 - digits) as nat, |i: int| '0'));
        }
        k += 1;
    }
    proof {
        assert(Seq::new((k - digits) as nat, |i: int| '0') =~= Seq::new(zeros, |i: int| '0'));
    }
    push_decimal(s, n);
    proof {
        assert(final(s)@ =~= old(s)@ + padded(n as nat, width as nat));
    }
}

/// `YYYYmmdd-HHMMSS` in UTC, for run-directory names.
pub fn utc_timestamp_compact(unix_secs: u64) -> (out: String)
    ensures
        out@ == timestamp_text(unix_secs as nat),
{
    let days = unix_secs / 86_400;
    let secs = unix_secs % 86_400;
    let z = days + 719_468;
    let era = z / 146_097;
    let doe = z % 146_097;
    let yoe = (doe - doe / 1460 + doe / 36_524 - doe / 146_096) / 365;
    let y = yoe + era * 400;
    let doy = doe - (365 * yoe + yoe / 4 - yoe / 100);
    let mp = (5 * doy + 2) / 153;
    let d = doy - (153 * mp + 2) / 5 + 1;
    let m = if mp < 10 {
        mp + 3
    } else {
        mp - 9
    };
    let y = if m <= 2 {
        y + 1
    } else {
        y
    };
    let mut out = String::new();
    push_padded(&mut out, y, 4);
    push_padded(&mut out, m, 2);
    push_padded(&mut out, d, 2);
    out.append("-");
    proof {
        reveal_strlit("-");
    }
    push_padded(&mut out, secs / 3600, 2);
    push_padded(&mut out, (secs % 3600) / 60, 2);
    push_padded(&mut out, secs % 60, 2);
    proof {
        assert(out@ =~= timestamp_text(unix_secs as nat));
    }
    out
}

/// Name of the directory of a run started at `unix_secs`:
/// `<timestamp>-<label>-<sha7>`.
pub fn run_dir_name(unix_secs: u64, label: &str, sha7: &str) -> (name: String)
    ensures
        name@ == timestamp_text(unix_secs as nat) + "-"@ + label@ + "-"@ + sha7@,
{
    let mut name = utc_timestamp_compact(unix_secs);
    name.append("-");
    name.append(label);
    name.append("-");
    name.append(sha7);
    name
}

/// Lower-case hexadecimal digit of `d < 16`.
pub open spec fn hex_char(d: nat) -> char {
    if d < 10 {
        digit_char(d)
    } else if d == 10 {
        'a'
    } else if d == 11 {
        'b'
    } else if d == 12 {
        'c'
    } else if d == 13 {
        'd'
    } else if d == 14 {
        'e'
    } else {
        'f'
    }
}

/// The low `k` hexadecimal digits of `x`, most significant first.
pub open spec fn hex_digits(x: nat, k: nat) -> Seq<char>
    decreases k,
{
    if k == 0 {
        Seq::empty()
    } else {
        hex_digits(x / 16, (k - 1) as nat).push(hex_char(x % 16))
    }
}

fn push_hex_digits(s: &mut String, x: u64, k: u64)
    ensures
        final(s)@ == old(s)@ + hex_digits(x as nat, k as nat),
    decreases k,
{
    if k > 0 {
        push_hex_digits(s, x / 16, k - 1);
        let d = x % 16;
        if d < 10 {
            push_digit(s, d);
        } else {
            push_ascii(s, (87 + d) as u8);
        }
        proof {
            assert(final(s)@ =~= old(s)@ + hex_digits(x as nat, k as nat));
        }
    }
}

/// Fingerprint of a lock file: `fnv1a64:` and the FNV-1a-64 hash of its
/// bytes as 16 lower-case hexadecimal digits.
pub fn lock_fingerprint(bytes: &[u8]) -> (s: String)
    ensures
        s@ == "fnv1a64:"@ + hex_digits(fnv_fold(FNV_OFFSET, bytes@) as nat, 16),
{
    let hash = fnv1a64(bytes);
    let mut s = String::from_str("fnv1a64:");
    push_hex_digits(&mut s, hash, 16);
    s
}

/// Is `b` ASCII white space (tab, line feed, vertical tab, form feed,
/// carriage return, space)?
pub open spec fn is_space(b: u8) -> bool {
    b == 32 || (9 <= b <= 13)
}

/// Index of the first `b` in `s` at or after `i` (`s.len()` if none).
pub open spec fn index_of(s: Seq<u8>, b: u8, i: int) -> int
    decreases s.len() - i,
{
    if i >= s.len() {
        s.len() as int
    } else if s[i] == b {
        i
    } else {
        index_of(s, b, i + 1)
    }
}

pub proof fn lemma_index_of(s: Seq<u8>, b: u8, i: int)
    requires
        0 <= i <= s.len(),
    ensures
        i <= index_of(s, b, i) <= s.len(),
    decreases s.len() - i,
{
    if i < s.len() && s[i] != b {
        lemma_index_of(s, b, i + 1);
    }
}

/// The line of `text` starting at `i`, without its line feed and a
/// carriage return before it.
pub open spec fn line_at(text: Seq<u8>, i: int) -> Seq<u8> {
    let e = index_of(text, 10, i);
    if e < text.len() && e > i && text[e - 1] == 13 {
        text.subrange(i, e - 1)
    } else {
        text.subrange(i, e)
    }
}

/// The first line of `text` at or after the line starting at `i` that
/// begins with `key`.
pub open spec fn find_line(text: Seq<u8>, key: Seq<u8>, i: int) -> Option<Seq<u8>>
    decreases text.len() - i,
{
    if i < 0 || i >= text.len() {
        None
    } else {
        let line = line_at(text, i);
        let e = index_of(text, 10, i);
        proof {
            lemma_index_of(text, 10, i);
        }
        if line.len() >= key.len() && line.take(key.len() as int) == key {
            Some(line)
        } else if e >= text.len() {
            None
        } else {
            find_line(text, key, e + 1)
        }
    }
}

/// `s` without leading white space.
pub open spec fn trim_start(s: Seq<u8>) -> Seq<u8>
    decreases s.len(),
{
    if s.len() > 0 && is_space(s[0]) {
        trim_start(s.drop_first())
    } else {
        s
    }
}

/// `s` without trailing white space.
pub open spec fn trim_end(s: Seq<u8>) -> Seq<u8>
    decreases s.len(),
{
    if s.len() > 0 && is_space(s.last()) {
        trim_end(s.drop_last())
    } else {
        s
    }
}

/// The value of a `key: value` line: the text between its first and
/// second colon (empty without a colon), white space trimmed.
pub open spec fn field_of(line: Seq<u8>) -> Seq<u8> {
    let c = index_of(line, 58, 0);
    if c >= line.len() {
        Seq::empty()
    } else {
        trim_end(trim_start(line.subrange(c + 1, index_of(line, 58, c + 1))))
    }
}

/// The first white-space-separated word of `s`.
pub open spec fn first_word(s: Seq<u8>) -> Seq<u8> {
    let t = trim_start(s);
    t.take(index_of_space(t, 0))
}

/// Index of the first white-space byte of `s` at or after `i`
/// (`s.len()` if none).
pub open spec fn index_of_space(s: Seq<u8>, i: int) -> int
    decreases s.len() - i,
{
    if i >= s.len() {
        s.len() as int
    } else if is_space(s[i]) {
        i
    } else {
        index_of_space(s, i + 1)
    }
}

/// Value of a string of decimal digits.
pub open spec fn digits_value(s: Seq<u8>) -> nat
    decreases s.len(),
{
    if s.len() == 0 {
        0
    } else {
        digits_value(s.drop_last()) * 10 + (s.last() - 48) as nat
    }
}

pub open spec fn all_digits(s: Seq<u8>) -> bool {
    forall|i: int| 0 <= i < s.len() ==> 48 <= #[trigger] s[i] <= 57
}

/// An unsigned decimal number: an optional `+`, then one or more digits,
/// whose value fits 64 bits.
pub open spec fn parse_u64(s: Seq<u8>) -> Option<u64> {
    let d = if s.len() > 0 && s[0] == 43 {
        s.drop_first()
    } else {
        s
    };
    if d.len() > 0 && all_digits(d) && digits_value(d) <= u64::MAX {
        Some(digits_value(d) as u64)
    } else {
        None
    }
}

/// The value of the first line of `text` that starts with `key` (see
/// `field_of`), or `None` when no line does.
pub fn proc_field(text: &[u8], key: &[u8]) -> (r: Option<Vec<u8>>)
    ensures
        r is Some <==> find_line(text@, key@, 0) is Some,
        r matches Some(v) ==> v@ == field_of(find_line(text@, key@, 0)->0),
{
    let n = text.len();
    let mut i: usize = 0;
    while i < n
        invariant
            n == text@.len(),
            i <= n,
            find_line(text@, key@, 0) == find_line(text@, key@, i as int),
        decreases n - i,
    {
        let e = line_end(text, i);
        let stop = if e < n && e > i && text[e - 1] == 13 {
            e - 1
        } else {
            e
        };
        let ghost line = text@.subrange(i as int, stop as int);
        assert(line == line_at(text@, i as int));
        if stop - i >= key.len() {
            let matched = starts_with(text, i, key);
            assert(line.take(key@.len() as int) =~= text@.subrange(i as int, i + key@.len()));
            if matched {
                return Some(line_field(text, i, stop));
            }
        }
        if e >= n {
            return None;
        }
        i = e + 1;
    }
    None
}

/// Index of the line feed ending the line that starts at `i`.
fn line_end(text: &[u8], i: usize) -> (e: usize)
    requires
        i <= text@.len(),
    ensures
        e == index_of(text@, 10, i as int),
        i <= e <= text@.len(),
{
    let mut e = i;
    while e < text.len() && text[e] != 10
        invariant
            i <= e <= text@.len(),
            index_of(text@, 10, i as int) == index_of(text@, 10, e as int),
        decreases text@.len() - e,
    {
        e += 1;
    }
    e
}

/// Does `text[i..]` start with `key`?
fn starts_with(text: &[u8], i: usize, key: &[u8]) -> (r: bool)
    requires
        i + key@.len() <= text@.len(),
    ensures
        r == (text@.subrange(i as int, i + key@.len()) == key@),
{
    let tl = text.len();
    let mut k: usize = 0;
    while k < key.len()
        invariant
            tl == text@.len(),
            k <= key@.len(),
            i + key@.len() <= text@.len(),
            text@.subrange(i as int, i + k) == key@.take(k as int),
        decreases key@.len() - k,
    {
        if text[i + k] != key[k] {
            assert(text@.subrange(i as int, i + key@.len())[k as int] != key@[k as int]);
            return false;
        }
        assert(text@.subrange(i as int, i + k + 1) =~= key@.take(k + 1));
        k += 1;
    }
    assert(key@.take(key@.len() as int) =~= key@);
    true
}

/// The field of the line `text[start..stop]`.
fn line_field(text: &[u8], start: usize, stop: usize) -> (v: Vec<u8>)
    requires
        start <= stop <= text@.len(),
    ensures
        v@ == field_of(text@.subrange(start as int, stop as int)),
{
    let ghost line = text@.subrange(start as int, stop as int);
    let mut c = start;
    while c < stop && text[c] != 58
        invariant
            start <= c <= stop,
            stop <= text@.len(),
            line == text@.subrange(start as int, stop as int),
            index_of(line, 58, 0) == index_of(line, 58, c - start),
        decreases stop - c,
    {
        c += 1;
    }
    if c >= stop {
        return Vec::new();
    }
    let mut d = c + 1;
    while d < stop && text[d] != 58
        invariant
            start <= c < stop,
            c + 1 <= d <= stop,
            stop <= text@.len(),
            line == text@.subrange(start as int, stop as int),
            index_of(line, 58, c + 1 - start) == index_of(line, 58, d - start),
        decreases stop - d,
    {
        d += 1;
    }
    let ghost seg = line.subrange(c + 1 - start, d - start);
    let mut a = c + 1;
    while a < d && (text[a] == 32 || (9 <= text[a] && text[a] <= 13))
        invariant
            start <= c < stop,
            c + 1 <= a <= d,
            d <= stop <= text@.len(),
            line == text@.subrange(start as int, stop as int),
            trim_start(seg) == trim_start(line.subrange(a - start, d - start)),
        decreases d - a,
    {
        assert(line.subrange(a + 1 - start, d - start) =~= line.subrange(a - start, d - start).drop_first());
        a += 1;
    }
    let ghost front = line.subrange(a - start, d - start);
    assert(trim_start(front) == front);
    let mut b = d;
    while b > a && (text[b - 1] == 32 || (9 <= text[b - 1] && text[b - 1] <= 13))
        invariant
            start <= c < stop,
            c + 1 <= a,
            a <= b <= d,
            d <= stop <= text@.len(),
            line == text@.subrange(start as int, stop as int),
            trim_end(front) == trim_end(line.subrange(a - start, b - start)),
        decreases b - a,
    {
        assert(line.subrange(a - start, b - 1 - start) =~= line.subrange(a - start, b - start).drop_last());
        b -= 1;
    }
    let mut v: Vec<u8> = Vec::new();
    let mut k = a;
    while k < b
        invariant
            a <= k <= b,
            b <= text@.len(),
            v@ == text@.subrange(a as int, k as int),
        decreases b - k,
    {
        v.push(text[k]);
        assert(v@ =~= text@.subrange(a as int, k + 1));
        k += 1;
    }
    assert(line.subrange(a - start, b - start) =~= text@.subrange(a as int, b as int));
    v
}

/// A `kB` amount in bytes: the first word of `field` read as a number
/// of kibibytes; `None` when it is not a number or the bytes overflow 64
/// bits.
pub fn kib_field_bytes(field: &[u8]) -> (r: Option<u64>)
    ensures
        r == match parse_u64(first_word(field@)) {
            Some(kb) => if kb * 1024 <= u64::MAX {
                Some((kb * 1024) as u64)
            } else {
                None
            },
            None => None,
        },
{
    assert(field@.skip(0) =~= field@);
    let kb = match next_word(field, 0) {
        None => {
            assert(word_at(field@, 0) is None);
            assert(first_word(field@) =~= Seq::<u8>::empty());
            return None;
        },
        Some((a, b)) => {
            assert(word_at(field@, 0) == Some(first_word(field@)));
            parse_word(field, a, b)
        },
    };
    match kb {
        Some(value) => {
            if value > u64::MAX / 1024 {
                None
            } else {
                Some(value * 1024)
            }
        },
        None => None,
    }
}

/// A prefix of a digit string never has a larger value.
proof fn lemma_digits_value_prefix(s: Seq<u8>, k: int)
    requires
        0 <= k <= s.len(),
        all_digits(s.take(k)),
    ensures
        all_digits(s) ==> digits_value(s.take(k)) <= digits_value(s),
    decreases s.len(),
{
    if k < s.len() && all_digits(s) {
        assert(s.drop_last().take(k) =~= s.take(k));
        lemma_digits_value_prefix(s.drop_last(), k);
        assert(s.drop_last() =~= s.take(s.len() - 1));
    } else if k == s.len() {
        assert(s.take(k) =~= s);
    }
}

pub proof fn lemma_trim_start(s: Seq<u8>)
    ensures
        trim_start(s).len() <= s.len(),
        trim_start(s) == s.skip(s.len() - trim_start(s).len()),
        trim_start(s).len() > 0 ==> !is_space(trim_start(s)[0]),
    decreases s.len(),
{
    if s.len() > 0 && is_space(s[0]) {
        lemma_trim_start(s.drop_first());
        assert(s.drop_first().skip(s.drop_first().len() - trim_start(s).len()) =~= s.skip(
            s.len() - trim_start(s).len(),
        ));
    } else {
        assert(s.skip(0) =~= s);
    }
}

pub proof fn lemma_index_of_space(s: Seq<u8>, i: int)
    requires
        0 <= i <= s.len(),
    ensures
        i <= index_of_space(s, i) <= s.len(),
        i < s.len() && !is_space(s[i]) ==> index_of_space(s, i) > i,
    decreases s.len() - i,
{
    if i < s.len() && !is_space(s[i]) {
        lemma_index_of_space(s, i + 1);
    }
}

/// The `k`-th (from 0) white-space-separated word of `s`, if `s` has that
/// many.
pub open spec fn word_at(s: Seq<u8>, k: nat) -> Option<Seq<u8>>
    decreases s.len(),
{
    let t = trim_start(s);
    if t.len() == 0 {
        None
    } else {
        let e = index_of_space(t, 0);
        if k == 0 {
            Some(t.take(e))
        } else {
            proof {
                lemma_trim_start(s);
                lemma_index_of_space(t, 0);
            }
            word_at(t.skip(e), (k - 1) as nat)
        }
    }
}

/// Index of the last `)` among `s[0..i]`, or -1.
pub open spec fn last_paren(s: Seq<u8>, i: int) -> int
    decreases i,
{
    if i <= 0 {
        -1
    } else if s[i - 1] == 41 {
        i - 1
    } else {
        last_paren(s, i - 1)
    }
}

/// User and system CPU ticks from the text of `/proc/<pid>/stat`: the
/// 12th and 13th words after the last `)` (which closes the command name,
/// itself free to hold spaces and parentheses).
pub open spec fn cpu_ticks_spec(stat: Seq<u8>) -> Option<(u64, u64)> {
    let lp = last_paren(stat, stat.len() as int);
    if lp < 0 {
        None
    } else {
        let rest = stat.skip(lp + 1);
        match (word_at(rest, 11), word_at(rest, 12)) {
            (Some(a), Some(b)) => match (parse_u64(a), parse_u64(b)) {
                (Some(u), Some(v)) => Some((u, v)),
                _ => None,
            },
            _ => None,
        }
    }
}

/// The next word of `s` at or after `p`: `Some((a, b))` for `s[a..b]`.
fn next_word(s: &[u8], p: usize) -> (r: Option<(usize, usize)>)
    requires
        p <= s@.len(),
    ensures
        r is None ==> forall|k: nat| #[trigger] word_at(s@.skip(p as int), k) is None,
        r matches Some((a, b)) ==> {
            &&& p <= a < b <= s@.len()
            &&& word_at(s@.skip(p as int), 0) == Some(s@.subrange(a as int, b as int))
            &&& forall|k: nat| #[trigger] word_at(s@.skip(p as int), k + 1) == word_at(s@.skip(b as int), k)
        },
{
    let n = s.len();
    let ghost sp = s@.skip(p as int);
    let mut a = p;
    while a < n && (s[a] == 32 || (9 <= s[a] && s[a] <= 13))
        invariant
            p <= a <= n,
            n == s@.len(),
            sp == s@.skip(p as int),
            trim_start(sp) == trim_start(s@.skip(a as int)),
        decreases n - a,
    {
        assert(s@.skip(a + 1) =~= s@.skip(a as int).drop_first());
        a += 1;
    }
    let ghost t = s@.skip(a as int);
    assert(trim_start(t) == t);
    if a >= n {
        assert(t.len() == 0);
        return None;
    }
    let mut b = a;
    while b < n && !(s[b] == 32 || (9 <= s[b] && s[b] <= 13))
        invariant
            a <= b <= n,
            n == s@.len(),
            t == s@.skip(a as int),
            index_of_space(t, 0) == index_of_space(t, b - a),
        decreases n - b,
    {
        b += 1;
    }
    assert(index_of_space(t, (b - a) as int) == (b - a) as int);
    proof {
        lemma_index_of_space(t, 0);
        assert(t.take(b - a) =~= s@.subrange(a as int, b as int));
        assert(t.skip(b - a) =~= s@.skip(b as int));
        assert forall|k: nat| #[trigger] word_at(sp, k + 1) == word_at(s@.skip(b as int), k) by {
            assert(trim_start(sp) == t);
        }
    }
    Some((a, b))
}

/// The number spelt by `s[a..b]` (see `parse_u64`).
fn parse_word(s: &[u8], a: usize, b: usize) -> (r: Option<u64>)
    requires
        a <= b <= s@.len(),
    ensures
        r == parse_u64(s@.subrange(a as int, b as int)),
{
    let ghost word = s@.subrange(a as int, b as int);
    let mut d = a;
    if d < b && s[d] == 43 {
        d += 1;
    }
    let ghost digits = s@.subrange(d as int, b as int);
    assert(digits =~= if word.len() > 0 && word[0] == 43 {
        word.drop_first()
    } else {
        word
    });
    if d >= b {
        return None;
    }
    let mut value: u64 = 0;
    let mut k = d;
    assert(s@.subrange(d as int, d as int) =~= Seq::<u8>::empty());
    while k < b
        invariant
            d <= k <= b,
            d < b,
            b <= s@.len(),
            word == s@.subrange(a as int, b as int),
            digits == (if word.len() > 0 && word[0] == 43 {
                word.drop_first()
            } else {
                word
            }),
            digits == s@.subrange(d as int, b as int),
            all_digits(s@.subrange(d as int, k as int)),
            value == digits_value(s@.subrange(d as int, k as int)),
        decreases b - k,
    {
        let c = s[k];
        if c < 48 || c > 57 {
            assert(digits[k - d] == c);
            return None;
        }
        let ghost prefix = s@.subrange(d as int, k + 1);
        assert(prefix.drop_last() =~= s@.subrange(d as int, k as int));
        assert(all_digits(prefix));
        assert(digits_value(prefix) == value * 10 + (c - 48));
        if value > (u64::MAX - (c - 48) as u64) / 10 {
            proof {
                assert(digits.take(k + 1 - d) =~= prefix);
                lemma_digits_value_prefix(digits, k + 1 - d);
                assert(value * 10 + (c - 48) > u64::MAX) by (nonlinear_arith)
                    requires
                        value > (u64::MAX - (c - 48) as u64) / 10,
                        48 <= c <= 57,
                ;
            }
            return None;
        }
        value = value * 10 + (c - 48) as u64;
        k += 1;
    }
    assert(s@.subrange(d as int, b as int) =~= digits);
    Some(value)
}

/// User and system CPU ticks of a `/proc/<pid>/stat` text.
pub fn cpu_ticks(stat: &[u8]) -> (r: Option<(u64, u64)>)
    ensures
        r == cpu_ticks_spec(stat@),
{
    let n = stat.len();
    let mut i = n;
    while i > 0 && stat[i - 1] != 41
        invariant
            i <= n,
            n == stat@.len(),
            last_paren(stat@, n as int) == last_paren(stat@, i as int),
        decreases i,
    {
        i -= 1;
    }
    if i == 0 {
        return None;
    }
    let ghost rest = stat@.skip(i as int);
    assert(last_paren(stat@, n as int) == i - 1);
    let mut p = i;
    let mut j: u64 = 0;
    assert(stat@.skip(i as int) =~= rest);
    while j < 11
        invariant
            1 <= i <= p <= n,
            n == stat@.len(),
            last_paren(stat@, n as int) == i - 1,
            j <= 11,
            rest == stat@.skip(i as int),
            word_at(rest, 11) == word_at(stat@.skip(p as int), (11 - j) as nat),
            word_at(rest, 12) == word_at(stat@.skip(p as int), (12 - j) as nat),
        decreases 11 - j,
    {
        match next_word(stat, p) {
            None => {
                assert(word_at(stat@.skip(p as int), (11 - j) as nat) is None);
                return None;
            },
            Some((_, b)) => {
                assert(word_at(stat@.skip(p as int), ((10 - j) as nat) + 1) == word_at(stat@.skip(b as int), (10 - j) as nat));
                assert(word_at(stat@.skip(p as int), ((11 - j) as nat) + 1) == word_at(stat@.skip(b as int), (11 - j) as nat));
                p = b;
            },
        }
        j += 1;
    }
    let (a, b) = match next_word(stat, p) {
        None => {
            assert(word_at(stat@.skip(p as int), 0) is None);
            return None;
        },
        Some(w) => w,
    };
    assert(word_at(stat@.skip(p as int), 0nat + 1) == word_at(stat@.skip(b as int), 0));
    let (c, d) = match next_word(stat, b) {
        None => {
            assert(word_at(stat@.skip(b as int), 0) is None);
            return None;
        },
        Some(w) => w,
    };
    let utime = parse_word(stat, a, b);
    let stime = parse_word(stat, c, d);
    match (utime, stime) {
        (Some(u), Some(v)) => Some((u, v)),
        _ => None,
    }
}

} // verus!
