//! Small text builders: decimal numerals and literal pieces appended to
//! a `String`, with the produced characters stated exactly.

use vstd::prelude::*;

verus! {

/// The character of a decimal digit.
pub open spec fn digit_char(d: nat) -> char {
    if d == 0 {
        '0'
    } else if d == 1 {
        '1'
    } else if d == 2 {
        '2'
    } else if d == 3 {
        '3'
    } else if d == 4 {
        '4'
    } else if d == 5 {
        '5'
    } else if d == 6 {
        '6'
    } else if d == 7 {
        '7'
    } else if d == 8 {
        '8'
    } else {
        '9'
    }
}

/// Decimal numeral of `n`, most significant digit first, no leading zeros.
pub open spec fn decimal(n: nat) -> Seq<char>
    decreases n,
{
    if n < 10 {
        seq![digit_char(n)]
    } else {
        decimal(n / 10).push(digit_char(n % 10))
    }
}

/// Append the digit `d`.
pub fn push_digit(s: &mut String, d: u64)
    requires
        d < 10,
    ensures
        final(s)@ == old(s)@.push(digit_char(d as nat)),
{
    if d == 0 {
        s.append("0");
        proof { reveal_strlit("0"); }
    } else if d == 1 {
        s.append("1");
        proof { reveal_strlit("1"); }
    } else if d == 2 {
        s.append("2");
        proof { reveal_strlit("2"); }
    } else if d == 3 {
        s.append("3");
        proof { reveal_strlit("3"); }
    } else if d == 4 {
        s.append("4");
        proof { reveal_strlit("4"); }
    } else if d == 5 {
        s.append("5");
        proof { reveal_strlit("5"); }
    } else if d == 6 {
        s.append("6");
        proof { reveal_strlit("6"); }
    } else if d == 7 {
        s.append("7");
        proof { reveal_strlit("7"); }
    } else if d == 8 {
        s.append("8");
        proof { reveal_strlit("8"); }
    } else {
        s.append("9");
        proof { reveal_strlit("9"); }
    }
}

/// Append the decimal numeral of `n`.
pub fn push_decimal(s: &mut String, n: u64)
    ensures
        final(s)@ == old(s)@ + decimal(n as nat),
    decreases n,
{
    if n >= 10 {
        push_decimal(s, n / 10);
    }
    push_digit(s, n % 10);
    proof {
        if n >= 10 {
            assert(decimal(n as nat) == decimal((n / 10) as nat).push(digit_char((n % 10) as nat)));
        } else {
            assert(decimal(n as nat) == seq![digit_char(n as nat)]);
        }
        assert(final(s)@ =~= old(s)@ + decimal(n as nat));
    }
}

/// A string holding `text` followed by the decimal numeral of `n`.
pub fn text_with_number(text: &str, n: u64) -> (s: String)
    ensures
        s@ == text@ + decimal(n as nat),
{
    let mut s = String::from_str(text);
    push_decimal(&mut s, n);
    s
}

/// `before`, the decimal numeral of `n`, then `after`.
pub fn text_number_text(before: &str, n: u64, after: &str) -> (s: String)
    ensures
        s@ == before@ + decimal(n as nat) + after@,
{
    let mut s = String::from_str(before);
    push_decimal(&mut s, n);
    s.append(after);
    s
}


/// Characters `push_ascii` can append.
pub open spec fn printable(c: u8) -> bool {
    ||| 97 <= c <= 104
    ||| c == 80 || c == 78 || c == 66 || c == 82 || c == 81 || c == 75
    ||| c == 112 || c == 110 || c == 98 || c == 114 || c == 113 || c == 107
    ||| c == 32 || c == 46 || c == 126 || c == 45 || c == 61 || c == 124 || c == 10
}

/// Append the ASCII character `c`.
pub fn push_ascii(s: &mut String, c: u8)
    requires
        printable(c),
    ensures
        final(s)@ == old(s)@.push(c as char),
{
    if c == 97 {
        s.append("a");
        proof { reveal_strlit("a"); }
    } else if c == 98 {
        s.append("b");
        proof { reveal_strlit("b"); }
    } else if c == 99 {
        s.append("c");
        proof { reveal_strlit("c"); }
    } else if c == 100 {
        s.append("d");
        proof { reveal_strlit("d"); }
    } else if c == 101 {
        s.append("e");
        proof { reveal_strlit("e"); }
    } else if c == 102 {
        s.append("f");
        proof { reveal_strlit("f"); }
    } else if c == 103 {
        s.append("g");
        proof { reveal_strlit("g"); }
    } else if c == 104 {
        s.append("h");
        proof { reveal_strlit("h"); }
    } else if c == 80 {
        s.append("P");
        proof { reveal_strlit("P"); }
    } else if c == 78 {
        s.append("N");
        proof { reveal_strlit("N"); }
    } else if c == 66 {
        s.append("B");
        proof { reveal_strlit("B"); }
    } else if c == 82 {
        s.append("R");
        proof { reveal_strlit("R"); }
    } else if c == 81 {
        s.append("Q");
        proof { reveal_strlit("Q"); }
    } else if c == 75 {
        s.append("K");
        proof { reveal_strlit("K"); }
    } else if c == 112 {
        s.append("p");
        proof { reveal_strlit("p"); }
    } else if c == 110 {
        s.append("n");
        proof { reveal_strlit("n"); }
    } else if c == 98 {
        s.append("b");
        proof { reveal_strlit("b"); }
    } else if c == 114 {
        s.append("r");
        proof { reveal_strlit("r"); }
    } else if c == 113 {
        s.append("q");
        proof { reveal_strlit("q"); }
    } else if c == 107 {
        s.append("k");
        proof { reveal_strlit("k"); }
    } else if c == 32 {
        s.append(" ");
        proof { reveal_strlit(" "); }
    } else if c == 46 {
        s.append(".");
        proof { reveal_strlit("."); }
    } else if c == 126 {
        s.append("~");
        proof { reveal_strlit("~"); }
    } else if c == 45 {
        s.append("-");
        proof { reveal_strlit("-"); }
    } else if c == 61 {
        s.append("=");
        proof { reveal_strlit("="); }
    } else if c == 124 {
        s.append("|");
        proof { reveal_strlit("|"); }
    } else if c == 10 {
        s.append("\n");
        proof { reveal_strlit("\n"); }
    } else {
        s.append("?");
        proof { reveal_strlit("?"); }
    }
}

} // verus!
