//! Numbers as text: decimal and hexadecimal digits, padding, and reading a number.

use vstd::prelude::*;
use crate::text::{push_chars, string_of, tail};

verus! {

/// The decimal digit for a value below ten.
pub open spec fn digit(d: int) -> char {
    (48 + d) as char
}

/// Whether a character is a decimal digit.
pub open spec fn is_digit(c: char) -> bool {
    '0' <= c <= '9'
}

/// The value of a decimal digit.
pub open spec fn digit_value(c: char) -> int {
    c as u32 - 48
}

/// A number in decimal, without leading zeros.
pub open spec fn decimal(n: nat) -> Seq<char>
    decreases n,
{
    if n < 10 {
        seq![digit(n as int)]
    } else {
        decimal(n / 10).push(digit((n % 10) as int))
    }
}

/// The number that a run of decimal digits stands for.
pub open spec fn digits_value(s: Seq<char>) -> int
    decreases s.len(),
{
    if s.len() == 0 {
        0
    } else {
        digits_value(s.drop_last()) * 10 + digit_value(s.last())
    }
}

/// Whether every character is a decimal digit.
pub open spec fn all_digits(s: Seq<char>) -> bool {
    forall|i: int| 0 <= i < s.len() ==> is_digit(#[trigger] s[i])
}

/// A number of at most `max` in decimal: an optional `+`, then at least one digit and
/// nothing else. `None` for every other text and for a larger number.
pub open spec fn read_uint(s: Seq<char>, max: int) -> Option<int> {
    let d = if s.len() > 0 && s[0] == '+' {
        s.skip(1)
    } else {
        s
    };
    if d.len() > 0 && all_digits(d) && digits_value(d) <= max {
        Some(digits_value(d))
    } else {
        None
    }
}

proof fn lemma_digits_value_grows(s: Seq<char>, k: int)
    requires
        0 <= k <= s.len(),
        all_digits(s),
    ensures
        0 <= digits_value(s.take(k)) <= digits_value(s),
    decreases s.len(),
{
    if k == s.len() {
        assert(s.take(k) =~= s);
        if s.len() > 0 {
            assert(is_digit(s[s.len() - 1]));
            assert(s.drop_last().take(s.len() - 1) =~= s.drop_last());
            assert(all_digits(s.drop_last()));
            lemma_digits_value_grows(s.drop_last(), s.len() - 1);
        }
    } else {
        assert(all_digits(s.drop_last()));
        lemma_digits_value_grows(s.drop_last(), k);
        assert(s.drop_last().take(k) =~= s.take(k));
        assert(is_digit(s[s.len() - 1]));
    }
}

pub proof fn lemma_decimal(n: nat)
    ensures
        decimal(n).len() > 0,
        all_digits(decimal(n)),
        digits_value(decimal(n)) == n,
    decreases n,
{
    if n < 10 {
        let s = decimal(n);
        assert(s.drop_last() =~= Seq::<char>::empty());
        assert(digits_value(Seq::<char>::empty()) == 0);
    } else {
        lemma_decimal(n / 10);
        let s = decimal(n);
        assert(s.drop_last() =~= decimal(n / 10));
    }
}

/// A number is read back from its decimal digits.
pub proof fn law_decimal_reads_back(n: nat, max: int)
    requires
        n <= max,
    ensures
        read_uint(decimal(n), max) == Some(n as int),
{
    lemma_decimal(n);
    assert(is_digit(decimal(n)[0]));
}

/// `read_uint`, computed.
pub fn parse_uint(s: &[char], max: u64) -> (r: Option<u64>)
    ensures
        match r {
            Some(n) => read_uint(s@, max as int) == Some(n as int),
            None => read_uint(s@, max as int) is None,
        },
{
    let d = if s.len() > 0 && s[0] == '+' {
        tail(s, 1)
    } else {
        s
    };
    if d.len() == 0 {
        return None;
    }
    let mut v: u64 = 0;
    let mut i: usize = 0;
    while i < d.len()
        invariant
            i <= d@.len(),
            all_digits(d@.take(i as int)),
            v == digits_value(d@.take(i as int)),
            v <= max,
            d@.len() > 0,
            d@ == (if s@.len() > 0 && s@[0] == '+' {
                s@.skip(1)
            } else {
                s@
            }),
        decreases d@.len() - i,
    {
        let c = d[i];
        let ghost next = d@.take(i + 1);
        assert(next.drop_last() =~= d@.take(i as int));
        assert(next[i as int] == d@[i as int]);
        if c < '0' || '9' < c {
            assert(!is_digit(d@[i as int]));
            return None;
        }
        let x: u64 = (c as u32 - 48) as u64;
        if x > max || v > (max - x) / 10 {
            proof {
                assert(digits_value(next) == v * 10 + x);
                assert(digits_value(next) > max) by {
                    if x <= max {
                        assert(v >= (max - x) / 10 + 1);
                    }
                }
                if all_digits(d@) {
                    lemma_digits_value_grows(d@, i + 1);
                }
            }
            return None;
        }
        v = v * 10 + x;
        assert(all_digits(next)) by {
            assert forall|j: int| 0 <= j < next.len() implies is_digit(#[trigger] next[j]) by {
                if j < i {
                    assert(d@.take(i as int)[j] == next[j]);
                }
            }
        }
        i += 1;
    }
    assert(d@.take(d@.len() as int) =~= d@);
    Some(v)
}

/// Appends `n` in decimal.
pub fn push_decimal(out: &mut String, n: u64)
    ensures
        final(out)@ == old(out)@ + decimal(n as nat),
    decreases n,
{
    if n >= 10 {
        push_decimal(out, n / 10);
    }
    let ghost before = out@;
    out.push((48 + (n % 10) as u8) as char);
    assert(out@ =~= old(out)@ + decimal(n as nat)) by {
        if n < 10 {
            assert(n % 10 == n);
        }
    }
}

/// `n` in decimal.
pub fn decimal_string(n: u64) -> (r: String)
    ensures
        r@ == decimal(n as nat),
{
    let mut out = String::new();
    push_decimal(&mut out, n);
    assert(Seq::<char>::empty() + decimal(n as nat) =~= decimal(n as nat));
    out
}

/// A signed number in decimal.
pub open spec fn signed_decimal(n: int) -> Seq<char> {
    if n < 0 {
        seq!['-'] + decimal((-n) as nat)
    } else {
        decimal(n as nat)
    }
}

/// Appends `n` in decimal, with a minus sign where it is negative.
pub fn push_signed_decimal(out: &mut String, n: i64)
    ensures
        final(out)@ == old(out)@ + signed_decimal(n as int),
{
    if n < 0 {
        out.push('-');
        let ghost mid = out@;
        let m: u64 = (-(n as i128)) as u64;
        push_decimal(out, m);
        assert(out@ =~= old(out)@ + signed_decimal(n as int));
    } else {
        push_decimal(out, n as u64);
    }
}

/// `count` copies of `c`.
pub open spec fn repeat(c: char, count: int) -> Seq<char> {
    Seq::new(if count > 0 { count as nat } else { 0 }, |i: int| c)
}

/// A number in decimal, filled up with zeros on the left to `width` digits.
pub open spec fn padded_decimal(n: nat, width: int) -> Seq<char> {
    repeat('0', width - decimal(n).len()) + decimal(n)
}

/// Appends `count` copies of `c`.
pub fn push_repeated(out: &mut String, c: char, count: usize)
    ensures
        final(out)@ == old(out)@ + repeat(c, count as int),
{
    let mut i: usize = 0;
    assert(old(out)@ + repeat(c, 0) =~= old(out)@);
    while i < count
        invariant
            i <= count,
            out@ == old(out)@ + repeat(c, i as int),
        decreases count - i,
    {
        out.push(c);
        assert(out@ =~= old(out)@ + repeat(c, i + 1));
        i += 1;
    }
}

/// Appends `n` in decimal with at least `width` digits.
pub fn push_padded_decimal(out: &mut String, n: u64, width: usize)
    ensures
        final(out)@ == old(out)@ + padded_decimal(n as nat, width as int),
{
    let d = crate::text::chars_of(decimal_string(n).as_str());
    let ghost start = out@;
    if d.len() < width {
        push_repeated(out, '0', width - d.len());
    } else {
        assert(start + repeat('0', width as int - d@.len()) =~= start);
    }
    push_chars(out, d.as_slice());
    assert(out@ =~= start + padded_decimal(n as nat, width as int));
}

/// The upper-case hexadecimal digit for a value below sixteen.
pub open spec fn hex_digit(d: int) -> char {
    if d < 10 {
        (48 + d) as char
    } else {
        (55 + d) as char
    }
}

/// A byte as two upper-case hexadecimal digits.
pub open spec fn hex_byte(b: u8) -> Seq<char> {
    seq![hex_digit(b as int / 16), hex_digit(b as int % 16)]
}

/// `hex_digit`, computed.
pub fn hex_char(d: u8) -> (r: char)
    requires
        d < 16,
    ensures
        r == hex_digit(d as int),
{
    if d < 10 {
        (48 + d) as char
    } else {
        (55 + d) as char
    }
}

/// Appends a byte as two hexadecimal digits.
pub fn push_hex_byte(out: &mut String, b: u8)
    ensures
        final(out)@ == old(out)@ + hex_byte(b),
{
    out.push(hex_char(b / 16));
    out.push(hex_char(b % 16));
    assert(out@ =~= old(out)@ + hex_byte(b));
}

// ---------------------------------------------------------------------------
// What can be relied on
// ---------------------------------------------------------------------------

/// What is read as a number is made of digits, with at most a plus sign before them; it is at
/// most the limit, and one more digit makes it ten times as much and that digit more.
pub proof fn law_read_uint(s: Seq<char>, max: int, d: int)
    requires
        0 <= d <= 9,
        max >= 9,
    ensures
        read_uint(Seq::<char>::empty(), max) is None,
        read_uint(seq!['+'], max) is None,
        read_uint(seq![(48 + d) as char], max) == Some(d),
        read_uint(s, max) matches Some(n) ==> {
            &&& 0 <= n <= max
            &&& forall|i: int|
                0 <= i < s.len() ==> '0' <= #[trigger] s[i] <= '9' || i == 0 && s[i] == '+'
            &&& read_uint(s.push((48 + d) as char), max) == (if 10 * n + d <= max {
                Some(10 * n + d)
            } else {
                None
            })
        },
        s.len() > 0 && s[0] != '+' ==> read_uint(seq!['+'] + s, max) == read_uint(s, max),
{
    let c = (48 + d) as char;
    let one = seq![c];
    assert(one.drop_last() =~= Seq::<char>::empty());
    assert(all_digits(one));
    assert(digits_value(Seq::<char>::empty()) == 0);
    assert(digits_value(one) == d);
    assert(seq!['+'].skip(1) =~= Seq::<char>::empty());
    let t = if s.len() > 0 && s[0] == '+' {
        s.skip(1)
    } else {
        s
    };
    if read_uint(s, max) is Some {
        lemma_digits_value_grows(t, 0);
        assert forall|i: int| 0 <= i < s.len() implies '0' <= #[trigger] s[i] <= '9' || i == 0
            && s[i] == '+' by {
            if s[0] == '+' {
                if i > 0 {
                    assert(is_digit(t[i - 1]));
                }
            } else {
                assert(is_digit(t[i]));
            }
        }
        let more = s.push(c);
        let u = if s[0] == '+' {
            more.skip(1)
        } else {
            more
        };
        assert(more[0] == s[0]);
        assert(u =~= t.push(c));
        assert(u.drop_last() =~= t);
        assert(all_digits(u)) by {
            assert forall|i: int| 0 <= i < u.len() implies is_digit(#[trigger] u[i]) by {
                if i < t.len() {
                    assert(u[i] == t[i]);
                }
            }
        }
    }
    if s.len() > 0 && s[0] != '+' {
        assert((seq!['+'] + s).skip(1) =~= s);
    }
}

/// A number is written without needless zeros: it has a digit more than a tenth of it, which
/// is written before its last digit. A negative number has a minus sign before it.
pub proof fn law_decimal(n: nat)
    ensures
        n < 10 ==> decimal(n) == seq![(48 + n) as char],
        n >= 10 ==> decimal(n) == decimal(n / 10).push((48 + n % 10) as char),
        signed_decimal(n as int) == decimal(n),
        n > 0 ==> signed_decimal(-n) == seq!['-'] + decimal(n),
{
}

/// A padded number keeps its value; it is as wide as asked for, or as its digits are.
pub proof fn law_padded(n: nat, width: int)
    ensures
        digits_value(padded_decimal(n, width)) == n,
        all_digits(padded_decimal(n, width)),
        padded_decimal(n, width).len() == (if width > decimal(n).len() {
            width
        } else {
            decimal(n).len() as int
        }),
{
    lemma_decimal(n);
    lemma_leading_zeros(repeat('0', width - decimal(n).len()), decimal(n));
}

proof fn lemma_leading_zeros(zeros: Seq<char>, s: Seq<char>)
    requires
        forall|i: int| 0 <= i < zeros.len() ==> #[trigger] zeros[i] == '0',
        all_digits(s),
    ensures
        all_digits(zeros + s),
        digits_value(zeros + s) == digits_value(s),
    decreases s.len(), zeros.len(),
{
    let t = zeros + s;
    assert forall|i: int| 0 <= i < t.len() implies is_digit(#[trigger] t[i]) by {
        if i < zeros.len() {
            assert(t[i] == zeros[i]);
        } else {
            assert(t[i] == s[i - zeros.len()]);
        }
    }
    if s.len() > 0 {
        assert(t.drop_last() =~= zeros + s.drop_last());
        assert(all_digits(s.drop_last()));
        lemma_leading_zeros(zeros, s.drop_last());
    } else if zeros.len() > 0 {
        assert(t.drop_last() =~= zeros.drop_last() + s);
        assert(t.last() == zeros[zeros.len() - 1]);
        lemma_leading_zeros(zeros.drop_last(), s);
    } else {
        assert(t =~= s);
    }
}

/// The two hexadecimal digits of a byte, upper case.
pub proof fn law_hex_byte(b: u8)
    ensures
        hex_byte(b) == seq![
            "0123456789ABCDEF"@[b as int / 16],
            "0123456789ABCDEF"@[b as int % 16],
        ],
{
    reveal_strlit("0123456789ABCDEF");
    let hi = b as int / 16;
    let lo = b as int % 16;
    assert(hex_digit(hi) == "0123456789ABCDEF"@[hi]);
    assert(hex_digit(lo) == "0123456789ABCDEF"@[lo]);
}

}
