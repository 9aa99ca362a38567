//! Decimal numbers as text, and text as decimal numbers.

use vstd::prelude::*;
use vstd::string::*;

verus! {

/// The character of a decimal digit.
pub open spec fn digit_char(d: nat) -> char {
    (48 + d) as u8 as char
}

/// A number in decimal, without sign or leading zeros.
pub open spec fn decimal_text(n: nat) -> Seq<char>
    decreases n,
{
    if n < 10 {
        seq![digit_char(n)]
    } else {
        decimal_text(n / 10).push(digit_char(n % 10))
    }
}

/// `String::push` appends the character.
pub assume_specification[ String::push ](s: &mut String, c: char)
    ensures
        final(s)@ == old(s)@.push(c),
;

/// Appends a number in decimal.
pub fn push_decimal(s: &mut String, n: u64)
    ensures
        final(s)@ == old(s)@ + decimal_text(n as nat),
    decreases n,
{
    if n >= 10 {
        push_decimal(s, n / 10);
    }
    let d: u8 = (n % 10) as u8;
    s.push((48 + d) as char);
    assert(final(s)@ =~= old(s)@ + decimal_text(n as nat));
}

/// A number in decimal.
pub fn decimal(n: u64) -> (r: String)
    ensures
        r@ == decimal_text(n as nat),
{
    let mut s = String::new();
    push_decimal(&mut s, n);
    assert(s@ =~= decimal_text(n as nat));
    s
}

/// A number in decimal, with a minus sign when it is negative.
pub open spec fn signed_text(n: int) -> Seq<char> {
    if n < 0 {
        seq!['-'] + decimal_text((-n) as nat)
    } else {
        decimal_text(n as nat)
    }
}

/// Appends a number in decimal, with a minus sign when it is negative.
pub fn push_signed(s: &mut String, n: i32)
    ensures
        final(s)@ == old(s)@ + signed_text(n as int),
{
    if n < 0 {
        s.push('-');
        let magnitude: u64 = (-(n as i64)) as u64;
        push_decimal(s, magnitude);
        assert(final(s)@ =~= old(s)@ + signed_text(n as int));
    } else {
        push_decimal(s, n as u64);
    }
}

/// Whether a byte is ASCII white space.
pub open spec fn is_space(b: u8) -> bool {
    b == 32 || (9 <= b && b <= 13)
}

/// Whether a byte is an ASCII decimal digit.
pub open spec fn is_digit(b: u8) -> bool {
    48 <= b && b <= 57
}

/// The value of a run of decimal digits.
pub open spec fn digits_value(s: Seq<u8>) -> nat
    decreases s.len(),
{
    if s.len() == 0 {
        0
    } else {
        digits_value(s.drop_last()) * 10 + (s.last() - 48) as nat
    }
}

/// Where the leading white space of `s` ends.
pub open spec fn trim_start(s: Seq<u8>) -> int
    decreases s.len(),
{
    if s.len() > 0 && is_space(s.first()) {
        1 + trim_start(s.drop_first())
    } else {
        0
    }
}

/// Where the trailing white space of `s` begins.
pub open spec fn trim_end(s: Seq<u8>) -> int
    decreases s.len(),
{
    if s.len() > 0 && is_space(s.last()) {
        trim_end(s.drop_last())
    } else {
        s.len() as int
    }
}

/// `s` without leading and trailing white space.
pub open spec fn trimmed(s: Seq<u8>) -> Seq<u8> {
    if trim_start(s) >= trim_end(s) {
        Seq::empty()
    } else {
        s.subrange(trim_start(s), trim_end(s))
    }
}

/// `s` without one leading plus sign.
pub open spec fn unsigned_part(s: Seq<u8>) -> Seq<u8> {
    if s.len() > 0 && s.first() == 43 {
        s.drop_first()
    } else {
        s
    }
}

/// The number that a text is: an optional `+` and at least one decimal
/// digit, with a value that fits 64 bits.
pub open spec fn parsed_number(s: Seq<u8>) -> Option<u64> {
    let d = unsigned_part(s);
    if d.len() > 0 && (forall|i: int| 0 <= i < d.len() ==> is_digit(#[trigger] d[i]))
        && digits_value(d) <= u64::MAX {
        Some(digits_value(d) as u64)
    } else {
        None
    }
}

/// The number that a text states between white space.
pub open spec fn parsed_u64(s: Seq<u8>) -> Option<u64> {
    parsed_number(trimmed(s))
}

proof fn lemma_trim_start_bounds(s: Seq<u8>)
    ensures
        0 <= trim_start(s) <= s.len(),
        forall|i: int| 0 <= i < trim_start(s) ==> is_space(#[trigger] s[i]),
        trim_start(s) < s.len() ==> !is_space(s[trim_start(s)]),
    decreases s.len(),
{
    if s.len() > 0 && is_space(s.first()) {
        let t = s.drop_first();
        lemma_trim_start_bounds(t);
        assert forall|i: int| 0 <= i < trim_start(s) implies is_space(#[trigger] s[i]) by {
            if i > 0 {
                assert(s[i] == t[i - 1]);
            }
        }
        if trim_start(s) < s.len() {
            assert(s[trim_start(s)] == t[trim_start(t)]);
        }
    }
}

proof fn lemma_trim_start_known(s: Seq<u8>, k: int)
    requires
        0 <= k <= s.len(),
        forall|i: int| 0 <= i < k ==> is_space(#[trigger] s[i]),
        k < s.len() ==> !is_space(s[k]),
    ensures
        trim_start(s) == k,
{
    lemma_trim_start_bounds(s);
    let t = trim_start(s);
    if t < k {
        assert(is_space(s[t]));
    } else if t > k {
        assert(is_space(s[k]));
    }
}

proof fn lemma_trim_end_bounds(s: Seq<u8>)
    ensures
        0 <= trim_end(s) <= s.len(),
        forall|i: int| trim_end(s) <= i < s.len() ==> is_space(#[trigger] s[i]),
        trim_end(s) > 0 ==> !is_space(s[trim_end(s) - 1]),
    decreases s.len(),
{
    if s.len() > 0 && is_space(s.last()) {
        let t = s.drop_last();
        lemma_trim_end_bounds(t);
        assert forall|i: int| trim_end(s) <= i < s.len() implies is_space(#[trigger] s[i]) by {
            if i < t.len() {
                assert(s[i] == t[i]);
            }
        }
        if trim_end(s) > 0 {
            assert(s[trim_end(s) - 1] == t[trim_end(t) - 1]);
        }
    }
}

proof fn lemma_trim_end_known(s: Seq<u8>, k: int)
    requires
        0 <= k <= s.len(),
        forall|i: int| k <= i < s.len() ==> is_space(#[trigger] s[i]),
        k > 0 ==> !is_space(s[k - 1]),
    ensures
        trim_end(s) == k,
{
    lemma_trim_end_bounds(s);
    let t = trim_end(s);
    if t < k {
        assert(is_space(s[k - 1]));
    } else if t > k {
        assert(is_space(s[t - 1]));
    }
}

proof fn lemma_digits_value_grows(s: Seq<u8>, k: int)
    requires
        0 <= k <= s.len(),
        forall|i: int| 0 <= i < s.len() ==> is_digit(#[trigger] s[i]),
    ensures
        digits_value(s.take(k)) <= digits_value(s),
    decreases s.len() - k,
{
    if k < s.len() {
        lemma_digits_value_grows(s, k + 1);
        assert(s.take(k + 1).drop_last() =~= s.take(k));
        assert(is_digit(s[k]));
        assert(s.take(k + 1).last() == s[k]);
    } else {
        assert(s.take(k) =~= s);
    }
}

/// Reads the number that a text is.
pub fn parse_number(text: &[u8]) -> (r: Option<u64>)
    ensures
        r == parsed_number(text@),
{
    let end = text.len();
    let mut pos: usize = 0;
    if end > 0 && text[0] == 43 {
        pos = 1;
    }
    let ghost d = unsigned_part(text@);
    assert(d =~= text@.subrange(pos as int, end as int));
    if pos >= end {
        return None;
    }
    let first = pos;
    let mut value: u64 = 0;
    while pos < end
        invariant
            first <= pos <= end,
            end == text@.len(),
            d == text@.subrange(first as int, end as int),
            d == unsigned_part(text@),
            forall|i: int| 0 <= i < pos - first ==> is_digit(#[trigger] d[i]),
            value == digits_value(d.take(pos - first)),
        decreases end - pos,
    {
        let b = text[pos];
        if b < 48 || b > 57 {
            assert(!is_digit(d[pos - first]));
            return None;
        }
        let digit: u64 = (b - 48) as u64;
        proof {
            assert(d.take(pos - first + 1).drop_last() =~= d.take(pos - first));
            assert(d.take(pos - first + 1).last() == b);
        }
        if value > (u64::MAX - digit) / 10 {
            proof {
                if forall|i: int| 0 <= i < d.len() ==> is_digit(#[trigger] d[i]) {
                    lemma_digits_value_grows(d, pos - first + 1);
                }
            }
            return None;
        }
        value = value * 10 + digit;
        pos += 1;
    }
    assert(d.take(pos - first) =~= d);
    Some(value)
}

/// Reads the number that a text states between white space.
pub fn parse_u64(text: &[u8]) -> (r: Option<u64>)
    ensures
        r == parsed_u64(text@),
{
    let n = text.len();
    let mut start: usize = 0;
    while start < n && (text[start] == 32 || (9 <= text[start] && text[start] <= 13))
        invariant
            start <= n,
            n == text@.len(),
            forall|i: int| 0 <= i < start ==> is_space(#[trigger] text@[i]),
        decreases n - start,
    {
        start += 1;
    }
    let mut end: usize = n;
    while end > 0 && (text[end - 1] == 32 || (9 <= text[end - 1] && text[end - 1] <= 13))
        invariant
            end <= n,
            n == text@.len(),
            forall|i: int| end <= i < n ==> is_space(#[trigger] text@[i]),
        decreases end,
    {
        end -= 1;
    }
    proof {
        lemma_trim_start_known(text@, start as int);
        lemma_trim_end_known(text@, end as int);
    }
    if start >= end {
        let nothing = vstd::slice::slice_subrange(text, 0, 0);
        assert(nothing@ =~= trimmed(text@));
        return parse_number(nothing);
    }
    parse_number(vstd::slice::slice_subrange(text, start, end))
}

} // verus!
