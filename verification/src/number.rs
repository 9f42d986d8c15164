//! Unsigned numbers as text: decimal and hexadecimal.
use vstd::prelude::*;
use vstd::slice::slice_subrange;

use crate::text;

verus! {

broadcast use vstd::string::group_string_axioms;

/// The characters from 0 to 9.
pub open spec fn is_digit(c: char) -> bool {
    '0' <= c <= '9'
}

/// What a decimal digit stands for.
pub open spec fn digit_value(c: char) -> nat {
    (c as int - '0' as int) as nat
}

/// The number that a row of decimal digits stands for.
pub open spec fn digits_value(s: Seq<char>) -> nat
    decreases s.len(),
{
    if s.len() == 0 {
        0
    } else {
        digits_value(s.drop_last()) * 10 + digit_value(s.last())
    }
}

/// Whether a text holds decimal digits only.
pub open spec fn all_digits(s: Seq<char>) -> bool {
    forall|i: int| 0 <= i < s.len() ==> is_digit(#[trigger] s[i])
}

/// A decimal number up to `max`: one digit or more, after at most one plus sign.
pub open spec fn parsed(s: Seq<char>, max: nat) -> Option<nat> {
    let digits = if s.len() > 0 && s[0] == '+' {
        s.skip(1)
    } else {
        s
    };
    if digits.len() > 0 && all_digits(digits) && digits_value(digits) <= max {
        Some(digits_value(digits))
    } else {
        None
    }
}

proof fn lemma_prefix_value(s: Seq<char>, n: int)
    requires
        0 <= n <= s.len(),
    ensures
        digits_value(s.take(n)) <= digits_value(s),
    decreases s.len() - n,
{
    if n < s.len() {
        lemma_prefix_value(s, n + 1);
        assert(s.take(n + 1).drop_last() =~= s.take(n));
    } else {
        assert(s.take(n) =~= s);
    }
}

/// Reads a decimal number that is not above `max`.
pub fn parse_number(s: &[char], max: u64) -> (r: Option<u64>)
    ensures
        match r {
            Some(n) => parsed(s@, max as nat) == Some(n as nat),
            None => parsed(s@, max as nat) is None,
        },
{
    let digits = if s.len() > 0 && s[0] == '+' {
        let tail = slice_subrange(s, 1, s.len());
        assert(tail@ =~= s@.skip(1));
        tail
    } else {
        s
    };
    if digits.len() == 0 {
        return None;
    }
    let mut n: u64 = 0;
    let mut i: usize = 0;
    assert(digits@.take(0) =~= seq![]);
    while i < digits.len()
        invariant
            digits@ == (if s@.len() > 0 && s@[0] == '+' {
                s@.skip(1)
            } else {
                s@
            }),
            i <= digits@.len(),
            n <= max,
            n == digits_value(digits@.take(i as int)),
            forall|j: int| 0 <= j < i ==> is_digit(#[trigger] digits@[j]),
        decreases digits@.len() - i,
    {
        let c = digits[i];
        if c < '0' || c > '9' {
            assert(!is_digit(digits@[i as int]));
            return None;
        }
        let d: u64 = (c as u32 - 48) as u64;
        proof {
            assert(digits@.take(i + 1).drop_last() =~= digits@.take(i as int));
            lemma_prefix_value(digits@, i + 1);
        }
        if n > (u64::MAX - d) / 10 {
            return None;
        }
        n = n * 10 + d;
        if n > max {
            return None;
        }
        i += 1;
    }
    assert(digits@.take(i as int) =~= digits@);
    Some(n)
}

/// How many decimal digits a text starts with.
pub open spec fn digit_run(s: Seq<char>) -> nat
    decreases s.len(),
{
    if s.len() == 0 || !is_digit(s[0]) {
        0
    } else {
        1 + digit_run(s.drop_first())
    }
}

/// The decimal digits that a text starts with.
pub open spec fn leading_digits(s: Seq<char>) -> Seq<char> {
    s.take(digit_run(s) as int)
}

/// Takes the decimal digits that a text starts with.
pub fn take_digits<'a>(s: &'a [char]) -> (r: &'a [char])
    ensures
        r@ == leading_digits(s@),
{
    let mut n: usize = 0;
    assert(s@.skip(0) =~= s@);
    while n < s.len() && '0' <= s[n] && s[n] <= '9'
        invariant
            n <= s@.len(),
            digit_run(s@) == n + digit_run(s@.skip(n as int)),
        decreases s@.len() - n,
    {
        assert(s@.skip(n as int).drop_first() =~= s@.skip(n + 1));
        n += 1;
    }
    assert(s@.take(n as int) =~= s@.subrange(0, n as int));
    slice_subrange(s, 0, n)
}

/// A text of digits followed by something else starts with just those digits.
pub proof fn lemma_digit_run(digits: Seq<char>, rest: Seq<char>)
    requires
        all_digits(digits),
        rest.len() > 0 ==> !is_digit(rest[0]),
    ensures
        digit_run(digits + rest) == digits.len(),
        leading_digits(digits + rest) == digits,
    decreases digits.len(),
{
    if digits.len() == 0 {
        assert(digits + rest =~= rest);
    } else {
        assert forall|i: int| 0 <= i < digits.drop_first().len() implies is_digit(
            #[trigger] digits.drop_first()[i],
        ) by {
            assert(is_digit(digits[i + 1]));
        }
        lemma_digit_run(digits.drop_first(), rest);
        assert((digits + rest).drop_first() =~= digits.drop_first() + rest);
        assert(is_digit(digits[0]));
        assert((digits + rest)[0] == digits[0]);
    }
    assert((digits + rest).take(digits.len() as int) =~= digits);
}

/// The decimal digit for a value below ten.
pub open spec fn digit_char(n: nat) -> char {
    ('0' as int + n) as char
}

/// A number in decimal, without leading zeros.
pub open spec fn decimal(n: nat) -> Seq<char>
    decreases n,
{
    if n < 10 {
        seq![digit_char(n)]
    } else {
        decimal(n / 10).push(digit_char(n % 10))
    }
}

/// Appends a number in decimal.
pub fn push_decimal(out: &mut String, n: u128)
    ensures
        final(out)@ == old(out)@ + decimal(n as nat),
    decreases n,
{
    if n >= 10 {
        push_decimal(out, n / 10);
    }
    let d: u8 = (n % 10) as u8;
    out.push((48 + d) as char);
    assert(out@ =~= old(out)@ + decimal(n as nat));
}

/// A number written in decimal is read back as it was, unless it is too large.
pub proof fn lemma_decimal_parsed(n: nat, max: nat)
    ensures
        parsed(decimal(n), max) == (if n <= max {
            Some(n)
        } else {
            None
        }),
        all_digits(decimal(n)),
        decimal(n).len() > 0,
{
    lemma_decimal(n);
    assert(is_digit(decimal(n)[0]));
}

proof fn lemma_decimal(n: nat)
    ensures
        all_digits(decimal(n)),
        decimal(n).len() > 0,
        digits_value(decimal(n)) == n,
    decreases n,
{
    if n < 10 {
        assert(decimal(n).drop_last() =~= seq![]);
        reveal_with_fuel(digits_value, 2);
    } else {
        lemma_decimal(n / 10);
        assert(decimal(n).drop_last() =~= decimal(n / 10));
    }
}

/// The lower-case hexadecimal digit for a value below sixteen.
pub open spec fn hex_char(n: nat) -> char {
    if n < 10 {
        digit_char(n)
    } else {
        ('a' as int + n - 10) as char
    }
}

/// A number in lower-case hexadecimal, without leading zeros.
pub open spec fn hex(n: nat) -> Seq<char>
    decreases n,
{
    if n < 16 {
        seq![hex_char(n)]
    } else {
        hex(n / 16).push(hex_char(n % 16))
    }
}

fn hex_digit(n: u8) -> (c: char)
    requires
        n < 16,
    ensures
        c == hex_char(n as nat),
{
    if n < 10 {
        (48 + n) as char
    } else {
        (87 + n) as char
    }
}

/// Appends a number in lower-case hexadecimal.
pub fn push_hex(out: &mut String, n: u128)
    ensures
        final(out)@ == old(out)@ + hex(n as nat),
    decreases n,
{
    if n >= 16 {
        push_hex(out, n / 16);
    }
    out.push(hex_digit((n % 16) as u8));
    assert(out@ =~= old(out)@ + hex(n as nat));
}

/// A byte as two lower-case hexadecimal digits.
pub open spec fn hex_byte(b: u8) -> Seq<char> {
    seq![hex_char((b / 16) as nat), hex_char((b % 16) as nat)]
}

/// Appends a byte as two lower-case hexadecimal digits.
pub fn push_hex_byte(out: &mut String, b: u8)
    ensures
        final(out)@ == old(out)@ + hex_byte(b),
{
    out.push(hex_digit(b / 16));
    out.push(hex_digit(b % 16));
    assert(out@ =~= old(out)@ + hex_byte(b));
}

/// Bytes as pairs of lower-case hexadecimal digits.
pub open spec fn hex_bytes(s: Seq<u8>) -> Seq<char>
    decreases s.len(),
{
    if s.len() == 0 {
        seq![]
    } else {
        hex_bytes(s.drop_last()) + hex_byte(s.last())
    }
}

/// Writes bytes as pairs of lower-case hexadecimal digits.
pub fn to_hex(s: &[u8]) -> (r: String)
    ensures
        r@ == hex_bytes(s@),
{
    let mut out = String::new();
    let mut i: usize = 0;
    assert(s@.take(0) =~= seq![]);
    while i < s.len()
        invariant
            i <= s@.len(),
            out@ == hex_bytes(s@.take(i as int)),
        decreases s@.len() - i,
    {
        push_hex_byte(&mut out, s[i]);
        assert(s@.take(i + 1).drop_last() =~= s@.take(i as int));
        i += 1;
    }
    assert(s@.take(i as int) =~= s@);
    out
}

/// A number in decimal holds digits alone.
pub proof fn lemma_decimal_lacks(n: nat, c: char)
    requires
        c < '0' || c > '9',
    ensures
        text::lacks(decimal(n), c),
{
    lemma_decimal(n);
    assert forall|i: int| 0 <= i < decimal(n).len() implies (#[trigger] decimal(n)[i]) != c by {
        assert(is_digit(decimal(n)[i]));
    }
}

/// Numbers are written in decimal: one digit below ten, and else the digits of the
/// tenth part and the last digit.
pub proof fn numbers_are_written_in_decimal(n: nat)
    ensures
        n < 10 ==> decimal(n) == seq![('0' as int + n) as char],
        n >= 10 ==> decimal(n) == decimal(n / 10).push(('0' as int + n % 10) as char),
{
}

/// A text is a number where it is digits, one or more, behind at most one plus sign:
/// each further digit stands for ten times those before it and itself. All else, and
/// what is too large, is none.
pub proof fn digits_make_a_number(s: Seq<char>, c: char, max: nat)
    requires
        s.len() > 0,
    ensures
        '0' <= c <= '9' ==> parsed(seq![c], max) == (if c as int - '0' as int <= max {
            Some((c as int - '0' as int) as nat)
        } else {
            None
        }),
        '0' <= c <= '9' ==> (parsed(s, max) matches Some(n) ==> parsed(s.push(c), max) == (if n * 10
            + (c as int - '0' as int) <= max {
            Some((n * 10 + (c as int - '0' as int)) as nat)
        } else {
            None
        })),
        parsed(s, max) is None && s != seq!['+'] ==> parsed(s.push(c), max) is None,
        !('0' <= c <= '9') ==> parsed(s.push(c), max) is None,
        s[0] != '+' ==> parsed(seq!['+'] + s, max) == parsed(s, max),
        s[0] == '+' ==> parsed(seq!['+'] + s, max) is None,
        parsed(Seq::<char>::empty(), max) is None,
{
    let digits = if s[0] == '+' {
        s.skip(1)
    } else {
        s
    };
    let more = if s[0] == '+' {
        s.push(c).skip(1)
    } else {
        s.push(c)
    };
    assert(more =~= digits.push(c));
    assert(more.drop_last() =~= digits);
    assert(more.last() == c);
    assert(all_digits(more) <==> all_digits(digits) && is_digit(c)) by {
        if all_digits(more) {
            assert forall|i: int| 0 <= i < digits.len() implies is_digit(#[trigger] digits[i]) by {
                assert(more[i] == digits[i]);
            }
            assert(is_digit(more[digits.len() as int]));
        }
    }
    assert(seq![c].drop_last() =~= seq![]);
    reveal_with_fuel(digits_value, 2);
    assert((seq!['+'] + s).skip(1) =~= s);
    if s[0] == '+' {
        assert(!is_digit(s[0]));
    }
    if digits.len() == 0 {
        assert(s =~= seq!['+']);
    }
    assert(digits_value(digits) * 10 + digit_value(c) >= digits_value(digits));
}

/// What a hexadecimal digit stands for.
pub open spec fn hex_value(c: char) -> int {
    if c <= '9' {
        c as int - '0' as int
    } else {
        c as int - 'a' as int + 10
    }
}

/// Numbers are written in hexadecimal: each digit, from 0 to 9 and from a to f,
/// stands for its part of the number.
pub proof fn numbers_are_written_in_hexadecimal(n: nat)
    ensures
        hex(n).len() > 0,
        forall|i: int|
            0 <= i < hex(n).len() ==> '0' <= #[trigger] hex(n)[i] <= '9' || 'a' <= hex(n)[i] <= 'f',
        hex_value(hex(n).last()) == n % 16,
        n < 16 ==> hex(n).len() == 1,
        n >= 16 ==> hex(n).drop_last() == hex(n / 16),
    decreases n,
{
    if n >= 16 {
        numbers_are_written_in_hexadecimal(n / 16);
        assert(hex(n).drop_last() =~= hex(n / 16));
    }
}

/// Bytes are written as two hexadecimal digits each, the first for the sixteens, in
/// the order of the bytes.
pub proof fn bytes_are_written_as_two_digits(s: Seq<u8>, i: int)
    requires
        0 <= i < s.len(),
    ensures
        hex_bytes(s).len() == 2 * s.len(),
        hex_value(hex_bytes(s)[2 * i]) * 16 + hex_value(hex_bytes(s)[2 * i + 1]) == s[i],
        '0' <= hex_bytes(s)[2 * i] <= '9' || 'a' <= hex_bytes(s)[2 * i] <= 'f',
        '0' <= hex_bytes(s)[2 * i + 1] <= '9' || 'a' <= hex_bytes(s)[2 * i + 1] <= 'f',
    decreases s.len(),
{
    let before = s.drop_last();
    lemma_hex_bytes_len(before);
    if i < before.len() {
        bytes_are_written_as_two_digits(before, i);
        assert(hex_bytes(s)[2 * i] == hex_bytes(before)[2 * i]);
        assert(hex_bytes(s)[2 * i + 1] == hex_bytes(before)[2 * i + 1]);
    } else {
        assert(hex_bytes(s)[2 * i] == hex_byte(s[i])[0]);
        assert(hex_bytes(s)[2 * i + 1] == hex_byte(s[i])[1]);
    }
}

proof fn lemma_hex_bytes_len(s: Seq<u8>)
    ensures
        hex_bytes(s).len() == 2 * s.len(),
    decreases s.len(),
{
    if s.len() > 0 {
        lemma_hex_bytes_len(s.drop_last());
    }
}

proof fn lemma_run_fits(s: Seq<char>)
    ensures
        digit_run(s) <= s.len(),
    decreases s.len(),
{
    if s.len() > 0 && is_digit(s[0]) {
        lemma_run_fits(s.drop_first());
    }
}

/// The digits that a text starts with are all digits up to the first character that
/// is none.
pub proof fn all_leading_digits_are_taken(s: Seq<char>)
    ensures
        ({
            let d = leading_digits(s);
            &&& d.len() <= s.len()
            &&& d == s.take(d.len() as int)
            &&& forall|i: int| 0 <= i < d.len() ==> '0' <= #[trigger] d[i] <= '9'
            &&& d.len() < s.len() ==> !('0' <= s[d.len() as int] <= '9')
        }),
    decreases s.len(),
{
    if s.len() > 0 && is_digit(s[0]) {
        let t = s.drop_first();
        all_leading_digits_are_taken(t);
        lemma_run_fits(t);
        let d = leading_digits(s);
        assert(digit_run(s) == 1 + digit_run(t));
        assert(d =~= seq![s[0]] + leading_digits(t));
        assert forall|i: int| 0 <= i < d.len() implies '0' <= #[trigger] d[i] <= '9' by {
            if i > 0 {
                assert(d[i] == leading_digits(t)[i - 1]);
            }
        }
    }
}

} // verus!
