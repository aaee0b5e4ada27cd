//! Numeric literal parsing. A token that is no operator word is read as an
//! optionally signed numeral, with a radix prefix checked in this order:
//! `0x` or bare `x` for hexadecimal, `0o` or bare `o` for octal, `0b` or bare
//! `b` for binary, and plain decimal otherwise. Hexadecimal digits are
//! accepted in both cases; a `+` or `-` sign may follow the prefix. A token
//! whose numeral is malformed, or whose value does not fit a signed 64-bit
//! integer, is a recoverable `NumberFormatError`, never an abort.

use vstd::prelude::*;

use crate::error::Error;
use crate::ops::in_i64;

verus! {

/// The numeric value of a digit character, taking `0`-`9`, `a`-`f` and
/// `A`-`F`; any other character is marked with -1.
pub open spec fn digit_val(c: char) -> int {
    let u = c as u32;
    if ('0' as u32) <= u && u <= ('9' as u32) {
        u - ('0' as u32)
    } else if ('a' as u32) <= u && u <= ('f' as u32) {
        10 + (u - ('a' as u32))
    } else if ('A' as u32) <= u && u <= ('F' as u32) {
        10 + (u - ('A' as u32))
    } else {
        -1
    }
}

/// `c` is a digit of the given radix.
pub open spec fn is_digit(c: char, radix: int) -> bool {
    0 <= digit_val(c) && digit_val(c) < radix
}

/// Every character of `s` is a digit of the given radix.
pub open spec fn all_digits(s: Seq<char>, radix: int) -> bool {
    forall|i: int| 0 <= i < s.len() ==> is_digit(#[trigger] s[i], radix)
}

/// The value of an unsigned digit string, most significant digit first.
pub open spec fn digits_value(s: Seq<char>, radix: int) -> int
    recommends
        2 <= radix,
        all_digits(s, radix),
    decreases s.len(),
{
    if s.len() == 0 {
        0
    } else {
        digits_value(s.drop_last(), radix) * radix + digit_val(s.last())
    }
}

/// An optionally signed numeral in the given radix: a leading `+` or `-` may
/// precede the digits, and at least one digit must follow.
pub open spec fn parse_signed(s: Seq<char>, radix: int) -> Option<int> {
    if s.len() > 0 && (s[0] == '+' || s[0] == '-') {
        if s.len() > 1 && all_digits(s.skip(1), radix) {
            if s[0] == '-' {
                Some(-digits_value(s.skip(1), radix))
            } else {
                Some(digits_value(s.skip(1), radix))
            }
        } else {
            None
        }
    } else if s.len() > 0 && all_digits(s, radix) {
        Some(digits_value(s, radix))
    } else {
        None
    }
}

/// The mathematical value of a literal token, prefix included; `None` marks a
/// malformed numeral.
pub open spec fn parse_literal(s: Seq<char>) -> Option<int> {
    if s.len() >= 2 && s[0] == '0' && s[1] == 'x' {
        parse_signed(s.skip(2), 16)
    } else if s.len() >= 1 && s[0] == 'x' {
        parse_signed(s.skip(1), 16)
    } else if s.len() >= 2 && s[0] == '0' && s[1] == 'o' {
        parse_signed(s.skip(2), 8)
    } else if s.len() >= 1 && s[0] == 'o' {
        parse_signed(s.skip(1), 8)
    } else if s.len() >= 2 && s[0] == '0' && s[1] == 'b' {
        parse_signed(s.skip(2), 2)
    } else if s.len() >= 1 && s[0] == 'b' {
        parse_signed(s.skip(1), 2)
    } else {
        parse_signed(s, 10)
    }
}

/// What a literal token puts on the 64-bit stack: its mathematical value when
/// that value fits, and nothing otherwise.
pub open spec fn token_value(s: Seq<char>) -> Option<int> {
    match parse_literal(s) {
        Some(v) => if in_i64(v) {
            Some(v)
        } else {
            None
        },
        None => None,
    }
}

/// The value of a digit string is never negative.
proof fn lemma_digits_value_nonneg(s: Seq<char>, radix: int)
    requires
        2 <= radix,
        all_digits(s, radix),
    ensures
        digits_value(s, radix) >= 0,
    decreases s.len(),
{
    if s.len() > 0 {
        assert(all_digits(s.drop_last(), radix));
        lemma_digits_value_nonneg(s.drop_last(), radix);
        assert(digits_value(s.drop_last(), radix) * radix >= 0) by (nonlinear_arith)
            requires
                digits_value(s.drop_last(), radix) >= 0,
                radix >= 2,
        ;
    }
}

/// Reading more digits never shrinks the value: the value of a prefix of a
/// digit string bounds the value of the whole string from below.
proof fn lemma_digits_value_prefix_le(s: Seq<char>, radix: int, i: int)
    requires
        2 <= radix,
        all_digits(s, radix),
        0 <= i <= s.len(),
    ensures
        digits_value(s.take(i), radix) <= digits_value(s, radix),
    decreases s.len() - i,
{
    if i < s.len() {
        let t = s.take(i + 1);
        assert(t.drop_last() =~= s.take(i));
        assert(all_digits(t, radix)) by {
            assert(forall|j: int| 0 <= j < t.len() ==> t[j] == s[j]);
        }
        lemma_digits_value_nonneg(s.take(i), radix);
        assert(digits_value(s.take(i), radix) * radix >= digits_value(s.take(i), radix))
            by (nonlinear_arith)
            requires
                digits_value(s.take(i), radix) >= 0,
                radix >= 2,
        ;
        assert(digits_value(t, radix) >= digits_value(s.take(i), radix));
        lemma_digits_value_prefix_le(s, radix, i + 1);
    } else {
        assert(s.take(i) =~= s);
    }
}

/// Turns one character into its digit value under `radix`, refusing every
/// character that is no such digit.
fn digit_of(c: char, radix: u32) -> (r: Option<u32>)
    requires
        2 <= radix <= 16,
    ensures
        match r {
            Some(d) => is_digit(c, radix as int) && d as int == digit_val(c),
            None => !is_digit(c, radix as int),
        },
{
    let u = c as u32;
    let d: u32 = if u >= ('0' as u32) && u <= ('9' as u32) {
        u - ('0' as u32)
    } else if u >= ('a' as u32) && u <= ('f' as u32) {
        10 + (u - ('a' as u32))
    } else if u >= ('A' as u32) && u <= ('F' as u32) {
        10 + (u - ('A' as u32))
    } else {
        return None;
    };
    if d < radix {
        Some(d)
    } else {
        None
    }
}

/// Reads the optionally signed numeral that starts at character `start` of
/// `s` and runs to the token's end, in the given radix. `None` covers both a
/// malformed numeral and a value outside the signed 64-bit range.
fn parse_in_radix(s: &str, start: usize, radix: u32) -> (r: Option<i64>)
    requires
        start <= s@.len(),
        2 <= radix <= 16,
    ensures
        match r {
            Some(v) => parse_signed(s@.skip(start as int), radix as int) == Some(v as int),
            None => {
                let p = parse_signed(s@.skip(start as int), radix as int);
                p is None || !in_i64(p->Some_0)
            },
        },
{
    let ghost t: Seq<char> = s@.skip(start as int);
    let n = s.unicode_len();
    let mut i = start;
    let mut neg = false;
    if i < n {
        let c = s.get_char(i);
        if c == '+' {
            i = i + 1;
        } else if c == '-' {
            neg = true;
            i = i + 1;
        }
    }
    if i == n {
        // a bare sign, or nothing at all: no digits to read
        return None;
    }
    let ghost digits: Seq<char> = s@.skip(i as int);
    proof {
        if i > start {
            assert(digits =~= t.skip(1));
        } else {
            assert(digits =~= t);
        }
    }
    let mut mag: i128 = 0;
    let mut j = i;
    while j < n
        invariant
            start <= i <= j <= n,
            n == s@.len(),
            t == s@.skip(start as int),
            digits == s@.skip(i as int),
            digits == (if i > start {
                t.skip(1)
            } else {
                t
            }),
            i > start ==> t.len() > 0 && (t[0] == '+' || t[0] == '-'),
            i == start ==> !(t.len() > 0 && (t[0] == '+' || t[0] == '-')),
            neg <==> (i > start && t[0] == '-'),
            2 <= radix <= 16,
            all_digits(digits.take(j - i), radix as int),
            mag as int == digits_value(digits.take(j - i), radix as int),
            mag >= 0,
        decreases n - j,
    {
        let c = s.get_char(j);
        let d = match digit_of(c, radix) {
            Some(d) => d,
            None => {
                // a stray character: the numeral is malformed
                proof {
                    assert(digits[j - i] == c);
                    assert(!all_digits(digits, radix as int));
                    lemma_huge_is_refused(t, digits, radix as int, i > start);
                }
                return None;
            },
        };
        proof {
            assert(digits[j - i] == c);
        }
        let stepped: i128 = match mag.checked_mul(radix as i128) {
            Some(m) => m,
            None => {
                proof {
                    assert(mag * (radix as int) + d > i128::MAX) by (nonlinear_arith)
                        requires
                            mag >= 0,
                            d >= 0,
                            radix >= 2,
                            mag * (radix as int) > i128::MAX || mag * (radix as int) < i128::MIN,
                    ;
                    lemma_out_of_range(digits, radix as int, j - i, mag as int, d as int);
                    lemma_huge_is_refused(t, digits, radix as int, i > start);
                }
                return None;
            },
        };
        let grown: i128 = match stepped.checked_add(d as i128) {
            Some(m) => m,
            None => {
                proof {
                    lemma_out_of_range(digits, radix as int, j - i, mag as int, d as int);
                    lemma_huge_is_refused(t, digits, radix as int, i > start);
                }
                return None;
            },
        };
        proof {
            let w = digits.take(j - i + 1);
            assert(w.drop_last() =~= digits.take(j - i));
            assert(w.last() == digits[j - i]);
            assert(digits[j - i] == c);
        }
        mag = grown;
        j = j + 1;
        proof {
            lemma_digits_value_nonneg(digits.take(j - i), radix as int);
        }
    }
    proof {
        assert(digits.take(j - i) =~= digits);
    }
    if neg {
        if mag > 9223372036854775808i128 {
            // more negative than the 64-bit minimum
            return None;
        }
        proof {
            assert(t[0] == '-');
        }
        Some((-mag) as i64)
    } else {
        if mag > 9223372036854775807i128 {
            // past the 64-bit maximum
            return None;
        }
        Some(mag as i64)
    }
}

/// When one more digit overflows the 128-bit accumulator, the whole numeral
/// is far outside the 64-bit range, whatever digits follow.
proof fn lemma_out_of_range(digits: Seq<char>, radix: int, k: int, mag: int, d: int)
    requires
        2 <= radix <= 16,
        0 <= k < digits.len(),
        all_digits(digits.take(k), radix),
        is_digit(digits[k], radix),
        d == digit_val(digits[k]),
        mag == digits_value(digits.take(k), radix),
        mag >= 0,
        mag * radix + d > i128::MAX,
    ensures
        all_digits(digits, radix) ==> digits_value(digits, radix) > i128::MAX,
{
    if all_digits(digits, radix) {
        let w = digits.take(k + 1);
        assert(w.drop_last() =~= digits.take(k));
        assert(w.last() == digits[k]);
        assert(digits_value(w, radix) == mag * radix + d);
        assert(all_digits(w, radix)) by {
            assert(forall|j: int| 0 <= j < w.len() ==> w[j] == digits[j]);
        }
        lemma_digits_value_prefix_le(digits, radix, k + 1);
        assert(digits_value(digits, radix) >= mag * radix + d);
    }
}

/// A numeral whose digit string is worth more than the 128-bit maximum can
/// never be a 64-bit stack value, with or without a leading sign.
proof fn lemma_huge_is_refused(t: Seq<char>, digits: Seq<char>, radix: int, signed: bool)
    requires
        2 <= radix <= 16,
        digits == if signed {
            t.skip(1)
        } else {
            t
        },
        signed ==> t.len() > 0 && (t[0] == '+' || t[0] == '-'),
        !signed ==> !(t.len() > 0 && (t[0] == '+' || t[0] == '-')),
        all_digits(digits, radix) ==> digits_value(digits, radix) > i128::MAX,
    ensures
        parse_signed(t, radix) is None || !in_i64(parse_signed(t, radix)->Some_0),
{
    let p = parse_signed(t, radix);
    if p is Some {
        if t.len() > 0 && (t[0] == '+' || t[0] == '-') {
            assert(all_digits(t.skip(1), radix));
        } else {
            assert(all_digits(t, radix));
        }
        assert(digits_value(digits, radix) > i128::MAX);
    }
}

/// Parses `arg` as a radix-prefixed literal and pushes its value (the
/// original's literal word); a malformed or out-of-range token is a
/// `NumberFormatError` and leaves the stack alone.
pub fn num(stack: &mut Vec<i64>, arg: &str) -> (r: Result<(), Error>)
    ensures
        match r {
            Ok(_) => token_value(arg@) is Some && final(stack)@ == old(stack)@.push(
                final(stack)@.last(),
            ) && final(stack)@.last() as int == token_value(arg@)->Some_0,
            Err(e) => e == Error::NumberFormatError && token_value(arg@) is None && final(stack)@
                == old(stack)@,
        },
{
    let n = arg.unicode_len();
    let mut start: usize = 0;
    let mut radix: u32 = 10;
    if n >= 2 && arg.get_char(0) == '0' && arg.get_char(1) == 'x' {
        start = 2;
        radix = 16;
    } else if n >= 1 && arg.get_char(0) == 'x' {
        start = 1;
        radix = 16;
    } else if n >= 2 && arg.get_char(0) == '0' && arg.get_char(1) == 'o' {
        start = 2;
        radix = 8;
    } else if n >= 1 && arg.get_char(0) == 'o' {
        start = 1;
        radix = 8;
    } else if n >= 2 && arg.get_char(0) == '0' && arg.get_char(1) == 'b' {
        start = 2;
        radix = 2;
    } else if n >= 1 && arg.get_char(0) == 'b' {
        start = 1;
        radix = 2;
    }
    proof {
        assert(arg@.skip(0) =~= arg@);
        assert(parse_literal(arg@) == parse_signed(arg@.skip(start as int), radix as int));
    }
    match parse_in_radix(arg, start, radix) {
        Some(v) => {
            stack.push(v);
            proof {
                assert(stack@ =~= old(stack)@.push(v));
            }
            Ok(())
        },
        None => Err(Error::NumberFormatError),
    }
}

/// The canonical character for digit `d`: `0`-`9`, then lowercase `a`-`f`.
pub open spec fn digit_char(d: int) -> char
    recommends
        0 <= d < 16,
{
    if d < 10 {
        ((('0' as u32) + d) as u32) as char
    } else {
        ((('a' as u32) + (d - 10)) as u32) as char
    }
}

/// The canonical digits of `v` in `radix`: most significant first, no sign,
/// no leading zeros, lowercase.
pub open spec fn render_digits(v: int, radix: int) -> Seq<char>
    recommends
        0 <= v,
        2 <= radix <= 16,
    decreases v,
        via render_digits_decreases
{
    if v < radix || radix < 2 || v < 0 {
        seq![digit_char(v)]
    } else {
        render_digits(v / radix, radix).push(digit_char(v % radix))
    }
}

#[via_fn]
proof fn render_digits_decreases(v: int, radix: int) {
    if !(v < radix || radix < 2 || v < 0) {
        vstd::arithmetic::div_mod::lemma_div_decreases(v, radix);
    }
}

/// The canonical digits of `v` are digits of `radix`, and read back as `v`.
proof fn lemma_render_digits(v: int, radix: int)
    requires
        0 <= v,
        2 <= radix <= 16,
    ensures
        render_digits(v, radix).len() >= 1,
        all_digits(render_digits(v, radix), radix),
        digits_value(render_digits(v, radix), radix) == v,
    decreases v,
{
    if v < radix {
        assert(digit_val(digit_char(v)) == v);
        let r = seq![digit_char(v)];
        assert(r.drop_last() =~= Seq::<char>::empty());
        assert(digits_value(r.drop_last(), radix) == 0);
    } else {
        vstd::arithmetic::div_mod::lemma_div_decreases(v, radix);
        assert(v / radix >= 0) by (nonlinear_arith)
            requires
                v >= 0,
                radix >= 2,
        ;
        lemma_render_digits(v / radix, radix);
        let r = render_digits(v, radix);
        let r0 = render_digits(v / radix, radix);
        assert(r.drop_last() =~= r0);
        assert(r.last() == digit_char(v % radix));
        assert(0 <= v % radix < radix);
        assert(digit_val(digit_char(v % radix)) == v % radix);
        vstd::arithmetic::div_mod::lemma_fundamental_div_mod(v, radix);
        assert(digits_value(r, radix) == (v / radix) * radix + v % radix);
        assert((v / radix) * radix + v % radix == v) by (nonlinear_arith)
            requires
                v == radix * (v / radix) + v % radix,
        ;
        assert(forall|i: int|
            0 <= i < r.len() ==> #[trigger] r[i] == if i < r0.len() {
                r0[i]
            } else {
                r.last()
            });
    }
}

/// Law: literal round trip — parsing the canonical rendering of a
/// nonnegative value in any supported radix, behind that radix's prefix,
/// recovers the value.
pub proof fn lemma_literal_round_trip(v: int)
    requires
        0 <= v,
    ensures
        parse_literal(seq!['0', 'x'] + render_digits(v, 16)) == Some(v),
        parse_literal(seq!['0', 'o'] + render_digits(v, 8)) == Some(v),
        parse_literal(seq!['0', 'b'] + render_digits(v, 2)) == Some(v),
        parse_literal(render_digits(v, 10)) == Some(v),
{
    lemma_prefixed_round_trip(v, 16, '0', 'x');
    lemma_prefixed_round_trip(v, 8, '0', 'o');
    lemma_prefixed_round_trip(v, 2, '0', 'b');
    lemma_render_digits(v, 10);
    let s = render_digits(v, 10);
    assert(is_digit(s[0], 10));
    assert(s[0] != 'x' && s[0] != 'o' && s[0] != 'b' && s[0] != '+' && s[0] != '-');
    if s.len() >= 2 {
        assert(is_digit(s[1], 10));
        assert(s[1] != 'x' && s[1] != 'o' && s[1] != 'b');
    }
    assert(parse_literal(s) == parse_signed(s, 10));
}

/// Parsing `p0 p1 digits` picks the radix of the two-character prefix and
/// reads the digits unsigned.
proof fn lemma_prefixed_round_trip(v: int, radix: int, p0: char, p1: char)
    requires
        0 <= v,
        (radix == 16 && p0 == '0' && p1 == 'x') || (radix == 8 && p0 == '0' && p1 == 'o') || (
        radix == 2 && p0 == '0' && p1 == 'b'),
    ensures
        parse_literal(seq![p0, p1] + render_digits(v, radix)) == Some(v),
{
    lemma_render_digits(v, radix);
    let r = render_digits(v, radix);
    let s = seq![p0, p1] + r;
    assert(s[0] == p0 && s[1] == p1);
    assert(s.skip(2) =~= r);
    assert(is_digit(r[0], radix));
    assert(r[0] != '+' && r[0] != '-');
    assert(parse_signed(r, radix) == Some(digits_value(r, radix)));
}

} // verus!
