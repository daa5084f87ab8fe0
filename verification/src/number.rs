//! Unsigned numbers as digit strings, in a radix of at most ten.
//!
//! The grammar is the one Rust's integer parsing uses for `u32`: an optional
//! leading `+`, then one or more digits. Rendering writes the shortest digit
//! string, without sign.

use crate::text::{from_chars, to_chars};
use vstd::prelude::*;

verus! {

/// Why a string is not a `u32` in the given radix.
#[derive(Debug, Clone, Copy, PartialEq, Eq)]
pub enum NumberError {
    /// The string has no characters at all.
    Empty,
    /// A character that is not a digit of the radix, or a sign with nothing behind it.
    InvalidDigit,
    /// The digits denote a number above `u32::MAX`.
    TooLarge,
}

/// The value of `c` as a digit of `radix`, if it is one.
pub open spec fn digit_value(c: char, radix: nat) -> Option<nat> {
    if '0' <= c && c <= '9' && (c as nat) - ('0' as nat) < radix {
        Some(((c as nat) - ('0' as nat)) as nat)
    } else {
        None
    }
}

/// The character for the digit `d`, `0 <= d <= 9`.
pub open spec fn digit_char(d: nat) -> char {
    (('0' as nat) + d) as char
}

/// Reads `s` as a run of digits, left to right. The first character that is
/// no digit, or the first digit that takes the value above `u32::MAX`,
/// decides the error.
pub open spec fn parse_digits(s: Seq<char>, radix: nat) -> Result<nat, NumberError>
    decreases s.len(),
{
    if s.len() == 0 {
        Ok(0)
    } else {
        match parse_digits(s.drop_last(), radix) {
            Err(e) => Err(e),
            Ok(v) => match digit_value(s.last(), radix) {
                None => Err(NumberError::InvalidDigit),
                Some(d) => if v * radix + d > u32::MAX {
                    Err(NumberError::TooLarge)
                } else {
                    Ok(v * radix + d)
                },
            },
        }
    }
}

/// Reads `s` as a `u32`: an optional `+`, then at least one digit.
pub open spec fn parse_number(s: Seq<char>, radix: nat) -> Result<nat, NumberError> {
    if s.len() == 0 {
        Err(NumberError::Empty)
    } else if s[0] == '+' {
        if s.len() == 1 {
            Err(NumberError::InvalidDigit)
        } else {
            parse_digits(s.drop_first(), radix)
        }
    } else {
        parse_digits(s, radix)
    }
}

/// The digits of `n` in `radix`, most significant first, `"0"` for zero.
pub open spec fn render_number(n: nat, radix: nat) -> Seq<char>
    decreases n,
    via render_number_decreases
{
    if n < radix || radix < 2 {
        seq![digit_char(n)]
    } else {
        render_number(n / radix, radix).push(digit_char(n % radix))
    }
}

#[via_fn]
proof fn render_number_decreases(n: nat, radix: nat) {
    if n >= radix && radix >= 2 {
        lemma_quotient_smaller(n, radix);
    }
}

/// Dividing by a radix makes a number at least as large as the radix smaller.
proof fn lemma_quotient_smaller(n: nat, radix: nat)
    requires
        2 <= radix <= n,
    ensures
        n / radix < n,
        (n / radix) * radix + n % radix == n,
        n % radix < radix,
{
    vstd::arithmetic::div_mod::lemma_fundamental_div_mod(n as int, radix as int);
    vstd::arithmetic::div_mod::lemma_mod_bound(n as int, radix as int);
    vstd::arithmetic::div_mod::lemma_div_pos_is_pos(n as int, radix as int);
    let q = n / radix;
    assert(radix * q >= 2 * q) by (nonlinear_arith)
        requires
            radix >= 2,
            q >= 0,
    ;
    assert(radix * q == q * radix) by (nonlinear_arith);
    if q >= n {
        assert(n == 0);
    }
}

/// Every character of `s` is a digit of `radix`.
pub open spec fn all_digits(s: Seq<char>, radix: nat) -> bool {
    forall|i: int| 0 <= i < s.len() ==> (#[trigger] digit_value(s[i], radix)) is Some
}

/// A rendered number is a non-empty run of digits.
pub proof fn lemma_render_is_digits(n: nat, radix: nat)
    requires
        2 <= radix <= 10,
    ensures
        render_number(n, radix).len() >= 1,
        all_digits(render_number(n, radix), radix),
    decreases n,
{
    if n < radix {
    } else {
        lemma_quotient_smaller(n, radix);
        lemma_render_is_digits(n / radix, radix);
        let prefix = render_number(n / radix, radix);
        let whole = render_number(n, radix);
        assert forall|i: int| 0 <= i < whole.len() implies (#[trigger] digit_value(
            whole[i],
            radix,
        )) is Some by {
            if i < prefix.len() {
                assert(whole[i] == prefix[i]);
            }
        }
    }
}

/// A rendered number holds no character that is not a digit of the radix.
pub proof fn lemma_number_lacks(n: nat, radix: nat, c: char)
    requires
        2 <= radix <= 10,
        digit_value(c, radix) is None,
    ensures
        forall|i: int| 0 <= i < render_number(n, radix).len() ==> render_number(n, radix)[i] != c,
        render_number(n, radix).len() > 0,
        render_number(n, radix).last() != c,
{
    lemma_render_is_digits(n, radix);
    let s = render_number(n, radix);
    assert forall|i: int| 0 <= i < s.len() implies s[i] != c by {
        assert(digit_value(s[i], radix) is Some);
    }
}

/// Reading what was rendered gives the number back.
pub proof fn lemma_parse_render(n: nat, radix: nat)
    requires
        2 <= radix <= 10,
        n <= u32::MAX,
    ensures
        parse_digits(render_number(n, radix), radix) == Ok::<nat, NumberError>(n),
        parse_number(render_number(n, radix), radix) == Ok::<nat, NumberError>(n),
    decreases n,
{
    let whole = render_number(n, radix);
    lemma_render_is_digits(n, radix);
    lemma_digit_char_value(n % radix, radix);
    if n < radix {
        assert(whole.drop_last() =~= Seq::<char>::empty());
        assert(parse_digits(whole.drop_last(), radix) == Ok::<nat, NumberError>(0));
        assert(whole.last() == digit_char(n));
        assert(0 * radix + n == n) by (nonlinear_arith);
    } else {
        let q = n / radix;
        lemma_quotient_smaller(n, radix);
        lemma_parse_render(q, radix);
        assert(whole.drop_last() =~= render_number(q, radix));
        assert(whole.last() == digit_char(n % radix));
    }
    assert(digit_value(whole[0], radix) is Some);
}

/// A digit's character reads back as the digit.
proof fn lemma_digit_char_value(d: nat, radix: nat)
    requires
        radix <= 10,
    ensures
        d < radix ==> digit_value(digit_char(d), radix) == Some(d),
{
}

/// The digit `d` as a character.
fn digit_to_char(d: u64) -> (c: char)
    requires
        d <= 9,
    ensures
        c == digit_char(d as nat),
{
    let b: u8 = 48 + d as u8;
    b as char
}

/// Appends the digits of `n` in `radix` to `out`.
pub(crate) fn push_number(out: &mut Vec<char>, n: u64, radix: u64)
    requires
        2 <= radix <= 10,
    ensures
        final(out)@ == old(out)@ + render_number(n as nat, radix as nat),
    decreases n,
{
    if n >= radix {
        proof {
            lemma_quotient_smaller(n as nat, radix as nat);
        }
        push_number(out, n / radix, radix);
    }
    out.push(digit_to_char(n % radix));
    proof {
        let digits = render_number(n as nat, radix as nat);
        if n < radix {
            vstd::arithmetic::div_mod::lemma_small_mod(n as nat, radix as nat);
        }
        assert(out@ =~= old(out)@ + digits);
    }
}

/// An error among the first characters of a digit string is the error of the whole.
proof fn lemma_parse_digits_prefix_error(s: Seq<char>, k: int, radix: nat)
    requires
        0 <= k <= s.len(),
        parse_digits(s.take(k), radix) is Err,
    ensures
        parse_digits(s, radix) == parse_digits(s.take(k), radix),
    decreases s.len(),
{
    if k == s.len() {
        assert(s.take(k) =~= s);
    } else {
        assert(s.drop_last().take(k) =~= s.take(k));
        lemma_parse_digits_prefix_error(s.drop_last(), k, radix);
    }
}

/// The value of `c` as a digit of `radix`.
fn char_to_digit(c: char, radix: u32) -> (d: Option<u32>)
    requires
        2 <= radix <= 10,
    ensures
        match d {
            Some(v) => digit_value(c, radix as nat) == Some(v as nat),
            None => digit_value(c, radix as nat) is None,
        },
{
    if '0' <= c && c <= '9' {
        let v: u32 = c as u32 - 48;
        if v < radix {
            Some(v)
        } else {
            None
        }
    } else {
        None
    }
}

/// Reads `s` as a `u32` in `radix`.
pub(crate) fn read_number(s: &Vec<char>, radix: u32) -> (r: Result<u32, NumberError>)
    requires
        2 <= radix <= 10,
    ensures
        match r {
            Ok(v) => parse_number(s@, radix as nat) == Ok::<nat, NumberError>(v as nat),
            Err(e) => parse_number(s@, radix as nat) == Err::<nat, NumberError>(e),
        },
{
    let len = s.len();
    if len == 0 {
        return Err(NumberError::Empty);
    }
    let start: usize = if s[0] == '+' {
        1
    } else {
        0
    };
    if start == len {
        return Err(NumberError::InvalidDigit);
    }
    let ghost digits = s@.skip(start as int);
    let mut acc: u32 = 0;
    let mut i: usize = start;
    proof {
        assert(s@.drop_first() =~= s@.skip(1));
        assert(s@.skip(0) =~= s@);
        assert(digits.take(0) =~= Seq::<char>::empty());
    }
    while i < len
        invariant
            2 <= radix <= 10,
            parse_number(s@, radix as nat) == parse_digits(digits, radix as nat),
            len == s.len(),
            start <= i <= len,
            digits == s@.skip(start as int),
            parse_digits(digits.take(i - start), radix as nat) == Ok::<nat, NumberError>(
                acc as nat,
            ),
        decreases len - i,
    {
        let ghost upto = digits.take(i - start + 1);
        proof {
            assert(upto.drop_last() =~= digits.take(i - start));
            assert(upto.last() == s@[i as int]);
        }
        let d = match char_to_digit(s[i], radix) {
            Some(d) => d,
            None => {
                proof {
                    lemma_parse_digits_prefix_error(digits, i - start + 1, radix as nat);
                }
                return Err(NumberError::InvalidDigit);
            },
        };
        assert(acc as u64 * radix as u64 <= 0xFFFF_FFFF * 10) by (nonlinear_arith)
            requires
                acc <= 0xFFFF_FFFF,
                radix <= 10,
        ;
        let wide: u64 = acc as u64 * radix as u64 + d as u64;
        assert(wide == (acc as nat) * (radix as nat) + (d as nat)) by (nonlinear_arith)
            requires
                wide == acc as u64 * radix as u64 + d as u64,
                acc <= u32::MAX,
                radix <= 10,
                d <= 9,
        ;
        if wide > 0xFFFF_FFFF {
            proof {
                lemma_parse_digits_prefix_error(digits, i - start + 1, radix as nat);
            }
            return Err(NumberError::TooLarge);
        }
        acc = wide as u32;
        i += 1;
    }
    proof {
        assert(digits.take(len - start) =~= digits);
    }
    Ok(acc)
}

/// Reads `s` as a `u32` written in base eight.
pub fn parse_octal(s: &str) -> (r: Result<u32, NumberError>)
    ensures
        match r {
            Ok(v) => parse_number(s@, 8) == Ok::<nat, NumberError>(v as nat),
            Err(e) => parse_number(s@, 8) == Err::<nat, NumberError>(e),
        },
{
    read_number(&to_chars(s), 8)
}

/// Reads `s` as a `u32` written in base ten.
pub fn parse_decimal(s: &str) -> (r: Result<u32, NumberError>)
    ensures
        match r {
            Ok(v) => parse_number(s@, 10) == Ok::<nat, NumberError>(v as nat),
            Err(e) => parse_number(s@, 10) == Err::<nat, NumberError>(e),
        },
{
    read_number(&to_chars(s), 10)
}

/// `n` written in base eight.
pub fn octal(n: u32) -> (s: String)
    ensures
        s@ == render_number(n as nat, 8),
{
    let mut digits: Vec<char> = Vec::new();
    push_number(&mut digits, n as u64, 8);
    from_chars(&digits)
}

/// `n` written in base ten.
pub fn decimal(n: u32) -> (s: String)
    ensures
        s@ == render_number(n as nat, 10),
{
    let mut digits: Vec<char> = Vec::new();
    push_number(&mut digits, n as u64, 10);
    from_chars(&digits)
}

} // verus!
