//! Parsing the values that arrive through process configuration: unsigned
//! integers in decimal or `0x`-prefixed hexadecimal, and booleans. Reading
//! the process environment itself stays outside the library; only the
//! parsing of the fetched text is done, and verified, here.

use vstd::prelude::*;
use vstd::string::*;

verus! {

/// Why a configuration value could not be obtained.
#[derive(Debug, PartialEq, Eq, Structural, Clone, Copy)]
pub enum EnvVarFailure {
    VarNotFound,
    CouldNotParseVar,
}

/// `c` is a digit of the given radix (decimal digits, and for radix 16 also
/// the hexadecimal letters in either case).
pub open spec fn is_digit(c: char, radix: u32) -> bool {
    (('0' as u32) <= (c as u32) <= ('9' as u32)) || (radix == 16 && ((('a' as u32) <= (c as u32)
        <= ('f' as u32)) || (('A' as u32) <= (c as u32) <= ('F' as u32))))
}

/// The numeric value of a digit.
pub open spec fn digit_val(c: char, radix: u32) -> int {
    if ('0' as u32) <= (c as u32) <= ('9' as u32) {
        c as int - '0' as int
    } else if ('a' as u32) <= (c as u32) <= ('f' as u32) {
        c as int - 'a' as int + 10
    } else {
        c as int - 'A' as int + 10
    }
}

/// The number a digit string denotes, most significant digit first.
pub open spec fn radix_fold(s: Seq<char>, radix: u32) -> int
    decreases s.len(),
{
    if s.len() == 0 {
        0
    } else {
        radix_fold(s.drop_last(), radix) * radix + digit_val(s.last(), radix)
    }
}

/// The digits of a number text: everything after an optional leading plus.
pub open spec fn radix_body(s: Seq<char>) -> Seq<char> {
    if s.len() > 0 && s[0] == '+' {
        s.subrange(1, s.len() as int)
    } else {
        s
    }
}

/// Every character is a digit of the given radix.
pub open spec fn all_digits(s: Seq<char>, radix: u32) -> bool {
    forall|i: int| 0 <= i < s.len() ==> is_digit(#[trigger] s[i], radix)
}

/// A digit string under the given radix: an optional leading plus sign, then
/// at least one digit, denoting a value that fits `u32`.
pub open spec fn parse_radix_spec(s: Seq<char>, radix: u32) -> Option<u32> {
    if radix_body(s).len() >= 1 && all_digits(radix_body(s), radix) && radix_fold(
        radix_body(s),
        radix,
    ) <= u32::MAX {
        Some(radix_fold(radix_body(s), radix) as u32)
    } else {
        None
    }
}

/// An unsigned 32-bit value as configuration text: decimal, or, where that
/// fails, hexadecimal after a `0x` prefix.
pub open spec fn parse_u32_spec(s: Seq<char>) -> Option<u32> {
    match parse_radix_spec(s, 10) {
        Option::Some(v) => Some(v),
        Option::None => {
            if s.len() >= 2 && s[0] == '0' && s[1] == 'x' {
                parse_radix_spec(s.subrange(2, s.len() as int), 16)
            } else {
                None
            }
        },
    }
}

/// A boolean as configuration text: exactly `true` or `false`.
pub open spec fn parse_bool_spec(s: Seq<char>) -> Option<bool> {
    if s == seq!['t', 'r', 'u', 'e'] {
        Some(true)
    } else if s == seq!['f', 'a', 'l', 's', 'e'] {
        Some(false)
    } else {
        None
    }
}

/// A valid digit's value lies below its radix.
proof fn lemma_digit_val_bounds(c: char, radix: u32)
    requires
        radix == 10 || radix == 16,
        is_digit(c, radix),
    ensures
        0 <= digit_val(c, radix) < radix,
{
    if ('0' as u32) <= (c as u32) <= ('9' as u32) {
        assert(c as int - '0' as int <= 9);
    }
}

/// A string of valid digits denotes a non-negative number.
proof fn lemma_fold_nonneg(s: Seq<char>, radix: u32)
    requires
        radix == 10 || radix == 16,
        forall|i: int| 0 <= i < s.len() ==> is_digit(#[trigger] s[i], radix),
    ensures
        radix_fold(s, radix) >= 0,
    decreases s.len(),
{
    if s.len() > 0 {
        lemma_digit_val_bounds(s.last(), radix);
        lemma_fold_nonneg(s.drop_last(), radix);
        assert(radix_fold(s.drop_last(), radix) * radix >= 0) by (nonlinear_arith)
            requires
                radix_fold(s.drop_last(), radix) >= 0,
                radix >= 2,
        ;
    }
}

/// Extending a valid digit string never shrinks the number it denotes.
proof fn lemma_fold_prefix_le(s: Seq<char>, radix: u32, k: int)
    requires
        radix == 10 || radix == 16,
        0 <= k <= s.len(),
        forall|i: int| 0 <= i < s.len() ==> is_digit(#[trigger] s[i], radix),
    ensures
        radix_fold(s.take(k), radix) <= radix_fold(s, radix),
    decreases s.len() - k,
{
    if k < s.len() {
        lemma_fold_prefix_le(s, radix, k + 1);
        assert(s.take(k + 1).drop_last() =~= s.take(k));
        assert(s.take(k + 1).last() == s[k]);
        lemma_digit_val_bounds(s[k], radix);
        lemma_fold_nonneg(s.take(k), radix);
        assert(radix_fold(s.take(k), radix) * radix + digit_val(s[k], radix) >= radix_fold(
            s.take(k),
            radix,
        )) by (nonlinear_arith)
            requires
                radix_fold(s.take(k), radix) >= 0,
                radix >= 2,
                digit_val(s[k], radix) >= 0,
        ;
    } else {
        assert(s.take(k) =~= s);
    }
}

/// Parse the digits of `s` from position `start` on under the given radix.
#[verifier::rlimit(60)]
fn parse_radix_value(s: &str, start: usize, radix: u32) -> (r: Result<u32, EnvVarFailure>)
    requires
        start <= s@.len(),
        radix == 10 || radix == 16,
    ensures
        match parse_radix_spec(s@.subrange(start as int, s@.len() as int), radix) {
            Option::Some(v) => r == Ok::<u32, EnvVarFailure>(v),
            Option::None => r == Err::<u32, EnvVarFailure>(EnvVarFailure::CouldNotParseVar),
        },
{
    let n = s.unicode_len();
    let ghost whole = s@.subrange(start as int, s@.len() as int);
    let mut i = start;
    if i < n && s.get_char(i) == '+' {
        i = i + 1;
    }
    let ghost body = s@.subrange(i as int, s@.len() as int);
    proof {
        if start < s@.len() && whole[0] == '+' {
            assert(whole.subrange(1, whole.len() as int) =~= body);
        } else {
            assert(whole =~= body);
        }
        assert(radix_body(whole) == body);
    }
    if i == n {
        proof {
            assert(body.len() == 0);
            assert(parse_radix_spec(whole, radix) is None);
        }
        return Err(EnvVarFailure::CouldNotParseVar);
    }
    let mut acc: u64 = 0;
    let mut j = i;
    while j < n
        invariant
            n == s@.len(),
            start <= i <= j <= n,
            radix == 10 || radix == 16,
            whole == s@.subrange(start as int, s@.len() as int),
            body == s@.subrange(i as int, s@.len() as int),
            radix_body(whole) == body,
            body.len() >= 1,
            acc <= u32::MAX,
            acc == radix_fold(body.take(j - i), radix),
            forall|k: int| 0 <= k < j - i ==> is_digit(#[trigger] body[k], radix),
        decreases n - j,
    {
        let c = s.get_char(j);
        let cu = c as u32;
        let d: u32;
        if cu >= '0' as u32 && cu <= '9' as u32 {
            d = cu - '0' as u32;
        } else if radix == 16 && cu >= 'a' as u32 && cu <= 'f' as u32 {
            d = cu - 'a' as u32 + 10;
        } else if radix == 16 && cu >= 'A' as u32 && cu <= 'F' as u32 {
            d = cu - 'A' as u32 + 10;
        } else {
            proof {
                assert(!is_digit(body[j - i], radix));
                assert(!all_digits(body, radix));
                assert(parse_radix_spec(whole, radix) is None);
            }
            return Err(EnvVarFailure::CouldNotParseVar);
        }
        proof {
            assert(is_digit(body[j - i], radix) && d == digit_val(body[j - i], radix));
            assert(acc * radix + d <= u32::MAX as u64 * 16 + 15) by (nonlinear_arith)
                requires
                    acc <= u32::MAX,
                    radix <= 16,
                    d <= 15,
            ;
        }
        let next: u64 = acc * radix as u64 + d as u64;
        proof {
            assert(body.take(j - i + 1).drop_last() =~= body.take(j - i));
            assert(body.take(j - i + 1).last() == body[j - i]);
            assert(next == radix_fold(body.take(j - i + 1), radix));
        }
        if next > u32::MAX as u64 {
            proof {
                if all_digits(body, radix) {
                    lemma_fold_prefix_le(body, radix, j - i + 1);
                    assert(body.take(body.len() as int) =~= body);
                    assert(radix_fold(body, radix) > u32::MAX);
                }
                assert(parse_radix_spec(whole, radix) is None);
            }
            return Err(EnvVarFailure::CouldNotParseVar);
        }
        acc = next;
        j = j + 1;
    }
    proof {
        assert(body.take(n - i) =~= body);
        assert(all_digits(body, radix));
        assert(parse_radix_spec(whole, radix) == Some(acc as u32));
    }
    Ok(acc as u32)
}

/// Parse configuration text as an unsigned 32-bit value: decimal, or, where
/// that fails, hexadecimal after a `0x` prefix.
pub fn parse_u32_value(s: &str) -> (r: Result<u32, EnvVarFailure>)
    ensures
        match parse_u32_spec(s@) {
            Option::Some(v) => r == Ok::<u32, EnvVarFailure>(v),
            Option::None => r == Err::<u32, EnvVarFailure>(EnvVarFailure::CouldNotParseVar),
        },
{
    proof {
        assert(s@.subrange(0, s@.len() as int) =~= s@);
    }
    match parse_radix_value(s, 0, 10) {
        Ok(v) => Ok(v),
        Err(_) => {
            let n = s.unicode_len();
            if n >= 2 && s.get_char(0) == '0' && s.get_char(1) == 'x' {
                parse_radix_value(s, 2, 16)
            } else {
                Err(EnvVarFailure::CouldNotParseVar)
            }
        },
    }
}

/// Parse configuration text as a boolean: exactly `true` or `false`.
pub fn parse_bool_value(s: &str) -> (r: Result<bool, EnvVarFailure>)
    ensures
        match parse_bool_spec(s@) {
            Option::Some(b) => r == Ok::<bool, EnvVarFailure>(b),
            Option::None => r == Err::<bool, EnvVarFailure>(EnvVarFailure::CouldNotParseVar),
        },
{
    let n = s.unicode_len();
    if n == 4 && s.get_char(0) == 't' && s.get_char(1) == 'r' && s.get_char(2) == 'u'
        && s.get_char(3) == 'e' {
        proof {
            assert(s@ =~= seq!['t', 'r', 'u', 'e']);
        }
        Ok(true)
    } else if n == 5 && s.get_char(0) == 'f' && s.get_char(1) == 'a' && s.get_char(2) == 'l'
        && s.get_char(3) == 's' && s.get_char(4) == 'e' {
        proof {
            assert(s@ =~= seq!['f', 'a', 'l', 's', 'e']);
        }
        Ok(false)
    } else {
        proof {
            if s@ == seq!['t', 'r', 'u', 'e'] {
                assert(s@.len() == 4 && s@[0] == 't' && s@[1] == 'r' && s@[2] == 'u' && s@[3]
                    == 'e');
            }
            if s@ == seq!['f', 'a', 'l', 's', 'e'] {
                assert(s@.len() == 5 && s@[0] == 'f' && s@[1] == 'a' && s@[2] == 'l' && s@[3]
                    == 's' && s@[4] == 'e');
            }
        }
        Err(EnvVarFailure::CouldNotParseVar)
    }
}

} // verus!
