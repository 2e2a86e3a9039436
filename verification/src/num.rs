use vstd::prelude::*;
use crate::value::spec_decimal;

verus! {

/// An ASCII plus sign, accepted as an optional prefix of an integer token.
pub const PLUS_SIGN: u8 = 43;

/// True when every byte is an ASCII decimal digit.
pub open spec fn all_digits(s: Seq<u8>) -> bool {
    forall|i: int| 0 <= i < s.len() ==> 48 <= #[trigger] s[i] <= 57
}

/// Numeric value of a digit string, most significant digit first.
pub open spec fn dec_value(s: Seq<u8>) -> nat
    decreases s.len(),
{
    if s.len() == 0 {
        0
    } else {
        (dec_value(s.drop_last()) * 10 + (s.last() - 48)) as nat
    }
}

/// The number an integer token denotes: an optional leading `+` followed
/// by one or more decimal digits, read in base ten. `None` when the token
/// has any other shape.
pub open spec fn spec_parse_uint(s: Seq<u8>) -> Option<nat> {
    let digits = if s.len() > 0 && s[0] == PLUS_SIGN {
        s.drop_first()
    } else {
        s
    };
    if digits.len() > 0 && all_digits(digits) {
        Some(dec_value(digits))
    } else {
        None
    }
}

/// [`spec_parse_uint`] restricted to values that fit 32 bits.
pub open spec fn spec_parse_u32(s: Seq<u8>) -> Option<u32> {
    match spec_parse_uint(s) {
        Some(n) => if n <= u32::MAX {
            Some(n as u32)
        } else {
            None
        },
        None => None,
    }
}

/// [`spec_parse_uint`] restricted to values that fit 64 bits.
pub open spec fn spec_parse_u64(s: Seq<u8>) -> Option<u64> {
    match spec_parse_uint(s) {
        Some(n) => if n <= u64::MAX {
            Some(n as u64)
        } else {
            None
        },
        None => None,
    }
}

/// Reads the digits of `s` from `start` on as a base-ten number.
fn parse_digits_u64(s: &[u8], start: usize) -> (r: Option<u64>)
    requires
        start <= s@.len(),
    ensures
        ({
            let digits = s@.skip(start as int);
            r == if digits.len() > 0 && all_digits(digits) && dec_value(digits) <= u64::MAX {
                Some(dec_value(digits) as u64)
            } else {
                None::<u64>
            }
        }),
{
    let ghost digits = s@.skip(start as int);
    if start >= s.len() {
        return None;
    }
    let mut i: usize = start;
    let mut acc: u128 = 0;
    let mut over: bool = false;
    while i < s.len()
        invariant
            start <= i <= s@.len(),
            digits == s@.skip(start as int),
            all_digits(digits.take(i - start)),
            !over ==> acc == dec_value(digits.take(i - start)) && acc <= u64::MAX,
            over ==> dec_value(digits.take(i - start)) > u64::MAX,
        decreases s@.len() - i,
    {
        let b = s[i];
        if b < 48 || b > 57 {
            proof {
                assert(digits[i - start] == b);
                assert(!all_digits(digits));
            }
            return None;
        }
        proof {
            assert(digits.take(i - start + 1).drop_last() =~= digits.take(i - start));
            assert(digits.take(i - start + 1).last() == digits[i - start]);
            assert(dec_value(digits.take(i - start + 1)) == dec_value(digits.take(i - start)) * 10
                + (b - 48));
        }
        if !over {
            acc = acc * 10 + ((b - 48) as u128);
            if acc > (u64::MAX as u128) {
                over = true;
            }
        } else {
            proof {
                let prev = dec_value(digits.take(i - start));
                assert(prev * 10 + (b - 48) >= prev);
            }
        }
        i += 1;
    }
    proof {
        assert(digits.take(i - start) =~= digits);
    }
    if over {
        None
    } else {
        Some(acc as u64)
    }
}

/// Reads an integer token (optional `+`, then digits) as a 64-bit number.
pub fn parse_u64_token(s: &[u8]) -> (r: Option<u64>)
    ensures
        r == spec_parse_u64(s@),
{
    let start: usize = if s.len() > 0 && s[0] == PLUS_SIGN {
        1
    } else {
        0
    };
    proof {
        if s@.len() > 0 && s@[0] == PLUS_SIGN {
            assert(s@.skip(1) =~= s@.drop_first());
        } else {
            assert(s@.skip(0) =~= s@);
        }
    }
    parse_digits_u64(s, start)
}

/// Reads an integer token as a 32-bit number.
pub fn parse_u32_token(s: &[u8]) -> (r: Option<u32>)
    ensures
        r == spec_parse_u32(s@),
{
    match parse_u64_token(s) {
        Some(n) => if n <= u32::MAX as u64 {
            Some(n as u32)
        } else {
            None
        },
        None => None,
    }
}

/// Writes `n` in decimal, most significant digit first.
pub fn decimal_of(n: usize) -> (r: Vec<u8>)
    ensures
        r@ == spec_decimal(n as nat),
{
    let mut out: Vec<u8> = Vec::new();
    let mut m: usize = n;
    while m >= 10
        invariant
            spec_decimal(n as nat) == spec_decimal(m as nat) + out@,
        decreases m,
    {
        let d: u8 = 48 + ((m % 10) as u8);
        out.insert(0, d);
        m = m / 10;
        proof {
            assert(spec_decimal(n as nat) =~= spec_decimal(m as nat) + out@);
        }
    }
    let d: u8 = 48 + ((m % 10) as u8);
    out.insert(0, d);
    proof {
        assert(spec_decimal(n as nat) =~= out@);
    }
    out
}

/// The decimal digits of `n` form a plain digit token that reads back as
/// `n`: they are non-empty, all digits, carry no sign, and denote `n`.
pub proof fn lemma_decimal_digits(n: nat)
    ensures
        spec_decimal(n).len() > 0,
        all_digits(spec_decimal(n)),
        spec_decimal(n)[0] != PLUS_SIGN,
        dec_value(spec_decimal(n)) == n,
    decreases n,
{
    if n < 10 {
        let s = spec_decimal(n);
        assert(s =~= seq![(48 + n) as u8]);
        assert(s.drop_last() =~= Seq::<u8>::empty());
        assert(dec_value(Seq::<u8>::empty()) == 0);
        assert(dec_value(s) == n);
    } else {
        lemma_decimal_digits(n / 10);
        let s = spec_decimal(n);
        assert(s =~= spec_decimal(n / 10).push((48 + n % 10) as u8));
        assert(s.drop_last() =~= spec_decimal(n / 10));
        assert(s.last() == (48 + n % 10) as u8);
        assert(dec_value(s) == (n / 10) * 10 + n % 10);
        assert((n / 10) * 10 + n % 10 == n) by {
            vstd::arithmetic::div_mod::lemma_fundamental_div_mod(n as int, 10);
        }
        assert forall|i: int| 0 <= i < s.len() implies 48 <= #[trigger] s[i] <= 57 by {
            if i < s.len() - 1 {
                assert(s[i] == spec_decimal(n / 10)[i]);
            }
        }
    }
}

/// A decimal token parses back to the number it was written from.
pub proof fn lemma_decimal_parses_back(n: nat)
    ensures
        spec_parse_uint(spec_decimal(n)) == Some(n),
{
    lemma_decimal_digits(n);
}

} // verus!
