//! Parsing a token as a signed 8-bit decimal integer.
//!
//! The accepted forms are those of `i8` decimal literals: an optional `+`
//! or `-` sign followed by at least one ASCII digit, with the resulting
//! value in the range of `i8`.

use vstd::prelude::*;

verus! {

pub open spec fn is_digit(b: u8) -> bool {
    0x30 <= b && b <= 0x39
}

pub open spec fn all_digits(s: Seq<u8>) -> bool {
    forall|i: int| 0 <= i < s.len() ==> is_digit(#[trigger] s[i])
}

/// The value of a string of ASCII digits read in base 10.
pub open spec fn digits_val(s: Seq<u8>) -> int
    decreases s.len(),
{
    if s.len() == 0 {
        0
    } else {
        digits_val(s.drop_last()) * 10 + (s.last() - 0x30)
    }
}

proof fn lemma_digits_val_nonneg(s: Seq<u8>)
    requires
        all_digits(s),
    ensures
        digits_val(s) >= 0,
    decreases s.len(),
{
    if s.len() > 0 {
        assert(all_digits(s.drop_last()));
        lemma_digits_val_nonneg(s.drop_last());
    }
}

/// The value a token denotes as an `i8`, or `None` where the token is not
/// a decimal integer literal in range: an optional sign, then one or more
/// digits, with the value within `-128 ..= 127`.
pub open spec fn spec_parse_i8(t: Seq<u8>) -> Option<i8> {
    let digits = if t.len() > 0 && (t[0] == 0x2b || t[0] == 0x2d) {
        t.drop_first()
    } else {
        t
    };
    let neg = t.len() > 0 && t[0] == 0x2d;
    if digits.len() == 0 || !all_digits(digits) {
        None
    } else if neg {
        if digits_val(digits) <= 128 {
            Some((-digits_val(digits)) as i8)
        } else {
            None
        }
    } else {
        if digits_val(digits) <= 127 {
            Some(digits_val(digits) as i8)
        } else {
            None
        }
    }
}

/// The integer square root: the largest `root` with `root * root <= n`.
pub fn int_sqrt(n: usize) -> (root: usize)
    ensures
        root * root <= n < (root + 1) * (root + 1),
{
    if n == 0 {
        return 0;
    }
    if n < 4 {
        return 1;
    }
    let mut r: usize = 1;
    // `r + 1 <= n / (r + 1)` holds exactly when `(r + 1) * (r + 1) <= n`,
    // and avoids any overflowing multiplication.
    while r + 1 <= n / (r + 1)
        invariant
            1 <= r < n,
            r * r <= n,
            4 <= n,
        decreases n - r,
    {
        proof {
            let q = n as int / (r as int + 1);
            let m = n as int % (r as int + 1);
            vstd::arithmetic::div_mod::lemma_fundamental_div_mod(n as int, r as int + 1);
            vstd::arithmetic::div_mod::lemma_mod_bound(n as int, r as int + 1);
            assert((r as int + 1) * (r as int + 1) <= n as int) by (nonlinear_arith)
                requires
                    n as int == (r as int + 1) * q + m,
                    0 <= m,
                    r as int + 1 <= q,
            ;
        }
        r = r + 1;
        proof {
            vstd::arithmetic::mul::lemma_mul_inequality(2, r as int, r as int);
        }
    }
    proof {
        let q = n as int / (r as int + 1);
        let m = n as int % (r as int + 1);
        vstd::arithmetic::div_mod::lemma_fundamental_div_mod(n as int, r as int + 1);
        vstd::arithmetic::div_mod::lemma_mod_bound(n as int, r as int + 1);
        assert((n as int) < (r as int + 1) * (r as int + 1)) by (nonlinear_arith)
            requires
                n as int == (r as int + 1) * q + m,
                m < r as int + 1,
                q <= r as int,
                0 <= r as int,
        ;
    }
    r
}

/// Parses a token as an `i8`, exactly as `spec_parse_i8` describes.
pub fn parse_i8(t: &[u8]) -> (r: Option<i8>)
    ensures
        r == spec_parse_i8(t@),
{
    if t.len() == 0 {
        return None;
    }
    let signed: bool = t[0] == 0x2b || t[0] == 0x2d;
    let neg: bool = t[0] == 0x2d;
    let start: usize = if signed {
        1
    } else {
        0
    };
    let ghost digits = if signed {
        t@.drop_first()
    } else {
        t@
    };
    proof {
        if signed {
            assert(digits =~= t@.subrange(1, t@.len() as int));
        }
        assert(digits =~= t@.subrange(start as int, t@.len() as int));
    }
    if t.len() == start {
        proof {
            assert(digits.len() == 0);
        }
        return None;
    }
    // `acc` tracks the value of the digits seen so far, saturated at 129:
    // any value above 128 is out of range for either sign.
    let mut acc: u32 = 0;
    let mut i: usize = start;
    while i < t.len()
        invariant
            start <= i <= t@.len(),
            start <= 1,
            t@.len() > start,
            signed == (t@[0] == 0x2b || t@[0] == 0x2d),
            start == if signed {
                1int
            } else {
                0int
            },
            neg == (t@[0] == 0x2d),
            digits == t@.subrange(start as int, t@.len() as int),
            all_digits(t@.subrange(start as int, i as int)),
            acc <= 129,
            acc <= 128 ==> acc == digits_val(t@.subrange(start as int, i as int)),
            acc == 129 ==> digits_val(t@.subrange(start as int, i as int)) > 128,
        decreases t.len() - i,
    {
        let ghost pre = t@.subrange(start as int, i as int);
        let ghost post = t@.subrange(start as int, i as int + 1);
        proof {
            assert(post.drop_last() =~= pre);
            assert(post.last() == t@[i as int]);
        }
        let b = t[i];
        if !(0x30 <= b && b <= 0x39) {
            proof {
                assert(digits[i - start] == t@[i as int]);
                assert(!all_digits(digits));
            }
            return None;
        }
        let d: u32 = (b - 0x30) as u32;
        proof {
            lemma_digits_val_nonneg(pre);
            assert(digits_val(post) == digits_val(pre) * 10 + (b - 0x30));
        }
        if acc <= 128 {
            let next: u32 = acc * 10 + d;
            acc = if next > 128 {
                129
            } else {
                next
            };
        } else {
            proof {
                // The digits so far already exceed 128; one more digit
                // keeps the value above 128.
                assert(digits_val(pre) * 10 >= digits_val(pre));
            }
        }
        i += 1;
    }
    proof {
        assert(t@.subrange(start as int, i as int) =~= digits);
    }
    if neg {
        if acc <= 128 {
            let v: i8 = if acc == 128 {
                -128
            } else {
                -((acc as u8) as i8)
            };
            Some(v)
        } else {
            None
        }
    } else {
        if acc <= 127 {
            Some(acc as u8 as i8)
        } else {
            None
        }
    }
}

} // verus!
