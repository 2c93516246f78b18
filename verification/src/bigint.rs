//! Arbitrary-precision signed integers, kept in their canonical decimal
//! text form and parsed and rendered through `num_bigint`.
use crate::text::dec_rep;
use crate::text::dec_value;
use crate::text::is_canonical_decimal;
use crate::text::is_decimal_text;
use crate::text::is_digit;
use crate::text::le_signed;
use crate::text::lemma_dec_rep_canonical;
use crate::text::lemma_dec_round_trip;
use crate::ValueError;
use std::str::FromStr;
use vstd::prelude::*;

verus! {

/// An arbitrary-precision signed integer. Its canonical text form is plain
/// decimal with no leading zeros other than `0` itself and a `-` sign
/// exactly when the value is negative; the mathematical value is
/// `self.model()`.
#[derive(Debug, PartialEq, Eq)]
pub struct BigInt {
    rep: String,
}

impl Clone for BigInt {
    fn clone(&self) -> (r: Self)
        ensures
            r == *self,
    {
        proof {
            use_type_invariant(self);
        }
        BigInt { rep: self.rep.clone() }
    }
}

/// Relies on `num_bigint::BigInt::from_str` (plain decimal parsing, which
/// accepts every text of the shape required here) and on its `Display`
/// rendering, which yields the canonical decimal form of the parsed value.
#[verifier::external_body]
fn canonical_decimal(s: &str) -> (r: String)
    requires
        is_decimal_text(s@),
    ensures
        r@ == dec_rep(dec_value(s@)),
{
    num_bigint::BigInt::from_str(s).unwrap().to_string()
}

/// Relies on `num_bigint::BigInt::from_signed_bytes_le`, which reads a
/// two's-complement little-endian byte sequence (the empty sequence denotes
/// zero), and on its `Display` rendering, which yields the canonical decimal
/// form of that value.
#[verifier::external_body]
fn signed_le_decimal(bytes: &[u8]) -> (r: String)
    ensures
        r@ == dec_rep(le_signed(bytes@)),
{
    num_bigint::BigInt::from_signed_bytes_le(bytes).to_string()
}

/// Decides whether `s` is decimal integer text: an optional leading `-`,
/// then at least one digit and nothing else.
pub fn is_decimal_str(s: &str) -> (r: bool)
    ensures
        r == is_decimal_text(s@),
{
    let n = s.unicode_len();
    if n == 0 {
        return false;
    }
    let neg = s.get_char(0) == '-';
    if neg && n == 1 {
        return false;
    }
    let start: usize = if neg {
        1
    } else {
        0
    };
    let mut i: usize = start;
    while i < n
        invariant
            start <= i <= n,
            n == s@.len(),
            n >= 1,
            neg == (s@[0] == '-'),
            start == (if neg {
                1int
            } else {
                0int
            }),
            neg ==> n >= 2,
            forall|j: int| start <= j < i ==> is_digit(#[trigger] s@[j]),
        decreases n - i,
    {
        let c = s.get_char(i);
        if (c as u32) < 48 || (c as u32) > 57 {
            proof {
                if neg {
                    assert(s@.skip(1)[i - 1] == s@[i as int]);
                }
            }
            return false;
        }
        i += 1;
    }
    proof {
        if neg {
            assert forall|j: int| 0 <= j < s@.skip(1).len() implies is_digit(
                #[trigger] s@.skip(1)[j],
            ) by {
                assert(s@.skip(1)[j] == s@[j + 1]);
            }
        }
    }
    true
}

impl BigInt {
    /// The mathematical value of this integer.
    pub closed spec fn model(&self) -> int {
        dec_value(self.rep@)
    }

    /// The representation is always the canonical decimal rendering of the
    /// value it denotes.
    #[verifier::type_invariant]
    closed spec fn inv(&self) -> bool {
        is_canonical_decimal(self.rep@)
    }

    /// Parses decimal text: an optional leading `-`, then digits only.
    /// Every other text is rejected as an invalid number.
    pub fn from_str(s: &str) -> (r: Result<BigInt, ValueError>)
        ensures
            match r {
                Ok(b) => is_decimal_text(s@) && b.model() == dec_value(s@),
                Err(e) => !is_decimal_text(s@) && e == ValueError::InvalidNumber,
            },
    {
        if is_decimal_str(s) {
            let rep = canonical_decimal(s);
            proof {
                lemma_dec_rep_canonical(dec_value(s@));
                lemma_dec_round_trip(dec_value(s@));
            }
            Ok(BigInt { rep })
        } else {
            Err(ValueError::InvalidNumber)
        }
    }

    /// Constructs the integer denoted by a two's-complement little-endian
    /// byte sequence; the empty sequence denotes zero.
    pub fn from_signed_bytes_le(bytes: &[u8]) -> (r: BigInt)
        ensures
            r.model() == le_signed(bytes@),
    {
        let rep = signed_le_decimal(bytes);
        proof {
            lemma_dec_rep_canonical(le_signed(bytes@));
            lemma_dec_round_trip(le_signed(bytes@));
        }
        BigInt { rep }
    }

    /// The canonical decimal rendering of the value: no leading zeros, a
    /// `-` sign exactly when the value is negative.
    pub fn to_text(&self) -> (r: String)
        ensures
            r@ == dec_rep(self.model()),
    {
        proof {
            use_type_invariant(self);
        }
        self.rep.clone()
    }
}

} // verus!
