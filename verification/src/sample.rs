//! Sample payloads and their parsing.
//!
//! A sample arrives as the ASCII text of a signed 32-bit integer: an optional
//! `+` or `-` sign followed by at least one decimal digit. Anything else is
//! malformed and must leave the aggregate untouched, so the parser's contract
//! says exactly which payloads are accepted and what value they carry.

use vstd::prelude::*;

verus! {

pub open spec fn is_ascii_digit(b: u8) -> bool {
    48 <= b && b <= 57
}

pub open spec fn all_digits(s: Seq<u8>) -> bool {
    forall|i: int| 0 <= i < s.len() ==> is_ascii_digit(#[trigger] s[i])
}

/// The number written by a string of decimal digits, most significant first.
pub open spec fn digits_value(s: Seq<u8>) -> int
    decreases s.len(),
{
    if s.len() == 0 {
        0
    } else {
        digits_value(s.drop_last()) * 10 + (s.last() - 48)
    }
}

pub open spec fn has_sign(s: Seq<u8>) -> bool {
    s.len() > 0 && (s[0] == 43 || s[0] == 45)
}

/// The payload with its sign, if any, stripped.
pub open spec fn digits_part(s: Seq<u8>) -> Seq<u8> {
    if has_sign(s) {
        s.subrange(1, s.len() as int)
    } else {
        s
    }
}

pub open spec fn is_negative_text(s: Seq<u8>) -> bool {
    s.len() > 0 && s[0] == 45
}

/// The integer a payload denotes (meaningful when the payload is well formed).
pub open spec fn text_value(s: Seq<u8>) -> int {
    if is_negative_text(s) {
        -digits_value(digits_part(s))
    } else {
        digits_value(digits_part(s))
    }
}

/// A well-formed sample payload: an optional sign, then one or more decimal
/// digits, denoting a value that fits in an `i32`.
pub open spec fn is_i32_text(s: Seq<u8>) -> bool {
    &&& digits_part(s).len() > 0
    &&& all_digits(digits_part(s))
    &&& i32::MIN <= text_value(s) <= i32::MAX
}

pub proof fn lemma_digits_value_nonneg(s: Seq<u8>)
    requires
        all_digits(s),
    ensures
        digits_value(s) >= 0,
    decreases s.len(),
{
    if s.len() > 0 {
        assert forall|i: int| 0 <= i < s.drop_last().len() implies is_ascii_digit(
            #[trigger] s.drop_last()[i],
        ) by {
            assert(s.drop_last()[i] == s[i]);
        }
        lemma_digits_value_nonneg(s.drop_last());
        assert(is_ascii_digit(s[s.len() - 1]));
    }
}

/// Reading more digits never shrinks the number already read: the value of a
/// prefix is at most the value of the whole digit string.
pub proof fn lemma_digits_value_prefix_le(s: Seq<u8>, i: int)
    requires
        all_digits(s),
        0 <= i <= s.len(),
    ensures
        digits_value(s.subrange(0, i)) <= digits_value(s),
    decreases s.len() - i,
{
    if i == s.len() {
        assert(s.subrange(0, i) =~= s);
    } else {
        lemma_digits_value_prefix_le(s, i + 1);
        let p = s.subrange(0, i);
        let q = s.subrange(0, i + 1);
        assert(q.drop_last() =~= p);
        assert(q.last() == s[i]);
        assert forall|j: int| 0 <= j < p.len() implies is_ascii_digit(#[trigger] p[j]) by {
            assert(p[j] == s[j]);
        }
        lemma_digits_value_nonneg(p);
        assert(is_ascii_digit(s[i]));
        assert(digits_value(q) == digits_value(p) * 10 + (s[i] - 48));
    }
}

/// Parses a sample payload. Returns the value exactly when the payload is the
/// ASCII text of an integer that fits in an `i32`; every other payload is
/// rejected.
pub fn parse_sample(payload: &[u8]) -> (r: Option<i32>)
    ensures
        r is Some <==> is_i32_text(payload@),
        r is Some ==> r->0 as int == text_value(payload@),
{
    let n: usize = payload.len();
    if n == 0 {
        return None;
    }
    let first: u8 = payload[0];
    let neg: bool = first == 45;
    let start: usize = if first == 43 || first == 45 {
        1
    } else {
        0
    };
    let ghost dp = digits_part(payload@);
    proof {
        assert(dp =~= payload@.subrange(start as int, n as int));
    }
    if start == n {
        // a bare sign (or nothing after it): the digits part is empty
        return None;
    }
    let mut acc: u64 = 0;
    let mut i: usize = start;
    while i < n
        invariant
            start <= i <= n,
            start < n,
            n == payload@.len(),
            dp == digits_part(payload@),
            dp =~= payload@.subrange(start as int, n as int),
            neg == is_negative_text(payload@),
            all_digits(dp.subrange(0, i - start)),
            acc == digits_value(dp.subrange(0, i - start)),
            acc <= 0x8000_0000,
        decreases n - i,
    {
        let b: u8 = payload[i];
        let ghost k = i - start;
        proof {
            assert(dp[k] == payload@[i as int]);
        }
        if b < 48 || b > 57 {
            proof {
                assert(!is_ascii_digit(dp[k]));
            }
            return None;
        }
        let next: u64 = acc * 10 + (b - 48) as u64;
        proof {
            assert(dp.subrange(0, k + 1).drop_last() =~= dp.subrange(0, k));
            assert(dp.subrange(0, k + 1).last() == dp[k]);
            assert(digits_value(dp.subrange(0, k + 1)) == acc * 10 + (b - 48));
        }
        if next > 0x8000_0000 {
            proof {
                if all_digits(dp) {
                    lemma_digits_value_prefix_le(dp, k + 1);
                }
            }
            return None;
        }
        acc = next;
        proof {
            assert forall|j: int| 0 <= j < k + 1 implies is_ascii_digit(
                #[trigger] dp.subrange(0, k + 1)[j],
            ) by {
                if j < k {
                    assert(dp.subrange(0, k + 1)[j] == dp.subrange(0, k)[j]);
                } else {
                    assert(dp.subrange(0, k + 1)[j] == dp[k]);
                }
            }
        }
        i = i + 1;
    }
    proof {
        assert(dp.subrange(0, n - start) =~= dp);
    }
    if neg {
        let v: i64 = -(acc as i64);
        Some(v as i32)
    } else {
        if acc > 0x7fff_ffff {
            return None;
        }
        Some(acc as i32)
    }
}

} // verus!
