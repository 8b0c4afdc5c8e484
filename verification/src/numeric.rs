//! Exact decimal values for `N` and `F` fields.
//!
//! A numeric field holds an ASCII decimal: optional leading whitespace,
//! an optional sign, digits, and at most one decimal point. The decoder
//! keeps the value exact as `(-1)^negative * mantissa / 10^scale`
//! instead of rounding it to a machine float.

use vstd::prelude::*;
use crate::bytes::{
    is_digit,
    all_digits,
    digits_value,
    lemma_digits_value_nonneg,
    lemma_digits_value_prefix,
};
use crate::error::DbfError;
use crate::text::{is_ws_byte, drop_leading_ws};

verus! {

/// An exact decimal: `(-1)^negative * mantissa / 10^scale`.
#[derive(Clone, Copy, Debug, PartialEq, Eq, Structural)]
pub struct NumericValue {
    pub negative: bool,
    pub mantissa: u64,
    pub scale: usize,
}

/// The index of the first `.` of `u`, or `u.len()` if there is none.
pub open spec fn dot_index(u: Seq<u8>) -> int
    decreases u.len(),
{
    if u.len() == 0 {
        0
    } else if u[0] == 0x2e {
        0
    } else {
        1 + dot_index(u.drop_first())
    }
}

/// The bytes of `u` with the byte at its first `.` removed.
pub open spec fn numeric_digits(u: Seq<u8>) -> Seq<u8> {
    if dot_index(u) == u.len() {
        u
    } else {
        u.take(dot_index(u)) + u.skip(dot_index(u) + 1)
    }
}

/// The digit-and-point grammar of a numeric body: at least one digit,
/// and nothing besides digits and a single optional decimal point.
pub open spec fn numeric_shape(u: Seq<u8>) -> bool {
    &&& numeric_digits(u).len() >= 1
    &&& all_digits(numeric_digits(u))
}

/// How many places of `u` stand behind its decimal point.
pub open spec fn spec_scale(u: Seq<u8>) -> int {
    if dot_index(u) == u.len() {
        0
    } else {
        u.len() - 1 - dot_index(u)
    }
}

/// What a numeric field's bytes denote: `None` when they do not fit
/// the grammar (after dropping leading whitespace and one optional
/// sign) or when the digits exceed what a 64-bit mantissa can hold;
/// otherwise the sign, the mantissa and the scale.
pub open spec fn spec_parse_numeric(s: Seq<u8>) -> Option<(bool, int, int)> {
    let t = drop_leading_ws(s);
    let neg = t.len() > 0 && t[0] == 0x2d;
    let body = if t.len() > 0 && (t[0] == 0x2d || t[0] == 0x2b) {
        t.drop_first()
    } else {
        t
    };
    if numeric_shape(body) && digits_value(numeric_digits(body)) <= u64::MAX {
        Some((neg, digits_value(numeric_digits(body)), spec_scale(body)))
    } else {
        None
    }
}

proof fn lemma_dot_index_bounds(u: Seq<u8>)
    ensures
        0 <= dot_index(u) <= u.len(),
        dot_index(u) < u.len() ==> u[dot_index(u)] == 0x2e,
    decreases u.len(),
{
    if u.len() > 0 && u[0] != 0x2e {
        lemma_dot_index_bounds(u.drop_first());
    }
}

proof fn lemma_nd_index(body: Seq<u8>, p: int)
    requires
        0 <= p < body.len(),
        p != dot_index(body),
    ensures
        numeric_digits(body).len() == if dot_index(body) == body.len() {
            body.len() as int
        } else {
            body.len() - 1
        },
        p < dot_index(body) ==> numeric_digits(body)[p] == body[p],
        p > dot_index(body) ==> numeric_digits(body)[p - 1] == body[p],
{
    lemma_dot_index_bounds(body);
    let di = dot_index(body);
    if di < body.len() {
        let a = body.take(di);
        let b = body.skip(di + 1);
        assert(a.len() == di);
        assert(b.len() == body.len() - di - 1);
        if p < di {
            assert(numeric_digits(body)[p] == a[p]);
            assert(a[p] == body[p]);
        } else {
            assert(numeric_digits(body)[p - 1] == b[p - 1 - di]);
            assert(b[p - 1 - di] == body[p]);
        }
    }
}

proof fn lemma_dot_index_at(u: Seq<u8>, k: int)
    requires
        0 <= k <= u.len(),
        forall|i: int| 0 <= i < k ==> #[trigger] u[i] != 0x2e,
        k < u.len() ==> u[k] == 0x2e,
    ensures
        dot_index(u) == k,
    decreases u.len(),
{
    if u.len() > 0 && u[0] != 0x2e {
        lemma_dot_index_at(u.drop_first(), k - 1);
    }
}


/// The decimal digits of a nonnegative number, most significant
/// first.
pub open spec fn digits_of(n: int) -> Seq<u8>
    decreases n,
{
    if n < 10 {
        seq![(0x30 + if n >= 0 { n } else { 0 }) as u8]
    } else {
        digits_of(n / 10).push((0x30 + n % 10) as u8)
    }
}

proof fn lemma_digits_of(n: int)
    requires
        n >= 0,
    ensures
        digits_of(n).len() >= 1,
        all_digits(digits_of(n)),
        digits_value(digits_of(n)) == n,
        forall|i: int| 0 <= i < digits_of(n).len() ==> (#[trigger] digits_of(n)[i]) != 0x2e,
    decreases n,
{
    if n < 10 {
        let s = digits_of(n);
        assert(s.len() == 1);
        assert(s.drop_last() =~= Seq::<u8>::empty());
        assert(digits_value(s.drop_last()) == 0);
        assert(s.last() == (0x30 + n) as u8);
        assert(digits_value(s) == digits_value(s.drop_last()) * 10 + (s.last() - 0x30));
        assert(digits_value(s) == n);
    } else {
        lemma_digits_of(n / 10);
        let p = digits_of(n / 10);
        let s = digits_of(n);
        assert(s == p.push((0x30 + n % 10) as u8));
        assert(s.drop_last() =~= p);
        assert(s.last() == (0x30 + n % 10) as u8);
        assert(digits_value(s) == digits_value(p) * 10 + n % 10);
        assert(n == n / 10 * 10 + n % 10);
        assert forall|i: int| 0 <= i < s.len() implies crate::bytes::is_digit(#[trigger] s[i])
            && s[i] != 0x2e by {
            if i < p.len() {
                assert(s[i] == p[i]);
            }
        }
    }
}

/// The ASCII image of an integer numeric value: a minus sign for the
/// negative ones, then the decimal digits.
pub open spec fn numeric_field_bytes(neg: bool, mant: int) -> Seq<u8> {
    if neg {
        seq![0x2du8] + digits_of(mant)
    } else {
        digits_of(mant)
    }
}

/// An integer numeric value survives the round trip: its decimal
/// image, laid into an `N` field, parses back to the same sign and
/// mantissa at scale zero.
pub proof fn lemma_numeric_round_trip_integer(neg: bool, mant: int)
    requires
        0 <= mant <= u64::MAX,
    ensures
        spec_parse_numeric(numeric_field_bytes(neg, mant)) == Some((neg, mant, 0int)),
{
    lemma_digits_of(mant);
    let s = numeric_field_bytes(neg, mant);
    let body = digits_of(mant);
    assert(s.len() >= 1);
    assert(s.first() == (if neg {
        0x2du8
    } else {
        body[0]
    }));
    assert(!is_ws_byte(s.first()));
    assert(drop_leading_ws(s) == s);
    if neg {
        assert(s[0] == 0x2d);
        assert(s.drop_first() =~= body);
    } else {
        assert(s[0] != 0x2d && s[0] != 0x2b);
    }
    lemma_dot_index_at(body, body.len() as int);
    assert(numeric_digits(body) == body);
    assert(numeric_shape(body));
    assert(spec_scale(body) == 0);
}

/// Scans a numeric body (what stands after the sign): checks the
/// digit-and-point grammar and accumulates the mantissa and scale.
#[verifier::loop_isolation(false)]
#[verifier::rlimit(30)]
fn parse_body(u: &[u8]) -> (r: Result<(u64, usize), DbfError>)
    ensures
        match r {
            Ok((m, sc)) => numeric_shape(u@) && m == digits_value(numeric_digits(u@)) && sc
                == spec_scale(u@),
            Err(e) => e == DbfError::InvalidData && !(numeric_shape(u@) && digits_value(
                numeric_digits(u@),
            ) <= u64::MAX),
        },
{
    let len = u.len();
    let mut j: usize = 0;
    let mut dot_at: usize = len;
    let mut seen_dot = false;
    let mut digit_count: usize = 0;
    while j < len
        invariant
            j <= len,
            seen_dot ==> dot_at < j && u@[dot_at as int] == 0x2e,
            !seen_dot ==> dot_at == len,
            forall|p: int| 0 <= p < j && p != dot_at ==> is_digit(#[trigger] u@[p]),
            digit_count == if seen_dot {
                j - 1
            } else {
                j as int
            },
        decreases len - j,
    {
        let b = u[j];
        if 0x30 <= b && b <= 0x39 {
            digit_count = digit_count + 1;
        } else if b == 0x2e {
            if seen_dot {
                // A second decimal point: the grammar is not met.
                proof {
                    lemma_dot_index_at(u@, dot_at as int);
                    lemma_nd_index(u@, j as int);
                    assert(!is_digit(numeric_digits(u@)[j - 1]));
                }
                return Err(DbfError::InvalidData);
            }
            seen_dot = true;
            dot_at = j;
        } else {
            // Not a digit and not a point: the grammar is not met.
            proof {
                if numeric_shape(u@) {
                    let di = dot_index(u@);
                    lemma_dot_index_bounds(u@);
                    if j as int == di {
                        assert(u@[di] == 0x2e);
                    } else {
                        lemma_nd_index(u@, j as int);
                        if (j as int) < di {
                            assert(!is_digit(numeric_digits(u@)[j as int]));
                        } else {
                            assert(!is_digit(numeric_digits(u@)[j - 1]));
                        }
                    }
                }
            }
            return Err(DbfError::InvalidData);
        }
        j = j + 1;
    }
    proof {
        lemma_dot_index_at(u@, dot_at as int);
    }
    if digit_count == 0 {
        proof {
            assert(numeric_digits(u@).len() == 0);
        }
        return Err(DbfError::InvalidData);
    }
    let ghost nd = numeric_digits(u@);
    proof {
        let di = dot_index(u@);
        assert forall|p: int| 0 <= p < nd.len() implies is_digit(#[trigger] nd[p]) by {
            if di == u@.len() {
                assert(nd[p] == u@[p]);
            } else if p < di {
                lemma_nd_index(u@, p);
            } else {
                lemma_nd_index(u@, p + 1);
            }
        }
        assert(numeric_shape(u@));
    }
    // Second pass: the mantissa, watching for 64-bit overflow.
    let mut acc: u64 = 0;
    let mut k: usize = 0;
    while k < len
        invariant
            k <= len,
            acc == digits_value(
                nd.take(
                    if k > dot_at {
                        k - 1
                    } else {
                        k as int
                    },
                ),
            ),
        decreases len - k,
    {
        let b = u[k];
        if b != 0x2e {
            let ghost m: int = if k > dot_at {
                k - 1
            } else {
                k as int
            };
            proof {
                if seen_dot {
                    assert(k != dot_at);
                }
                lemma_nd_index(u@, k as int);
                assert(nd[m] == b);
                assert(nd.take(m + 1).drop_last() =~= nd.take(m));
                assert(digits_value(nd.take(m + 1)) == acc * 10 + (b - 0x30));
            }
            if acc > (u64::MAX - ((b - 0x30) as u64)) / 10 {
                // The digits exceed a 64-bit mantissa.
                proof {
                    lemma_digits_value_nonneg(nd.take(m + 1));
                    lemma_digits_value_prefix(nd, m + 1);
                    assert(digits_value(nd) > u64::MAX);
                }
                return Err(DbfError::InvalidData);
            }
            acc = acc * 10 + (b - 0x30) as u64;
        }
        k = k + 1;
    }
    proof {
        let m: int = if len > dot_at {
            len - 1
        } else {
            len as int
        };
        assert(nd.take(m) =~= nd);
    }
    let scale: usize = if seen_dot {
        len - 1 - dot_at
    } else {
        0
    };
    Ok((acc, scale))
}

/// Parses a numeric field's bytes into an exact decimal, or reports
/// `InvalidData` exactly when the bytes do not denote one. The
/// mantissa is held exactly in 64 bits: a numeric whose digits exceed
/// that reports `InvalidData` rather than rounding, a deliberate
/// limit of the exact representation.
#[verifier::loop_isolation(false)]
pub fn parse_numeric(data: &[u8]) -> (r: Result<NumericValue, DbfError>)
    ensures
        match r {
            Ok(v) => spec_parse_numeric(data@) == Some(
                (v.negative, v.mantissa as int, v.scale as int),
            ),
            Err(e) => e == DbfError::InvalidData && spec_parse_numeric(data@) is None,
        },
{
    let ghost whole = data@;
    let len = data.len();
    // Leading whitespace.
    let mut b0: usize = 0;
    proof {
        assert(whole.subrange(0, len as int) =~= whole);
    }
    while b0 < len && (data[b0] == 0x20 || (0x09 <= data[b0] && data[b0] <= 0x0d))
        invariant
            b0 <= len,
            drop_leading_ws(whole) == drop_leading_ws(whole.subrange(b0 as int, len as int)),
        decreases len - b0,
    {
        proof {
            assert(whole.subrange(b0 as int, len as int).drop_first() =~= whole.subrange(
                b0 + 1,
                len as int,
            ));
        }
        b0 = b0 + 1;
    }
    proof {
        assert(drop_leading_ws(whole.subrange(b0 as int, len as int)) == whole.subrange(
            b0 as int,
            len as int,
        ));
    }
    // Optional sign.
    let mut negative = false;
    if b0 < len && (data[b0] == 0x2d || data[b0] == 0x2b) {
        negative = data[b0] == 0x2d;
        b0 = b0 + 1;
        proof {
            assert(drop_leading_ws(whole).drop_first() =~= whole.subrange(b0 as int, len as int));
        }
    }
    let body = vstd::slice::slice_subrange(data, b0, len);
    proof {
        let t = drop_leading_ws(whole);
        assert(body@ == if t.len() > 0 && (t[0] == 0x2d || t[0] == 0x2b) {
            t.drop_first()
        } else {
            t
        });
        assert(negative == (t.len() > 0 && t[0] == 0x2d));
    }
    match parse_body(body) {
        Ok((mantissa, scale)) => Ok(NumericValue { negative, mantissa, scale }),
        Err(e) => Err(e),
    }
}

} // verus!
