//! Byte-level primitives: little- and big-endian integer reads and
//! ASCII digit arithmetic, stated over plain arithmetic on the bytes.

use vstd::prelude::*;

verus! {

/// The value of two bytes read as a little-endian unsigned 16-bit integer.
pub open spec fn le16(b0: u8, b1: u8) -> int {
    b0 + 0x100 * b1
}

/// The value of four bytes read as a little-endian unsigned 32-bit integer.
pub open spec fn le32(b0: u8, b1: u8, b2: u8, b3: u8) -> int {
    b0 + 0x100 * b1 + 0x10000 * b2 + 0x1000000 * b3
}

/// The value of four bytes read as a big-endian unsigned 32-bit integer.
pub open spec fn be32(b0: u8, b1: u8, b2: u8, b3: u8) -> int {
    b3 + 0x100 * b2 + 0x10000 * b1 + 0x1000000 * b0
}

/// The value of four little-endian bytes read as a signed (two's
/// complement) 32-bit integer.
pub open spec fn le32_signed(b0: u8, b1: u8, b2: u8, b3: u8) -> int {
    if le32(b0, b1, b2, b3) < 0x80000000 {
        le32(b0, b1, b2, b3)
    } else {
        le32(b0, b1, b2, b3) - 0x100000000
    }
}

pub fn read_u16_le(data: &[u8], off: usize) -> (r: u16)
    requires
        off + 2 <= data@.len(),
    ensures
        r == le16(data@[off as int], data@[off + 1]),
{
    let b0 = data[off] as u16;
    let b1 = data[off + 1] as u16;
    b0 + 0x100 * b1
}

pub fn read_u32_le(data: &[u8], off: usize) -> (r: u32)
    requires
        off + 4 <= data@.len(),
    ensures
        r == le32(data@[off as int], data@[off + 1], data@[off + 2], data@[off + 3]),
{
    let b0 = data[off] as u32;
    let b1 = data[off + 1] as u32;
    let b2 = data[off + 2] as u32;
    let b3 = data[off + 3] as u32;
    b0 + 0x100 * b1 + 0x10000 * b2 + 0x1000000 * b3
}

pub fn read_u32_be(data: &[u8], off: usize) -> (r: u32)
    requires
        off + 4 <= data@.len(),
    ensures
        r == be32(data@[off as int], data@[off + 1], data@[off + 2], data@[off + 3]),
{
    let b0 = data[off] as u32;
    let b1 = data[off + 1] as u32;
    let b2 = data[off + 2] as u32;
    let b3 = data[off + 3] as u32;
    b3 + 0x100 * b2 + 0x10000 * b1 + 0x1000000 * b0
}

pub fn read_i32_le(data: &[u8], off: usize) -> (r: i32)
    requires
        off + 4 <= data@.len(),
    ensures
        r == le32_signed(data@[off as int], data@[off + 1], data@[off + 2], data@[off + 3]),
{
    let u = read_u32_le(data, off);
    if u < 0x80000000 {
        u as i32
    } else {
        ((u as i64) - 0x100000000) as i32
    }
}

/// True of the ASCII codes of the decimal digits.
pub open spec fn is_digit(b: u8) -> bool {
    0x30 <= b <= 0x39
}

/// The numeric value of a sequence of ASCII decimal digits, most
/// significant first.
pub open spec fn digits_value(s: Seq<u8>) -> int
    decreases s.len(),
{
    if s.len() == 0 {
        0
    } else {
        digits_value(s.drop_last()) * 10 + (s.last() - 0x30)
    }
}

/// True when every byte of `s` is an ASCII decimal digit.
pub open spec fn all_digits(s: Seq<u8>) -> bool {
    forall|i: int| 0 <= i < s.len() ==> is_digit(#[trigger] s[i])
}

/// The value of a digit run is never negative.
pub proof fn lemma_digits_value_nonneg(s: Seq<u8>)
    requires
        all_digits(s),
    ensures
        digits_value(s) >= 0,
    decreases s.len(),
{
    if s.len() > 0 {
        assert(all_digits(s.drop_last()));
        lemma_digits_value_nonneg(s.drop_last());
    }
}

/// Extending a digit run never shrinks its value.
pub proof fn lemma_digits_value_prefix(s: Seq<u8>, m: int)
    requires
        all_digits(s),
        0 <= m <= s.len(),
    ensures
        digits_value(s) >= digits_value(s.take(m)),
    decreases s.len(),
{
    if m < s.len() {
        assert(all_digits(s.drop_last()));
        lemma_digits_value_prefix(s.drop_last(), m);
        assert(s.drop_last().take(m) =~= s.take(m));
        lemma_digits_value_nonneg(s.drop_last());
        assert(digits_value(s) == digits_value(s.drop_last()) * 10 + (s.last() - 0x30));
    } else {
        assert(s.take(m) =~= s);
    }
}

proof fn lemma_digits_value_bound(s: Seq<u8>)
    requires
        all_digits(s),
    ensures
        0 <= digits_value(s) < pow10(s.len() as nat),
    decreases s.len(),
{
    if s.len() > 0 {
        assert(all_digits(s.drop_last())) by {
            assert(forall|i: int|
                0 <= i < s.drop_last().len() ==> s.drop_last()[i] == #[trigger] s[i]);
        }
        lemma_digits_value_bound(s.drop_last());
        assert(pow10(s.len() as nat) == 10 * pow10((s.len() - 1) as nat));
    }
}

/// Ten to the power `n`.
pub open spec fn pow10(n: nat) -> int
    decreases n,
{
    if n == 0 {
        1
    } else {
        10 * pow10((n - 1) as nat)
    }
}

/// Reads the decimal value of `data[from..to]`, a run of ASCII digits.
/// The run must be short enough that the value fits in a `u32`.
pub fn read_digits(data: &[u8], from: usize, to: usize) -> (r: Option<u32>)
    requires
        from <= to <= data@.len(),
        to - from <= 9,
    ensures
        match r {
            Some(v) => all_digits(data@.subrange(from as int, to as int)) && v == digits_value(
                data@.subrange(from as int, to as int),
            ) && v < pow10((to - from) as nat),
            None => !all_digits(data@.subrange(from as int, to as int)),
        },
{
    let mut i = from;
    let mut acc: u32 = 0;
    proof {
        lemma_digits_value_bound(data@.subrange(from as int, from as int));
    }
    while i < to
        invariant
            from <= i <= to <= data@.len(),
            to - from <= 9,
            all_digits(data@.subrange(from as int, i as int)),
            acc == digits_value(data@.subrange(from as int, i as int)),
            acc < pow10((i - from) as nat),
        decreases to - i,
    {
        let b = data[i];
        if b < 0x30 || b > 0x39 {
            proof {
                assert(data@.subrange(from as int, to as int)[i - from] == b);
            }
            return None;
        }
        proof {
            assert(pow10((i - from) as nat) <= pow10(8)) by {
                lemma_pow10_increases((i - from) as nat, 8);
            }
            assert(pow10(8) == 100000000) by {
                assert(pow10(0) == 1);
                assert(pow10(1) == 10);
                assert(pow10(2) == 100);
                assert(pow10(3) == 1000);
                assert(pow10(4) == 10000);
                assert(pow10(5) == 100000);
                assert(pow10(6) == 1000000);
                assert(pow10(7) == 10000000);
            }
        }
        acc = acc * 10 + (b - 0x30) as u32;
        proof {
            let pre = data@.subrange(from as int, i as int);
            let post = data@.subrange(from as int, i + 1);
            assert(post.drop_last() =~= pre);
            assert(post.last() == b);
            assert(forall|j: int| 0 <= j < post.len() ==> is_digit(#[trigger] post[j]));
            assert(pow10((i + 1 - from) as nat) == 10 * pow10((i - from) as nat));
        }
        i = i + 1;
    }
    proof {
        assert(data@.subrange(from as int, to as int) =~= data@.subrange(from as int, i as int));
    }
    Some(acc)
}

proof fn lemma_pow10_increases(m: nat, n: nat)
    requires
        m <= n,
    ensures
        pow10(m) <= pow10(n),
        pow10(m) >= 1,
    decreases n,
{
    if n > 0 {
        if m <= n - 1 {
            lemma_pow10_increases(m, (n - 1) as nat);
        } else {
            lemma_pow10_increases((m - 1) as nat, (n - 1) as nat);
        }
    }
}

} // verus!
