//! ASCII trimming and UTF-8 decoding of field bytes.
//!
//! Field values and field names arrive as fixed-width byte runs padded
//! with spaces or NUL bytes. Trimming drops the padding; decoding turns
//! the remaining bytes into a string exactly when they are valid UTF-8.

use vstd::prelude::*;
use vstd::slice::slice_subrange;
use vstd::utf8::{valid_utf8, decode_utf8, encode_utf8, encode_scalar, char_is_scalar};
use vstd::string::StringSliceAdditionalSpecFns;

verus! {

/// True of the ASCII whitespace bytes (space, tab, line feed, vertical
/// tab, form feed, carriage return).
pub open spec fn is_ws_byte(b: u8) -> bool {
    b == 0x20 || (0x09 <= b <= 0x0d)
}

/// `s` with every trailing NUL byte removed.
pub open spec fn drop_trailing_nuls(s: Seq<u8>) -> Seq<u8>
    decreases s.len(),
{
    if s.len() > 0 && s.last() == 0 {
        drop_trailing_nuls(s.drop_last())
    } else {
        s
    }
}

/// `s` with every trailing whitespace byte removed.
pub open spec fn drop_trailing_ws(s: Seq<u8>) -> Seq<u8>
    decreases s.len(),
{
    if s.len() > 0 && is_ws_byte(s.last()) {
        drop_trailing_ws(s.drop_last())
    } else {
        s
    }
}

/// `s` with every leading whitespace byte removed.
pub open spec fn drop_leading_ws(s: Seq<u8>) -> Seq<u8>
    decreases s.len(),
{
    if s.len() > 0 && is_ws_byte(s.first()) {
        drop_leading_ws(s.drop_first())
    } else {
        s
    }
}

/// The ASCII trim of a field's bytes: trailing NUL bytes go first, then
/// the surrounding whitespace.
pub open spec fn trim_bytes(s: Seq<u8>) -> Seq<u8> {
    drop_leading_ws(drop_trailing_ws(drop_trailing_nuls(s)))
}

/// Trims a byte run as [`trim_bytes`] describes.
pub fn trim_slice(data: &[u8]) -> (r: &[u8])
    ensures
        r@ == trim_bytes(data@),
{
    let mut j: usize = data.len();
    proof {
        assert(data@.subrange(0, j as int) =~= data@);
    }
    while j > 0 && data[j - 1] == 0
        invariant
            j <= data@.len(),
            drop_trailing_nuls(data@) == drop_trailing_nuls(data@.subrange(0, j as int)),
        decreases j,
    {
        proof {
            assert(data@.subrange(0, j as int).drop_last() =~= data@.subrange(0, j - 1));
        }
        j = j - 1;
    }
    proof {
        assert(drop_trailing_nuls(data@.subrange(0, j as int)) == data@.subrange(0, j as int));
    }
    while j > 0 && (data[j - 1] == 0x20 || (0x09 <= data[j - 1] && data[j - 1] <= 0x0d))
        invariant
            j <= data@.len(),
            drop_trailing_ws(drop_trailing_nuls(data@)) == drop_trailing_ws(
                data@.subrange(0, j as int),
            ),
        decreases j,
    {
        proof {
            assert(data@.subrange(0, j as int).drop_last() =~= data@.subrange(0, j - 1));
        }
        j = j - 1;
    }
    proof {
        assert(drop_trailing_ws(data@.subrange(0, j as int)) == data@.subrange(0, j as int));
    }
    let mut i: usize = 0;
    while i < j && (data[i] == 0x20 || (0x09 <= data[i] && data[i] <= 0x0d))
        invariant
            i <= j <= data@.len(),
            drop_leading_ws(drop_trailing_ws(drop_trailing_nuls(data@))) == drop_leading_ws(
                data@.subrange(i as int, j as int),
            ),
        decreases j - i,
    {
        proof {
            assert(data@.subrange(i as int, j as int).drop_first() =~= data@.subrange(
                i + 1,
                j as int,
            ));
        }
        i = i + 1;
    }
    proof {
        assert(drop_leading_ws(data@.subrange(i as int, j as int)) == data@.subrange(
            i as int,
            j as int,
        ));
    }
    slice_subrange(data, i, j)
}

/// Relies on `String::from_utf8`: it returns the decoded string exactly
/// when the bytes are a valid UTF-8 encoding, and rejects them
/// otherwise. `valid_utf8` and `decode_utf8` are vstd's model of the
/// encoding that the standard library documents.
#[verifier::external_body]
pub fn string_from_utf8(b: Vec<u8>) -> (r: Option<String>)
    ensures
        r is Some <==> valid_utf8(b@),
        r matches Some(s) ==> s@ == decode_utf8(b@) && encode_utf8(s@) == b@,
{
    match String::from_utf8(b) {
        Ok(s) => Some(s),
        Err(_) => None,
    }
}

/// True of the characters whose one-byte encodings [`is_ws_byte`]
/// accepts.
pub open spec fn is_ws_char(c: char) -> bool {
    c as u32 == 0x20 || (0x09 <= c as u32 <= 0x0d)
}

/// A clean text value: no leading or trailing whitespace and no NUL
/// character anywhere.
pub open spec fn clean_text(cs: Seq<char>) -> bool {
    &&& cs.len() > 0 ==> !is_ws_char(cs.first()) && !is_ws_char(cs.last())
    &&& forall|i: int| 0 <= i < cs.len() ==> (#[trigger] cs[i]) as u32 != 0
}

proof fn lemma_encode_scalar_shape(c: char)
    ensures
        encode_scalar(c as u32).len() > 0,
        (c as u32) < 0x80 ==> (encode_scalar(c as u32) =~= seq![(c as u32) as u8]),
        (c as u32) >= 0x80 ==> encode_scalar(c as u32).first() >= 0x80 && encode_scalar(
            c as u32,
        ).last() >= 0x80,
{
    char_is_scalar(c);
    let v = c as u32;
    if v < 0x80 {
        assert((v & 0x7F) as u8 == v) by (bit_vector)
            requires
                v < 0x80,
        ;
    } else {
        assert((0xC0u8 | ((v >> 6) & 0x1F) as u8) >= 0x80 && (0xE0u8 | ((v >> 12) & 0x0F) as u8)
            >= 0x80 && (0xF0u8 | ((v >> 18) & 0x7) as u8) >= 0x80 && (0x80u8 | (v & 0x3F) as u8)
            >= 0x80) by (bit_vector);
    }
}

proof fn lemma_encode_last_byte(cs: Seq<u8>, chars: Seq<char>)
    requires
        chars.len() > 0,
        cs == encode_utf8(chars),
    ensures
        cs.len() > 0,
        (chars.last() as u32) < 0x80 ==> cs.last() == (chars.last() as u32) as u8,
        (chars.last() as u32) >= 0x80 ==> cs.last() >= 0x80,
    decreases chars.len(),
{
    lemma_encode_scalar_shape(chars[0]);
    if chars.len() == 1 {
        assert(chars.last() == chars[0]);
        assert(encode_utf8(chars.drop_first()) =~= Seq::<u8>::empty());
        assert(cs =~= encode_scalar(chars[0] as u32));
    } else {
        let rest = chars.drop_first();
        lemma_encode_last_byte(encode_utf8(rest), rest);
        assert(rest.last() == chars.last());
        assert(cs.last() == encode_utf8(rest).last());
    }
}

proof fn lemma_encode_no_nul(cs: Seq<u8>, chars: Seq<char>)
    requires
        cs == encode_utf8(chars),
        forall|i: int| 0 <= i < cs.len() ==> (#[trigger] cs[i]) != 0,
    ensures
        forall|i: int| 0 <= i < chars.len() ==> (#[trigger] chars[i]) as u32 != 0,
    decreases chars.len(),
{
    if chars.len() > 0 {
        lemma_encode_scalar_shape(chars[0]);
        let head = encode_scalar(chars[0] as u32);
        let rest = chars.drop_first();
        let rest_bytes = encode_utf8(rest);
        assert(cs == head + rest_bytes);
        assert(cs.first() == head.first());
        if chars[0] as u32 == 0 {
            assert(head =~= seq![0u8]);
            assert(cs[0] == 0);
        }
        assert forall|i: int| 0 <= i < rest_bytes.len() implies (#[trigger] rest_bytes[i]) != 0 by {
            assert(rest_bytes[i] == cs[head.len() + i]);
        }
        lemma_encode_no_nul(rest_bytes, rest);
        assert forall|i: int| 0 <= i < chars.len() implies (#[trigger] chars[i]) as u32 != 0 by {
            if i == 0 {
                assert(chars[0] as u32 != 0);
            } else {
                assert(chars[i] == rest[i - 1]);
            }
        }
    }
}

/// Every decoded text value is clean, provided the trimmed bytes hold
/// no NUL: the trim leaves no whitespace at either end, and decoding
/// cannot introduce any.
pub proof fn lemma_text_clean(b: Seq<u8>, cs: Seq<char>)
    requires
        valid_utf8(trim_bytes(b)),
        cs == decode_utf8(trim_bytes(b)),
        forall|i: int| 0 <= i < trim_bytes(b).len() ==> (#[trigger] trim_bytes(b)[i]) != 0,
    ensures
        clean_text(cs),
{
    let t = trim_bytes(b);
    vstd::utf8::decode_utf8_encode_utf8(t);
    assert(encode_utf8(cs) == t);
    lemma_trim_clean(b);
    if cs.len() > 0 {
        lemma_encode_scalar_shape(cs[0]);
        let head = encode_scalar(cs[0] as u32);
        let rest_bytes = encode_utf8(cs.drop_first());
        assert(t == head + rest_bytes);
        assert(t.first() == head.first());
        if (cs.first() as u32) < 0x80 {
            assert(t.first() == (cs.first() as u32) as u8);
        }
        assert(!is_ws_char(cs.first()));
        lemma_encode_last_byte(t, cs);
        assert(!is_ws_char(cs.last()));
    }
    lemma_encode_no_nul(t, cs);
}

proof fn lemma_drop_trailing_ws_last(s: Seq<u8>)
    ensures
        drop_trailing_ws(s).len() > 0 ==> !is_ws_byte(drop_trailing_ws(s).last()),
        drop_trailing_ws(s).len() <= s.len(),
        forall|i: int|
            0 <= i < drop_trailing_ws(s).len() ==> #[trigger] drop_trailing_ws(s)[i] == s[i],
    decreases s.len(),
{
    if s.len() > 0 && is_ws_byte(s.last()) {
        lemma_drop_trailing_ws_last(s.drop_last());
    }
}

proof fn lemma_drop_leading_ws_shape(s: Seq<u8>)
    ensures
        drop_leading_ws(s).len() > 0 ==> !is_ws_byte(drop_leading_ws(s).first()),
        drop_leading_ws(s).len() > 0 ==> drop_leading_ws(s).last() == s.last(),
        drop_leading_ws(s).len() <= s.len(),
        exists|k: int|
            0 <= k <= s.len() && drop_leading_ws(s) =~= s.subrange(k, s.len() as int),
    decreases s.len(),
{
    if s.len() > 0 && is_ws_byte(s.first()) {
        lemma_drop_leading_ws_shape(s.drop_first());
        let tail = s.drop_first();
        let k0 = choose|k: int|
            0 <= k <= tail.len() && drop_leading_ws(tail) =~= tail.subrange(k, tail.len() as int);
        assert(tail.subrange(k0, tail.len() as int) =~= s.subrange(k0 + 1, s.len() as int));
        if drop_leading_ws(s).len() > 0 {
            assert(tail.last() == s.last());
        }
    } else {
        assert(drop_leading_ws(s) =~= s.subrange(0, s.len() as int));
    }
}

/// What the trim achieves on the bytes themselves: nothing remains of
/// the whitespace at either end.
pub proof fn lemma_trim_clean(s: Seq<u8>)
    ensures
        trim_bytes(s).len() > 0 ==> !is_ws_byte(trim_bytes(s).first()) && !is_ws_byte(
            trim_bytes(s).last(),
        ),
{
    let u = drop_trailing_ws(drop_trailing_nuls(s));
    lemma_drop_trailing_ws_last(drop_trailing_nuls(s));
    lemma_drop_leading_ws_shape(u);
}

/// A clean text value survives the round trip: its UTF-8 image, laid
/// into a character field, is left alone by the trim and decodes back
/// to the same characters.
pub proof fn lemma_text_round_trip(cs: Seq<char>)
    requires
        clean_text(cs),
    ensures
        valid_utf8(encode_utf8(cs)),
        trim_bytes(encode_utf8(cs)) == encode_utf8(cs),
        decode_utf8(trim_bytes(encode_utf8(cs))) == cs,
{
    let b = encode_utf8(cs);
    vstd::utf8::encode_utf8_valid_utf8(cs);
    vstd::utf8::encode_utf8_decode_utf8(cs);
    if cs.len() == 0 {
        assert(b =~= Seq::<u8>::empty());
    } else {
        lemma_encode_last_byte(b, cs);
        assert(cs.last() as u32 != 0);
        assert(b.last() != 0 && !is_ws_byte(b.last())) by {
            if (cs.last() as u32) < 0x80 {
                assert(b.last() == (cs.last() as u32) as u8);
            }
        }
        assert(drop_trailing_nuls(b) == b);
        assert(drop_trailing_ws(b) == b);
        lemma_encode_scalar_shape(cs[0]);
        let head = encode_scalar(cs[0] as u32);
        assert(b == head + encode_utf8(cs.drop_first()));
        assert(b.first() == head.first());
        assert(!is_ws_byte(b.first())) by {
            if (cs.first() as u32) < 0x80 {
                assert(b.first() == (cs.first() as u32) as u8);
            }
        }
        assert(drop_leading_ws(b) == b);
    }
}

/// `s` with every NUL byte removed, wherever it stands.
pub open spec fn remove_nuls(s: Seq<u8>) -> Seq<u8> {
    s.filter(|b: u8| b != 0)
}

/// The bytes of a field name: the trim of its 11-byte slot, with any
/// remaining NUL padding removed.
pub open spec fn name_bytes(s: Seq<u8>) -> Seq<u8> {
    remove_nuls(trim_bytes(s))
}

/// A run of visible ASCII bytes is valid UTF-8.
pub proof fn lemma_ascii_valid_utf8(s: Seq<u8>)
    requires
        forall|i: int| 0 <= i < s.len() ==> (#[trigger] s[i]) < 0x80,
    ensures
        valid_utf8(s),
{
    assert(s.subrange(0, 0) =~= Seq::<u8>::empty());
    assert(valid_utf8(s.subrange(0, 0)));
    assert(vstd::utf8::partial_valid_utf8(s, 0));
    vstd::utf8::partial_valid_utf8_extend_ascii_block(s, 0, s.len() as int);
    assert(s.subrange(0, s.len() as int) =~= s);
}

/// Removing NUL bytes from a run that has none leaves it unchanged.
pub proof fn lemma_remove_nuls_id(s: Seq<u8>)
    requires
        forall|i: int| 0 <= i < s.len() ==> (#[trigger] s[i]) != 0,
    ensures
        remove_nuls(s) == s,
    decreases s.len(),
{
    reveal(Seq::filter);
    if s.len() > 0 {
        assert(forall|i: int|
            0 <= i < s.drop_last().len() ==> (#[trigger] s.drop_last()[i]) != 0);
        lemma_remove_nuls_id(s.drop_last());
        assert(remove_nuls(s) =~= s);
    } else {
        assert(remove_nuls(s) =~= s);
    }
}

/// Dropping trailing NUL bytes from a run followed by NUL padding
/// yields the run.
pub proof fn lemma_drop_nuls_padding(s: Seq<u8>, t: Seq<u8>)
    requires
        s.len() == 0 || s.last() != 0,
        forall|i: int| 0 <= i < t.len() ==> (#[trigger] t[i]) == 0,
    ensures
        drop_trailing_nuls(s + t) == s,
    decreases t.len(),
{
    if t.len() == 0 {
        assert(s + t =~= s);
    } else {
        assert((s + t).last() == 0);
        assert((s + t).drop_last() =~= s + t.drop_last());
        assert(forall|i: int|
            0 <= i < t.drop_last().len() ==> (#[trigger] t.drop_last()[i]) == 0);
        lemma_drop_nuls_padding(s, t.drop_last());
    }
}

/// Decodes a field-name slot: trims it, drops the NUL padding, and
/// decodes the rest as UTF-8.
pub fn name_from_bytes(data: &[u8]) -> (r: Option<String>)
    ensures
        r is Some <==> valid_utf8(name_bytes(data@)),
        r matches Some(s) ==> s@ == decode_utf8(name_bytes(data@)),
{
    let trimmed = trim_slice(data);
    let mut kept: Vec<u8> = Vec::new();
    let n = trimmed.len();
    let mut i: usize = 0;
    proof {
        reveal(Seq::filter);
        assert(trimmed@.subrange(0, 0) =~= Seq::<u8>::empty());
        assert(kept@ =~= trimmed@.subrange(0, 0).filter(|b: u8| b != 0));
    }
    while i < n
        invariant
            i <= n == trimmed@.len(),
            trimmed@ == trim_bytes(data@),
            kept@ == trimmed@.subrange(0, i as int).filter(|b: u8| b != 0),
        decreases n - i,
    {
        let b = trimmed[i];
        proof {
            reveal(Seq::filter);
            assert(trimmed@.subrange(0, i + 1).drop_last() =~= trimmed@.subrange(0, i as int));
            assert(trimmed@.subrange(0, i + 1).last() == b);
        }
        if b != 0 {
            kept.push(b);
        }
        i = i + 1;
    }
    proof {
        assert(trimmed@.subrange(0, n as int) =~= trimmed@);
    }
    string_from_utf8(kept)
}

/// Compares two string slices; equal exactly when their characters are.
pub fn str_eq(a: &str, b: &str) -> (r: bool)
    ensures
        r == (a@ == b@),
{
    let ab = a.as_bytes();
    let bb = b.as_bytes();
    if ab.len() != bb.len() {
        proof {
            if a@ == b@ {
                assert(a.spec_bytes() == b.spec_bytes());
            }
        }
        return false;
    }
    let n = ab.len();
    let mut i: usize = 0;
    while i < n
        invariant
            n == ab@.len() == bb@.len(),
            i <= n,
            ab@ == a.spec_bytes(),
            bb@ == b.spec_bytes(),
            forall|k: int| 0 <= k < i ==> ab@[k] == bb@[k],
        decreases n - i,
    {
        if ab[i] != bb[i] {
            proof {
                if a@ == b@ {
                    assert(a.spec_bytes() == b.spec_bytes());
                }
            }
            return false;
        }
        i = i + 1;
    }
    proof {
        assert(ab@ =~= bb@);
        vstd::utf8::encode_utf8_decode_utf8(a@);
        vstd::utf8::encode_utf8_decode_utf8(b@);
        assert(decode_utf8(encode_utf8(a@)) == decode_utf8(encode_utf8(b@)));
    }
    true
}

} // verus!
