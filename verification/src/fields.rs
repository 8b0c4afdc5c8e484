//! Field decoders: one per field-type code of the table format.
//!
//! Every decoder takes the raw bytes of one cell (a fixed-width run
//! sliced out of a row) and yields a typed [`FieldValue`]. Only the
//! memo decoder looks at the database, to resolve its reference
//! against the sidecar.

use vstd::prelude::*;
use vstd::slice::slice_to_vec;
use vstd::utf8::{valid_utf8, decode_utf8};
use crate::bytes::{
    all_digits,
    digits_value,
    le32,
    le32_signed,
    read_digits,
    read_u32_le,
    read_i32_le,
    pow10,
};
use crate::dates::{valid_ymd, julian_valid, julian_ymd, julian_day_to_date, DateTime};
use crate::error::DbfError;
use crate::header::Database;
use crate::memo::spec_resolve;
use crate::numeric::{NumericValue, spec_parse_numeric, parse_numeric};
use crate::text::{trim_bytes, trim_slice, string_from_utf8, clean_text, lemma_text_clean};

verus! {

/// The closed set of field-type codes a schema may carry.
#[derive(Clone, Copy, Debug, PartialEq, Eq, Structural)]
pub enum FieldTag {
    Character,
    Date,
    Numeric,
    Logical,
    Timestamp,
    Integer,
    Memo,
}

/// Which tag a descriptor's type byte names, if any: `C`, `D`, `N` or
/// `F`, `L`, `T`, `I`, `M`.
pub open spec fn spec_tag_of_byte(b: u8) -> Option<FieldTag> {
    if b == 0x43 {
        Some(FieldTag::Character)
    } else if b == 0x44 {
        Some(FieldTag::Date)
    } else if b == 0x4e || b == 0x46 {
        Some(FieldTag::Numeric)
    } else if b == 0x4c {
        Some(FieldTag::Logical)
    } else if b == 0x54 {
        Some(FieldTag::Timestamp)
    } else if b == 0x49 {
        Some(FieldTag::Integer)
    } else if b == 0x4d {
        Some(FieldTag::Memo)
    } else {
        None
    }
}

/// The typed value of one cell.
#[derive(Debug, PartialEq)]
pub enum FieldValue {
    Text(String),
    Numeric(NumericValue),
    Integer(i32),
    Boolean(Option<bool>),
    Date(crate::dates::Date),
    DateTime(crate::dates::DateTime),
    Unknown(Vec<u8>),
}

/// What a `D` field's bytes denote: after the trim, exactly eight
/// ASCII digits `YYYYMMDD` naming a real calendar date.
pub open spec fn spec_decode_date(b: Seq<u8>) -> Option<(int, int, int)> {
    let t = trim_bytes(b);
    if t.len() == 8 && all_digits(t) {
        let y = digits_value(t.take(4));
        let m = digits_value(t.subrange(4, 6));
        let d = digits_value(t.subrange(6, 8));
        if valid_ymd(y, m, d) {
            Some((y, m, d))
        } else {
            None
        }
    } else {
        None
    }
}

/// What a `L` field's single byte denotes: three-valued truth.
pub open spec fn spec_logical(b: u8) -> Option<bool> {
    if b == 0x59 || b == 0x79 {
        Some(true)
    } else if b == 0x4e || b == 0x6e {
        Some(false)
    } else {
        None
    }
}

/// True when a `T` field's bytes denote a real instant: at least eight
/// bytes, a Julian day word landing on a real date, and a
/// milliseconds word within the day.
pub open spec fn spec_datetime_ok(b: Seq<u8>) -> bool {
    &&& b.len() >= 8
    &&& julian_valid(le32(b[0], b[1], b[2], b[3]))
    &&& le32(b[4], b[5], b[6], b[7]) / 3600000 < 24
}

/// How a decoded instant relates to a `T` field's bytes: the first
/// little-endian word is the Julian day, the second the milliseconds
/// into the day, split into hours, minutes and seconds.
pub open spec fn spec_datetime_value(b: Seq<u8>, dt: DateTime) -> bool {
    let jd = le32(b[0], b[1], b[2], b[3]);
    let ms = le32(b[4], b[5], b[6], b[7]);
    &&& (dt.date.year as int, dt.date.month as int, dt.date.day as int) == julian_ymd(jd)
    &&& dt.hour == ms / 3600000
    &&& dt.minute == (ms % 3600000) / 60000
    &&& dt.second == (ms % 60000) / 1000
}

/// What resolving memo bytes against the database's sidecar yields,
/// if the database has one and the reference resolves.
pub open spec fn spec_memo_outcome(db: Database, b: Seq<u8>) -> Option<Seq<u8>> {
    match db.memo {
        Some(mc) => spec_resolve(mc, b),
        None => None,
    }
}

/// True when the bytes of a cell decode without error under `tag`.
pub open spec fn spec_field_ok(db: Database, tag: FieldTag, b: Seq<u8>) -> bool {
    match tag {
        FieldTag::Character => valid_utf8(trim_bytes(b)),
        FieldTag::Date => spec_decode_date(b) is Some,
        FieldTag::Numeric => spec_parse_numeric(b) is Some,
        FieldTag::Logical => b.len() >= 1,
        FieldTag::Timestamp => spec_datetime_ok(b),
        FieldTag::Integer => b.len() >= 4,
        FieldTag::Memo => match spec_memo_outcome(db, b) {
            Some(p) => valid_utf8(trim_bytes(p)),
            None => true,
        },
    }
}

/// How the decoded value of a cell relates to its bytes under `tag`.
pub open spec fn spec_field_value(db: Database, tag: FieldTag, b: Seq<u8>, v: FieldValue) -> bool {
    match tag {
        FieldTag::Character => v matches FieldValue::Text(s) && s@ == decode_utf8(trim_bytes(b)),
        FieldTag::Date => v matches FieldValue::Date(d) && Some(
            (d.year as int, d.month as int, d.day as int),
        ) == spec_decode_date(b),
        FieldTag::Numeric => v matches FieldValue::Numeric(n) && Some(
            (n.negative, n.mantissa as int, n.scale as int),
        ) == spec_parse_numeric(b),
        FieldTag::Logical => v matches FieldValue::Boolean(x) && b.len() >= 1 && x == spec_logical(
            b[0],
        ),
        FieldTag::Timestamp => v matches FieldValue::DateTime(dt) && b.len() >= 8
            && spec_datetime_value(b, dt),
        FieldTag::Integer => v matches FieldValue::Integer(n) && b.len() >= 4 && n == le32_signed(
            b[0],
            b[1],
            b[2],
            b[3],
        ),
        FieldTag::Memo => match spec_memo_outcome(db, b) {
            Some(p) => v matches FieldValue::Text(s) && s@ == decode_utf8(trim_bytes(p)),
            None => v matches FieldValue::Unknown(u) && u@ == b,
        },
    }
}

/// The four little-endian bytes of an unsigned 32-bit word.
pub open spec fn word_field_bytes(u: int) -> Seq<u8> {
    seq![
        (u % 0x100) as u8,
        (u / 0x100 % 0x100) as u8,
        (u / 0x10000 % 0x100) as u8,
        (u / 0x1000000 % 0x100) as u8,
    ]
}

/// A word's little-endian image reads back as the word.
pub proof fn lemma_word_round_trip(u: int)
    requires
        0 <= u < 0x100000000,
    ensures
        ({
            let s = word_field_bytes(u);
            le32(s[0], s[1], s[2], s[3]) == u
        }),
{
    assert(u == 0x100 * (u / 0x100) + u % 0x100);
    assert(u / 0x100 == 0x100 * (u / 0x10000) + u / 0x100 % 0x100) by {
        assert(u / 0x100 / 0x100 == u / 0x10000) by (nonlinear_arith)
            requires
                u >= 0,
        ;
    }
    assert(u / 0x10000 == 0x100 * (u / 0x1000000) + u / 0x10000 % 0x100) by {
        assert(u / 0x10000 / 0x100 == u / 0x1000000) by (nonlinear_arith)
            requires
                u >= 0,
        ;
    }
    assert(u / 0x1000000 % 0x100 == u / 0x1000000);
}

/// The four little-endian bytes of a signed 32-bit value.
pub open spec fn int_field_bytes(v: int) -> Seq<u8> {
    word_field_bytes(
        if v >= 0 {
            v
        } else {
            v + 0x100000000
        },
    )
}

/// A signed 32-bit value survives the round trip: its little-endian
/// image, laid into an `I` field, reads back as the same value.
pub proof fn lemma_int_round_trip(v: int)
    requires
        -0x80000000 <= v < 0x80000000,
    ensures
        ({
            let s = int_field_bytes(v);
            le32_signed(s[0], s[1], s[2], s[3]) == v
        }),
{
    let u = if v >= 0 {
        v
    } else {
        v + 0x100000000
    };
    lemma_word_round_trip(u);
}

/// The eight bytes of a `T` field image: the Julian day word, then
/// the milliseconds into that day, both little-endian.
pub open spec fn datetime_field_bytes(jd: int, ms: int) -> Seq<u8> {
    word_field_bytes(jd) + word_field_bytes(ms)
}

/// An instant survives the round trip: the image built from a Julian
/// day and the milliseconds into it decodes back to the date that day
/// names and to that time of day. The image starts from the day
/// number itself: the library decodes Julian days but holds no
/// inverse from a civil date back to one.
pub proof fn lemma_datetime_round_trip(jd: int, ms: int)
    requires
        0 <= jd < 0x100000000,
        0 <= ms < 86400000,
        julian_valid(jd),
    ensures
        spec_datetime_ok(datetime_field_bytes(jd, ms)),
        forall|dt: DateTime|
            #[trigger] spec_datetime_value(datetime_field_bytes(jd, ms), dt) <==> {
                &&& (dt.date.year as int, dt.date.month as int, dt.date.day as int)
                    == julian_ymd(jd)
                &&& dt.hour == ms / 3600000
                &&& dt.minute == (ms % 3600000) / 60000
                &&& dt.second == (ms % 60000) / 1000
            },
{
    lemma_word_round_trip(jd);
    lemma_word_round_trip(ms);
    let b = datetime_field_bytes(jd, ms);
    let w0 = word_field_bytes(jd);
    let w1 = word_field_bytes(ms);
    assert(b.len() == 8);
    assert(b[0] == w0[0] && b[1] == w0[1] && b[2] == w0[2] && b[3] == w0[3]);
    assert(b[4] == w1[0] && b[5] == w1[1] && b[6] == w1[2] && b[7] == w1[3]);
    assert(le32(b[0], b[1], b[2], b[3]) == jd);
    assert(le32(b[4], b[5], b[6], b[7]) == ms);
}

/// The eight-byte ASCII image `YYYYMMDD` of a date.
pub open spec fn date_field_bytes(y: int, m: int, d: int) -> Seq<u8> {
    seq![
        (0x30 + y / 1000 % 10) as u8,
        (0x30 + y / 100 % 10) as u8,
        (0x30 + y / 10 % 10) as u8,
        (0x30 + y % 10) as u8,
        (0x30 + m / 10) as u8,
        (0x30 + m % 10) as u8,
        (0x30 + d / 10) as u8,
        (0x30 + d % 10) as u8,
    ]
}

/// A real calendar date survives the round trip: its `YYYYMMDD`
/// image, laid into a `D` field, decodes back to the same date.
pub proof fn lemma_date_round_trip(y: int, m: int, d: int)
    requires
        valid_ymd(y, m, d),
        y <= 9999,
    ensures
        spec_decode_date(date_field_bytes(y, m, d)) == Some((y, m, d)),
{
    let s = date_field_bytes(y, m, d);
    assert(0 <= y % 10 < 10 && 0 <= y / 10 % 10 < 10 && 0 <= y / 100 % 10 < 10 && 0 <= y / 1000
        % 10 < 10);
    assert(0 <= m % 10 < 10 && 0 <= m / 10 < 10);
    assert(0 <= d % 10 < 10 && 0 <= d / 10 < 10);
    assert(forall|i: int| 0 <= i < 8 ==> crate::bytes::is_digit(#[trigger] s[i]));
    assert(trim_bytes(s) == s) by {
        assert(s.last() == s[7]);
        assert(crate::text::drop_trailing_nuls(s) == s);
        assert(crate::text::drop_trailing_ws(s) == s);
        assert(s.first() == s[0]);
        assert(crate::text::drop_leading_ws(s) == s);
    }
    let t = trim_bytes(s);
    assert(all_digits(t));
    assert(t.take(1).drop_last() =~= t.take(0));
    assert(t.take(2).drop_last() =~= t.take(1));
    assert(t.take(3).drop_last() =~= t.take(2));
    assert(t.take(4).drop_last() =~= t.take(3));
    assert(t.take(1).last() == s[0]);
    assert(t.take(2).last() == s[1]);
    assert(t.take(3).last() == s[2]);
    assert(t.take(4).last() == s[3]);
    assert(digits_value(t.take(0)) == 0);
    assert(digits_value(t.take(1)) == y / 1000 % 10);
    assert(digits_value(t.take(2)) == y / 1000 % 10 * 10 + y / 100 % 10);
    assert(digits_value(t.take(3)) == (y / 1000 % 10 * 10 + y / 100 % 10) * 10 + y / 10 % 10);
    assert(digits_value(t.take(4)) == ((y / 1000 % 10 * 10 + y / 100 % 10) * 10 + y / 10 % 10)
        * 10 + y % 10);
    assert(digits_value(t.take(4)) == y) by {
        assert(y / 1000 % 10 == y / 1000);
        assert(y == y / 10 * 10 + y % 10);
        assert(y / 10 == y / 100 * 10 + y / 10 % 10) by {
            assert(y / 10 / 10 == y / 100) by (nonlinear_arith)
                requires
                    y >= 0,
            ;
        }
        assert(y / 100 == y / 1000 * 10 + y / 100 % 10) by {
            assert(y / 100 / 10 == y / 1000) by (nonlinear_arith)
                requires
                    y >= 0,
            ;
        }
    }
    assert(t.subrange(4, 5).drop_last() =~= t.subrange(4, 4));
    assert(t.subrange(4, 6).drop_last() =~= t.subrange(4, 5));
    assert(t.subrange(4, 5).last() == s[4]);
    assert(t.subrange(4, 6).last() == s[5]);
    assert(digits_value(t.subrange(4, 4)) == 0);
    assert(digits_value(t.subrange(4, 5)) == m / 10);
    assert(digits_value(t.subrange(4, 6)) == m / 10 * 10 + m % 10);
    assert(m == m / 10 * 10 + m % 10);
    assert(t.subrange(6, 7).drop_last() =~= t.subrange(6, 6));
    assert(t.subrange(6, 8).drop_last() =~= t.subrange(6, 7));
    assert(t.subrange(6, 7).last() == s[6]);
    assert(t.subrange(6, 8).last() == s[7]);
    assert(digits_value(t.subrange(6, 6)) == 0);
    assert(digits_value(t.subrange(6, 7)) == d / 10);
    assert(digits_value(t.subrange(6, 8)) == d / 10 * 10 + d % 10);
    assert(d == d / 10 * 10 + d % 10);
}

/// Every `Text` value a character field yields is clean — no leading
/// or trailing whitespace and no NUL anywhere — provided the trimmed
/// bytes hold no interior NUL.
pub proof fn lemma_char_field_text_clean(db: Database, b: Seq<u8>, v: FieldValue)
    requires
        spec_field_ok(db, FieldTag::Character, b),
        spec_field_value(db, FieldTag::Character, b, v),
        forall|i: int| 0 <= i < trim_bytes(b).len() ==> (#[trigger] trim_bytes(b)[i]) != 0,
    ensures
        v matches FieldValue::Text(s) && clean_text(s@),
{
    lemma_text_clean(b, decode_utf8(trim_bytes(b)));
}

/// The same holds of a memo field's `Text` value: the payload is
/// trimmed and decoded exactly as a character field is.
pub proof fn lemma_memo_field_text_clean(db: Database, b: Seq<u8>, v: FieldValue, p: Seq<u8>)
    requires
        spec_memo_outcome(db, b) == Some(p),
        spec_field_ok(db, FieldTag::Memo, b),
        spec_field_value(db, FieldTag::Memo, b, v),
        forall|i: int| 0 <= i < trim_bytes(p).len() ==> (#[trigger] trim_bytes(p)[i]) != 0,
    ensures
        v matches FieldValue::Text(s) && clean_text(s@),
{
    lemma_text_clean(p, decode_utf8(trim_bytes(p)));
}

/// Every `Date` value a `D` field yields names a real calendar date:
/// a positive year, a month within the year, a day within the month.
pub proof fn lemma_date_field_valid(db: Database, b: Seq<u8>, v: FieldValue)
    requires
        spec_field_value(db, FieldTag::Date, b, v),
    ensures
        v matches FieldValue::Date(d) && d.wf(),
{
}

/// Every `DateTime` value a `T` field yields holds a real calendar
/// date and a real time of day.
pub proof fn lemma_timestamp_field_valid(db: Database, b: Seq<u8>, v: FieldValue)
    requires
        spec_field_ok(db, FieldTag::Timestamp, b),
        spec_field_value(db, FieldTag::Timestamp, b, v),
    ensures
        v matches FieldValue::DateTime(dt) && dt.wf(),
{
}

/// The `C` (character) decoder.
#[derive(Clone, Debug)]
pub struct FieldTypeC;

impl FieldTypeC {
    /// Trims the padding and whitespace and decodes the rest as UTF-8.
    pub fn parse(&self, database: &mut Database, data: Vec<u8>) -> (r: Result<
        FieldValue,
        DbfError,
    >)
        ensures
            *final(database) == *old(database),
            match r {
                Ok(v) => spec_field_ok(*old(database), FieldTag::Character, data@)
                    && spec_field_value(*old(database), FieldTag::Character, data@, v),
                Err(e) => e == DbfError::InvalidData && !spec_field_ok(
                    *old(database),
                    FieldTag::Character,
                    data@,
                ),
            },
    {
        let trimmed = trim_slice(data.as_slice());
        match string_from_utf8(slice_to_vec(trimmed)) {
            Some(s) => Ok(FieldValue::Text(s)),
            None => Err(DbfError::InvalidData),
        }
    }
}

/// The `D` (date) decoder.
#[derive(Clone, Debug)]
pub struct FieldTypeD;

impl FieldTypeD {
    /// Reads a trimmed `YYYYMMDD` digit run as a calendar date.
    pub fn parse(&self, database: &mut Database, data: Vec<u8>) -> (r: Result<
        FieldValue,
        DbfError,
    >)
        ensures
            *final(database) == *old(database),
            match r {
                Ok(v) => spec_field_ok(*old(database), FieldTag::Date, data@) && spec_field_value(
                    *old(database),
                    FieldTag::Date,
                    data@,
                    v,
                ),
                Err(e) => e == DbfError::InvalidData && !spec_field_ok(
                    *old(database),
                    FieldTag::Date,
                    data@,
                ),
            },
    {
        let trimmed = trim_slice(data.as_slice());
        if trimmed.len() != 8 {
            return Err(DbfError::InvalidData);
        }
        let ghost t = trim_bytes(data@);
        let y = match read_digits(trimmed, 0, 4) {
            Some(v) => v,
            None => {
                proof {
                    let k = choose|k: int| 0 <= k < 4 && !crate::bytes::is_digit(t[k]);
                    assert(!all_digits(t)) by {
                        assert(t.subrange(0, 4)[k] == t[k]);
                    }
                }
                return Err(DbfError::InvalidData);
            },
        };
        let m = match read_digits(trimmed, 4, 6) {
            Some(v) => v,
            None => {
                proof {
                    let sub = t.subrange(4, 6);
                    let k = choose|k: int| 0 <= k < 2 && !crate::bytes::is_digit(sub[k]);
                    assert(!all_digits(t)) by {
                        assert(sub[k] == t[4 + k]);
                    }
                }
                return Err(DbfError::InvalidData);
            },
        };
        let d = match read_digits(trimmed, 6, 8) {
            Some(v) => v,
            None => {
                proof {
                    let sub = t.subrange(6, 8);
                    let k = choose|k: int| 0 <= k < 2 && !crate::bytes::is_digit(sub[k]);
                    assert(!all_digits(t)) by {
                        assert(sub[k] == t[6 + k]);
                    }
                }
                return Err(DbfError::InvalidData);
            },
        };
        proof {
            assert(t.subrange(0, 4) == t.take(4));
            assert forall|i: int| 0 <= i < 8 implies crate::bytes::is_digit(#[trigger] t[i]) by {
                if i < 4 {
                    assert(t.take(4)[i] == t[i]);
                } else if i < 6 {
                    assert(t.subrange(4, 6)[i - 4] == t[i]);
                } else {
                    assert(t.subrange(6, 8)[i - 6] == t[i]);
                }
            }
            assert(pow10(0) == 1);
            assert(pow10(1) == 10);
            assert(pow10(2) == 100);
            assert(pow10(3) == 1000);
            assert(pow10(4) == 10000);
        }
        match crate::dates::Date::new(y, m as u8, d as u8) {
            Some(date) => Ok(FieldValue::Date(date)),
            None => Err(DbfError::InvalidData),
        }
    }
}

/// The `N` / `F` (numeric) decoder.
#[derive(Clone, Debug)]
pub struct FieldTypeOldNumeric;

impl FieldTypeOldNumeric {
    /// Reads an ASCII decimal as an exact [`NumericValue`]. The value
    /// is kept exact, never rounded; digits beyond what a 64-bit
    /// mantissa holds report `InvalidData`.
    pub fn parse(&self, database: &mut Database, data: Vec<u8>) -> (r: Result<
        FieldValue,
        DbfError,
    >)
        ensures
            *final(database) == *old(database),
            match r {
                Ok(v) => spec_field_ok(*old(database), FieldTag::Numeric, data@)
                    && spec_field_value(*old(database), FieldTag::Numeric, data@, v),
                Err(e) => e == DbfError::InvalidData && !spec_field_ok(
                    *old(database),
                    FieldTag::Numeric,
                    data@,
                ),
            },
    {
        match parse_numeric(data.as_slice()) {
            Ok(n) => Ok(FieldValue::Numeric(n)),
            Err(e) => Err(e),
        }
    }
}

/// The `L` (logical) decoder.
#[derive(Clone, Debug)]
pub struct FieldTypeL;

impl FieldTypeL {
    /// Reads the first byte as three-valued truth: `Y`/`y` true,
    /// `N`/`n` false, anything else unknown.
    pub fn parse(&self, database: &mut Database, data: Vec<u8>) -> (r: Result<
        FieldValue,
        DbfError,
    >)
        ensures
            *final(database) == *old(database),
            match r {
                Ok(v) => spec_field_ok(*old(database), FieldTag::Logical, data@)
                    && spec_field_value(*old(database), FieldTag::Logical, data@, v),
                Err(e) => e == DbfError::InvalidData && !spec_field_ok(
                    *old(database),
                    FieldTag::Logical,
                    data@,
                ),
            },
    {
        if data.len() == 0 {
            return Err(DbfError::InvalidData);
        }
        let b = data[0];
        if b == 0x59 || b == 0x79 {
            Ok(FieldValue::Boolean(Some(true)))
        } else if b == 0x4e || b == 0x6e {
            Ok(FieldValue::Boolean(Some(false)))
        } else {
            Ok(FieldValue::Boolean(None))
        }
    }
}

/// The `T` (timestamp) decoder.
#[derive(Clone, Debug)]
pub struct FieldTypeT;

impl FieldTypeT {
    /// Reads two little-endian words: a Julian day and the
    /// milliseconds into that day.
    pub fn parse(&self, database: &mut Database, data: Vec<u8>) -> (r: Result<
        FieldValue,
        DbfError,
    >)
        ensures
            *final(database) == *old(database),
            match r {
                Ok(v) => spec_field_ok(*old(database), FieldTag::Timestamp, data@)
                    && spec_field_value(*old(database), FieldTag::Timestamp, data@, v),
                Err(e) => e == DbfError::InvalidData && !spec_field_ok(
                    *old(database),
                    FieldTag::Timestamp,
                    data@,
                ),
            },
    {
        if data.len() < 8 {
            return Err(DbfError::InvalidData);
        }
        let jd = read_u32_le(data.as_slice(), 0);
        let ms = read_u32_le(data.as_slice(), 4);
        let date = match julian_day_to_date(jd) {
            Ok(d) => d,
            Err(e) => {
                return Err(e);
            },
        };
        let hour = ms / 3600000;
        if hour > 23 {
            return Err(DbfError::InvalidData);
        }
        let minute = (ms % 3600000) / 60000;
        let second = (ms % 60000) / 1000;
        Ok(
            FieldValue::DateTime(
                DateTime { date, hour: hour as u8, minute: minute as u8, second: second as u8 },
            ),
        )
    }
}

/// The `I` (integer) decoder.
#[derive(Clone, Debug)]
pub struct FieldTypeI;

impl FieldTypeI {
    /// Reads a little-endian signed 32-bit integer.
    pub fn parse(&self, database: &mut Database, data: Vec<u8>) -> (r: Result<
        FieldValue,
        DbfError,
    >)
        ensures
            *final(database) == *old(database),
            match r {
                Ok(v) => spec_field_ok(*old(database), FieldTag::Integer, data@)
                    && spec_field_value(*old(database), FieldTag::Integer, data@, v),
                Err(e) => e == DbfError::InvalidData && !spec_field_ok(
                    *old(database),
                    FieldTag::Integer,
                    data@,
                ),
            },
    {
        if data.len() < 4 {
            return Err(DbfError::InvalidData);
        }
        Ok(FieldValue::Integer(read_i32_le(data.as_slice(), 0)))
    }
}

/// The `M` (memo) decoder.
#[derive(Clone, Debug)]
pub struct FieldTypeM;

impl FieldTypeM {
    /// Resolves the reference against the sidecar and decodes the
    /// payload as text; without a sidecar (or an unresolvable
    /// reference) the raw bytes come back as `Unknown`.
    pub fn parse(&self, database: &mut Database, data: Vec<u8>) -> (r: Result<
        FieldValue,
        DbfError,
    >)
        ensures
            *final(database) == *old(database),
            match r {
                Ok(v) => spec_field_ok(*old(database), FieldTag::Memo, data@) && spec_field_value(
                    *old(database),
                    FieldTag::Memo,
                    data@,
                    v,
                ),
                Err(e) => e == DbfError::InvalidData && !spec_field_ok(
                    *old(database),
                    FieldTag::Memo,
                    data@,
                ),
            },
    {
        let reference = slice_to_vec(data.as_slice());
        match database.get_memo(reference) {
            Some(payload) => {
                let trimmed = trim_slice(payload.as_slice());
                match string_from_utf8(slice_to_vec(trimmed)) {
                    Some(s) => Ok(FieldValue::Text(s)),
                    None => Err(DbfError::InvalidData),
                }
            },
            None => Ok(FieldValue::Unknown(data)),
        }
    }
}

} // verus!
