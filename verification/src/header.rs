//! The table container: header, schema, records.
//!
//! A table's bytes open with a 32-byte header (version, last-update
//! date, record count, header size, record size), continue with an
//! array of 32-byte field descriptors ended by a `0x0D` byte, and from
//! `header_size` onward hold the rows, each `record_size` bytes with a
//! one-byte deletion marker in front.

use vstd::prelude::*;
use vstd::slice::{slice_subrange, slice_to_vec, slice_index_get};
use vstd::utf8::{valid_utf8, decode_utf8};
use crate::bytes::{le16, le32, read_u16_le, read_u32_le};
use crate::dates::valid_ymd;
use crate::error::DbfError;
use crate::fields::{
    spec_memo_outcome,
    FieldTag,
    FieldValue,
    FieldTypeC,
    FieldTypeD,
    FieldTypeOldNumeric,
    FieldTypeL,
    FieldTypeT,
    FieldTypeI,
    FieldTypeM,
    spec_tag_of_byte,
    spec_field_ok,
    spec_field_value,
    spec_datetime_value,
};
use crate::memo::MemoContainer;
use crate::text::{name_bytes, name_from_bytes, str_eq};

verus! {

/// The recognized version signatures of the first header byte.
#[allow(non_camel_case_types)]
#[derive(Clone, Copy, Debug, PartialEq, Eq, Structural)]
pub enum Version {
    FoxBase,
    dBASE3(bool),
    VisualFoxPro(bool, bool),
    dBASE4Table(bool),
    dBASE4System(bool),
    FoxPro2(bool),
    Unknown,
}

/// Which version a signature byte names. Unrecognized bytes map to
/// `Unknown`; parsing proceeds all the same.
pub open spec fn spec_version_from_byte(b: u8) -> Version {
    if b == 0x02 {
        Version::FoxBase
    } else if b == 0x03 {
        Version::dBASE3(false)
    } else if b == 0x30 {
        Version::VisualFoxPro(false, false)
    } else if b == 0x31 {
        Version::VisualFoxPro(true, false)
    } else if b == 0x32 {
        Version::VisualFoxPro(false, true)
    } else if b == 0x33 {
        Version::VisualFoxPro(true, true)
    } else if b == 0x43 {
        Version::dBASE4Table(false)
    } else if b == 0x63 {
        Version::dBASE4System(false)
    } else if b == 0x83 {
        Version::dBASE3(true)
    } else if b == 0x8b {
        Version::dBASE4System(true)
    } else if b == 0xcb {
        Version::dBASE4Table(true)
    } else if b == 0xfb {
        Version::FoxPro2(false)
    } else if b == 0xf5 {
        Version::FoxPro2(true)
    } else {
        Version::Unknown
    }
}

impl Version {
    /// Maps a signature byte to its version.
    pub fn from_byte(byte: &u8) -> (r: Version)
        ensures
            r == spec_version_from_byte(*byte),
    {
        match *byte {
            0x02 => Version::FoxBase,
            0x03 => Version::dBASE3(false),
            0x30 => Version::VisualFoxPro(false, false),
            0x31 => Version::VisualFoxPro(true, false),
            0x32 => Version::VisualFoxPro(false, true),
            0x33 => Version::VisualFoxPro(true, true),
            0x43 => Version::dBASE4Table(false),
            0x63 => Version::dBASE4System(false),
            0x83 => Version::dBASE3(true),
            0x8b => Version::dBASE4System(true),
            0xcb => Version::dBASE4Table(true),
            0xfb => Version::FoxPro2(false),
            0xf5 => Version::FoxPro2(true),
            _ => Version::Unknown,
        }
    }
}

/// The 32-byte schema entry that names and types one column.
#[derive(Debug)]
pub struct FieldDescriptor {
    pub name: String,
    pub tag: FieldTag,
    pub data_address: u32,
    pub length: u8,
    pub decimal_count: u8,
}

/// How a parsed descriptor relates to its 32-byte slot: name from the
/// first 11 bytes, tag byte at 11, little-endian address at 12, the
/// length byte at 16 and the decimal count at 17.
pub open spec fn spec_parse_descriptor(chunk: Seq<u8>, fd: FieldDescriptor) -> bool {
    &&& spec_tag_of_byte(chunk[11]) == Some(fd.tag)
    &&& fd.name@ == decode_utf8(name_bytes(chunk.take(11)))
    &&& fd.data_address == le32(chunk[12], chunk[13], chunk[14], chunk[15])
    &&& fd.length == chunk[16]
    &&& fd.decimal_count == chunk[17]
}

/// True when a 32-byte slot parses: a recognized tag byte and a
/// UTF-8 name.
pub open spec fn spec_descriptor_ok(chunk: Seq<u8>) -> bool {
    &&& spec_tag_of_byte(chunk[11]) is Some
    &&& valid_utf8(name_bytes(chunk.take(11)))
}

/// True when the descriptor area parses: 32-byte slots, each well
/// formed, until the area ends or a slot opens with the `0x0D`
/// terminator.
pub open spec fn spec_area_ok(area: Seq<u8>) -> bool
    decreases area.len(),
{
    if area.len() == 0 {
        true
    } else if area[0] == 0x0d {
        true
    } else if area.len() < 32 {
        false
    } else {
        spec_descriptor_ok(area.take(32)) && spec_area_ok(area.skip(32))
    }
}

/// How the parsed descriptor list relates to the descriptor area.
pub open spec fn spec_fields_match(area: Seq<u8>, fds: Seq<FieldDescriptor>) -> bool
    decreases area.len(),
{
    if area.len() == 0 || area[0] == 0x0d {
        fds.len() == 0
    } else if area.len() < 32 {
        false
    } else {
        &&& fds.len() >= 1
        &&& spec_parse_descriptor(area.take(32), fds[0])
        &&& spec_fields_match(area.skip(32), fds.drop_first())
    }
}

/// The sum of the descriptor lengths: the width of a row without its
/// deletion marker.
pub open spec fn spec_sum_lengths(fds: Seq<FieldDescriptor>) -> int
    decreases fds.len(),
{
    if fds.len() == 0 {
        0
    } else {
        spec_sum_lengths(fds.drop_last()) + fds.last().length
    }
}

proof fn lemma_sum_lengths_prefix(fds: Seq<FieldDescriptor>, m: int)
    requires
        0 <= m <= fds.len(),
    ensures
        spec_sum_lengths(fds.take(m)) <= spec_sum_lengths(fds),
        spec_sum_lengths(fds) >= 0,
    decreases fds.len(),
{
    if fds.len() > 0 {
        lemma_sum_lengths_prefix(fds.drop_last(), if m < fds.len() {
            m
        } else {
            m - 1
        });
        if m < fds.len() {
            assert(fds.drop_last().take(m) =~= fds.take(m));
        } else {
            assert(fds.take(m) =~= fds);
        }
    } else {
        assert(fds.take(m) =~= fds);
    }
}

proof fn lemma_sum_lengths_step(fds: Seq<FieldDescriptor>, m: int)
    requires
        0 <= m < fds.len(),
    ensures
        spec_sum_lengths(fds.take(m + 1)) == spec_sum_lengths(fds.take(m)) + fds[m].length,
{
    assert(fds.take(m + 1).drop_last() =~= fds.take(m));
    assert(fds.take(m + 1).last() == fds[m]);
}

/// The parsed table header.
#[derive(Debug)]
pub struct Header {
    pub version: Version,
    pub last_update: crate::dates::Date,
    pub record_count: u32,
    pub header_size: u16,
    pub record_size: u16,
    pub fields: Vec<FieldDescriptor>,
}

/// The header-size word of the table bytes.
pub open spec fn spec_hs(data: Seq<u8>) -> int {
    le16(data[8], data[9])
}

/// The descriptor area: from byte 32 through the byte at
/// `header_size`, one past the last descriptor slot, where the
/// terminator stands in a well-formed file.
pub open spec fn spec_area(data: Seq<u8>) -> Seq<u8> {
    data.subrange(32, spec_hs(data) + 1)
}

/// True when the table's leading bytes parse as a header: the full
/// 32-byte prelude present, a real last-update date, a header size
/// covering the prelude, the descriptor area within the bytes, and
/// every descriptor well formed.
pub open spec fn spec_header_ok(data: Seq<u8>) -> bool {
    &&& data.len() >= 32
    &&& valid_ymd(1900 + data[1], data[2] as int, data[3] as int)
    &&& spec_hs(data) >= 32
    &&& spec_hs(data) + 1 <= data.len()
    &&& spec_area_ok(spec_area(data))
}

/// How a parsed header relates to the table's leading bytes.
pub open spec fn spec_header_match(data: Seq<u8>, h: Header) -> bool {
    &&& h.version == spec_version_from_byte(data[0])
    &&& h.last_update == (crate::dates::Date {
        year: (1900 + data[1]) as u32,
        month: data[2],
        day: data[3],
    })
    &&& h.record_count == le32(data[4], data[5], data[6], data[7])
    &&& h.header_size == le16(data[8], data[9])
    &&& h.record_size == le16(data[10], data[11])
    &&& spec_fields_match(spec_area(data), h.fields@)
}

/// A table held in memory: its bytes, the read position, the parsed
/// header, and the optional memo sidecar.
pub struct Database {
    pub path: String,
    pub data: Vec<u8>,
    pub pos: usize,
    pub memo: Option<MemoContainer>,
    pub header: Header,
}

/// Relies on chrono's `DateTime::from_timestamp` and the `Datelike`
/// accessors: the month of a real date lies in 1..=12 and the day in
/// 1..=31. The result depends on the wall clock, so nothing more is
/// promised. The clock is read through the non-panicking forms; a
/// clock before the Unix epoch or beyond chrono's range yields the
/// fixed fallback 1970-01-01, which meets the contract as well.
#[verifier::external_body]
fn today_utc() -> (r: (i32, u32, u32))
    ensures
        1 <= r.1 <= 12,
        1 <= r.2 <= 31,
{
    match std::time::SystemTime::now().duration_since(std::time::UNIX_EPOCH) {
        Ok(d) => match chrono::DateTime::from_timestamp(d.as_secs() as i64, d.subsec_nanos()) {
            Some(now) => (
                chrono::Datelike::year(&now),
                chrono::Datelike::month(&now),
                chrono::Datelike::day(&now),
            ),
            None => (1970, 1, 1),
        },
        Err(_) => (1970, 1, 1),
    }
}

proof fn lemma_area_ok_suffix(area: Seq<u8>, fds: Seq<FieldDescriptor>, k: int)
    requires
        0 <= k <= fds.len(),
        32 * fds.len() <= area.len(),
        forall|j: int|
            0 <= j < fds.len() ==> spec_parse_descriptor(
                #[trigger] area.subrange(32 * j, 32 * j + 32),
                fds[j],
            ) && spec_descriptor_ok(area.subrange(32 * j, 32 * j + 32)) && area[32 * j] != 0x0d,
        32 * fds.len() == area.len() || area[32 * fds.len() as int] == 0x0d,
    ensures
        spec_fields_match(area.skip(32 * k), fds.skip(k)),
        spec_area_ok(area.skip(32 * k)),
    decreases fds.len() - k,
{
    let sub = area.skip(32 * k);
    if k == fds.len() {
        assert(fds.skip(k) =~= Seq::<FieldDescriptor>::empty());
        if 32 * fds.len() < area.len() {
            assert(sub[0] == area[32 * fds.len() as int]);
        }
    } else {
        assert(sub[0] == area[32 * k]);
        assert(sub.take(32) =~= area.subrange(32 * k, 32 * k + 32));
        assert(sub.skip(32) =~= area.skip(32 * (k + 1)));
        assert(fds.skip(k)[0] == fds[k]);
        assert(fds.skip(k).drop_first() =~= fds.skip(k + 1));
        lemma_area_ok_suffix(area, fds, k + 1);
    }
}

proof fn lemma_area_bad_at(area: Seq<u8>, i: int, k: int)
    requires
        0 <= k <= i,
        32 * i <= area.len(),
        forall|j: int|
            0 <= j < i ==> spec_descriptor_ok(#[trigger] area.subrange(32 * j, 32 * j + 32))
                && area[32 * j] != 0x0d && 32 * j + 32 <= area.len(),
        32 * i < area.len(),
        area[32 * i] != 0x0d,
        area.len() - 32 * i < 32 || !spec_descriptor_ok(area.subrange(32 * i, 32 * i + 32)),
    ensures
        !spec_area_ok(area.skip(32 * k)),
    decreases i - k,
{
    let sub = area.skip(32 * k);
    assert(sub[0] == area[32 * k]);
    if k == i {
        if area.len() - 32 * i >= 32 {
            assert(sub.take(32) =~= area.subrange(32 * i, 32 * i + 32));
        }
    } else {
        assert(spec_descriptor_ok(area.subrange(32 * k, 32 * k + 32)));
        assert(sub.skip(32) =~= area.skip(32 * (k + 1)));
        lemma_area_bad_at(area, i, k + 1);
    }
}

impl Database {
    /// Parses the descriptor area: 32-byte slots until the `0x0D`
    /// terminator or the end of the area.
    #[verifier::loop_isolation(false)]
    #[verifier::rlimit(30)]
    pub fn parse_fields(buffer: &[u8]) -> (r: Result<Vec<FieldDescriptor>, DbfError>)
        ensures
            match r {
                Ok(fds) => spec_area_ok(buffer@) && spec_fields_match(buffer@, fds@),
                Err(e) => e == DbfError::InvalidData && !spec_area_ok(buffer@),
            },
    {
        let len = buffer.len();
        let mut fds: Vec<FieldDescriptor> = Vec::new();
        let mut o: usize = 0;
        loop
            invariant
                o == 32 * fds@.len(),
                o <= len == buffer@.len(),
                forall|j: int|
                    0 <= j < fds@.len() ==> spec_parse_descriptor(
                        #[trigger] buffer@.subrange(32 * j, 32 * j + 32),
                        fds@[j],
                    ) && spec_descriptor_ok(buffer@.subrange(32 * j, 32 * j + 32)) && buffer@[32
                        * j] != 0x0d,
            decreases len - o,
        {
            if o >= len {
                proof {
                    lemma_area_ok_suffix(buffer@, fds@, 0);
                    assert(buffer@.skip(0) =~= buffer@);
                    assert(fds@.skip(0) =~= fds@);
                }
                return Ok(fds);
            }
            if buffer[o] == 0x0d {
                proof {
                    lemma_area_ok_suffix(buffer@, fds@, 0);
                    assert(buffer@.skip(0) =~= buffer@);
                    assert(fds@.skip(0) =~= fds@);
                }
                return Ok(fds);
            }
            if len - o < 32 {
                proof {
                    lemma_area_bad_at(buffer@, fds@.len() as int, 0);
                    assert(buffer@.skip(0) =~= buffer@);
                }
                return Err(DbfError::InvalidData);
            }
            let ghost chunk = buffer@.subrange(o as int, o + 32);
            let name = match name_from_bytes(slice_subrange(buffer, o, o + 11)) {
                Some(s) => s,
                None => {
                    proof {
                        assert(buffer@.subrange(o as int, o + 11) =~= chunk.take(11));
                        lemma_area_bad_at(buffer@, fds@.len() as int, 0);
                        assert(buffer@.skip(0) =~= buffer@);
                    }
                    return Err(DbfError::InvalidData);
                },
            };
            let tag_byte = buffer[o + 11];
            let tag = if tag_byte == 0x43 {
                FieldTag::Character
            } else if tag_byte == 0x44 {
                FieldTag::Date
            } else if tag_byte == 0x4e || tag_byte == 0x46 {
                FieldTag::Numeric
            } else if tag_byte == 0x4c {
                FieldTag::Logical
            } else if tag_byte == 0x54 {
                FieldTag::Timestamp
            } else if tag_byte == 0x49 {
                FieldTag::Integer
            } else if tag_byte == 0x4d {
                FieldTag::Memo
            } else {
                proof {
                    lemma_area_bad_at(buffer@, fds@.len() as int, 0);
                    assert(buffer@.skip(0) =~= buffer@);
                }
                return Err(DbfError::InvalidData);
            };
            let data_address = read_u32_le(buffer, o + 12);
            let length = buffer[o + 16];
            let decimal_count = buffer[o + 17];
            let fd = FieldDescriptor { name, tag, data_address, length, decimal_count };
            proof {
                assert(buffer@.subrange(o as int, o + 11) =~= chunk.take(11));
                assert(spec_parse_descriptor(chunk, fd));
                assert(spec_descriptor_ok(chunk));
            }
            fds.push(fd);
            o = o + 32;
        }
    }

    /// Parses the leading bytes of a table into a database over those
    /// bytes, positioned at the first row. The memo container, if the
    /// caller found a sidecar, rides along for the memo decoder.
    #[verifier::loop_isolation(false)]
    pub fn parse(path: &str, data: Vec<u8>, memo: Option<MemoContainer>) -> (r: Result<
        Database,
        DbfError,
    >)
        ensures
            match r {
                Ok(db) => {
                    &&& spec_header_ok(data@)
                    &&& spec_header_match(data@, db.header)
                    &&& db.data@ == data@
                    &&& db.pos == spec_hs(data@)
                    &&& db.memo == memo
                    &&& db.path@ == path@
                },
                Err(e) => e == DbfError::InvalidData && !spec_header_ok(data@),
            },
    {
        if data.len() < 32 {
            return Err(DbfError::InvalidData);
        }
        let version = Version::from_byte(&data[0]);
        let last_update = match crate::dates::Date::new(
            1900 + (data[1] as u32),
            data[2],
            data[3],
        ) {
            Some(d) => d,
            None => {
                return Err(DbfError::InvalidData);
            },
        };
        let record_count = read_u32_le(data.as_slice(), 4);
        let header_size = read_u16_le(data.as_slice(), 8);
        let record_size = read_u16_le(data.as_slice(), 10);
        if header_size < 32 {
            return Err(DbfError::InvalidData);
        }
        let hs = header_size as usize;
        if hs + 1 > data.len() {
            return Err(DbfError::InvalidData);
        }
        let area = slice_subrange(data.as_slice(), 32, hs + 1);
        let fields = match Self::parse_fields(area) {
            Ok(fds) => fds,
            Err(e) => {
                return Err(e);
            },
        };
        let path_string = <String as vstd::string::StringExecFns>::from_str(path);
        Ok(
            Database {
                path: path_string,
                data,
                pos: hs,
                memo,
                header: Header {
                    version,
                    last_update,
                    record_count,
                    header_size,
                    record_size,
                    fields,
                },
            },
        )
    }

    /// Resolves memo reference bytes against the sidecar, if any;
    /// `None` stands for both "no sidecar" and "did not resolve".
    pub fn get_memo(&mut self, data: Vec<u8>) -> (r: Option<Vec<u8>>)
        ensures
            *final(self) == *old(self),
            match r {
                Some(m) => spec_memo_outcome(*old(self), data@) == Some(m@),
                None => spec_memo_outcome(*old(self), data@) is None,
            },
    {
        let mut taken: Option<MemoContainer> = None;
        core::mem::swap(&mut self.memo, &mut taken);
        match taken {
            Some(mut mc) => {
                let r = mc.memo(data);
                let mut back = Some(mc);
                core::mem::swap(&mut self.memo, &mut back);
                match r {
                    Ok(m) => Some(m),
                    Err(_) => None,
                }
            },
            None => None,
        }
    }

    /// An empty database at a path: no bytes, no sidecar, an empty
    /// schema, and today as the last-update date.
    pub fn new_at(s: &str) -> (r: Database)
        ensures
            r.path@ == s@,
            r.data@.len() == 0,
            r.pos == 0,
            r.memo is None,
            r.header.version == Version::Unknown,
            r.header.record_count == 0,
            r.header.header_size == 0,
            r.header.record_size == 0,
            r.header.fields@.len() == 0,
            r.header.last_update.wf(),
    {
        let (y, m, d) = today_utc();
        let last_update = if y >= 1 {
            match crate::dates::Date::new(y as u32, m as u8, d as u8) {
                Some(date) => date,
                None => crate::dates::Date { year: 1970, month: 1, day: 1 },
            }
        } else {
            crate::dates::Date { year: 1970, month: 1, day: 1 }
        };
        Database {
            path: <String as vstd::string::StringExecFns>::from_str(s),
            data: Vec::new(),
            pos: 0,
            memo: None,
            header: Header {
                version: Version::Unknown,
                last_update,
                record_count: 0,
                header_size: 0,
                record_size: 0,
                fields: Vec::new(),
            },
        }
    }

    /// Reads the next `count` bytes of the table, advancing the
    /// position; a short remainder reports `Io` and moves nothing.
    pub fn read_bytes(&mut self, count: usize) -> (r: Result<Vec<u8>, DbfError>)
        ensures
            final(self).path == old(self).path,
            final(self).memo == old(self).memo,
            final(self).header == old(self).header,
            final(self).data == old(self).data,
            match r {
                Ok(v) => {
                    &&& old(self).pos + count <= old(self).data@.len()
                    &&& v@ == old(self).data@.subrange(
                        old(self).pos as int,
                        old(self).pos + count,
                    )
                    &&& final(self).pos == old(self).pos + count
                },
                Err(e) => {
                    &&& e == DbfError::Io
                    &&& old(self).pos + count > old(self).data@.len()
                    &&& final(self).pos == old(self).pos
                },
            },
    {
        if count > self.data.len() || self.pos > self.data.len() - count {
            return Err(DbfError::Io);
        }
        let v = slice_to_vec(slice_subrange(self.data.as_slice(), self.pos, self.pos + count));
        self.pos = self.pos + count;
        Ok(v)
    }

    /// Turns the database into its record sequence. The iterator's
    /// stride is the descriptor lengths plus the deletion-marker
    /// byte — the record size of every well-formed table.
    pub fn into_iter(self) -> (r: DatabaseRecordIterator)
        requires
            spec_sum_lengths(self.header.fields@) + 1 <= usize::MAX,
            self.pos <= self.data@.len(),
        ensures
            r.database == self,
            r.fields@ == self.header.fields@,
            r.record_size == 1 + spec_sum_lengths(self.header.fields@),
            !r.done,
            r.wf(),
            self.header.record_size == 1 + spec_sum_lengths(self.header.fields@)
                ==> r.record_size == self.header.record_size,
    {
        let n = self.header.fields.len();
        let mut fields: Vec<FieldDescriptor> = Vec::new();
        let mut sum: usize = 0;
        let mut i: usize = 0;
        proof {
            assert(self.header.fields@.take(0) =~= Seq::<FieldDescriptor>::empty());
            assert(fields@ =~= self.header.fields@.take(0));
        }
        while i < n
            invariant
                i <= n == self.header.fields@.len(),
                fields@ == self.header.fields@.take(i as int),
                sum == spec_sum_lengths(self.header.fields@.take(i as int)),
                spec_sum_lengths(self.header.fields@) + 1 <= usize::MAX,
            decreases n - i,
        {
            let fd = slice_index_get(self.header.fields.as_slice(), i);
            proof {
                lemma_sum_lengths_step(self.header.fields@, i as int);
                lemma_sum_lengths_prefix(self.header.fields@, i + 1);
            }
            let copy = FieldDescriptor {
                name: fd.name.clone(),
                tag: fd.tag,
                data_address: fd.data_address,
                length: fd.length,
                decimal_count: fd.decimal_count,
            };
            sum = sum + fd.length as usize;
            fields.push(copy);
            proof {
                assert(fields@ =~= self.header.fields@.take(i + 1));
            }
            i = i + 1;
        }
        proof {
            assert(self.header.fields@.take(n as int) =~= self.header.fields@);
        }
        DatabaseRecordIterator { database: self, record_size: sum + 1, fields, done: false }
    }
}

/// The bytes of row `k` of the iterator (without the deletion
/// marker): `record_size` bytes from the position, the first skipped.
pub open spec fn spec_row_bytes(data: Seq<u8>, pos: int, rsize: int, k: int) -> Seq<u8> {
    data.subrange(pos + k * rsize + 1, pos + (k + 1) * rsize)
}

/// Where field `j`'s bytes start within a row: the lengths of the
/// fields before it.
pub open spec fn spec_field_offset(fds: Seq<FieldDescriptor>, j: int) -> int {
    spec_sum_lengths(fds.take(j))
}

/// The bytes of field `j` within a row.
pub open spec fn spec_field_slice(fds: Seq<FieldDescriptor>, row: Seq<u8>, j: int) -> Seq<u8> {
    row.subrange(spec_field_offset(fds, j), spec_field_offset(fds, j) + fds[j].length)
}

/// True when every field of a row decodes without error.
pub open spec fn spec_row_ok(db: Database, fds: Seq<FieldDescriptor>, row: Seq<u8>) -> bool {
    forall|j: int|
        0 <= j < fds.len() ==> spec_field_ok(db, fds[j].tag, #[trigger] spec_field_slice(fds, row, j))
}

/// How a parsed record relates to its row: one pair per descriptor,
/// in order, the name the descriptor's and the value decoded from the
/// field's slice.
pub open spec fn spec_record_matches(
    db: Database,
    fds: Seq<FieldDescriptor>,
    row: Seq<u8>,
    rec: Record,
) -> bool {
    &&& rec.fields@.len() == fds.len()
    &&& forall|j: int|
        0 <= j < fds.len() ==> (#[trigger] rec.fields@[j]).0@ == fds[j].name@ && spec_field_value(
            db,
            fds[j].tag,
            spec_field_slice(fds, row, j),
            rec.fields@[j].1,
        )
}

/// One decoded row: field names with their typed values, in
/// descriptor order. A well-formed schema names each field once; if a
/// malformed one repeats a name, every pair is kept, in order, and
/// lookup finds the first.
#[derive(Debug)]
pub struct Record {
    pub fields: Vec<(String, FieldValue)>,
}

/// The value the first pair with the given name holds, if any. With
/// a repeated name — which a well-formed schema never has — the
/// earliest field in descriptor order wins.
pub open spec fn spec_assoc_get(s: Seq<(String, FieldValue)>, name: Seq<char>) -> Option<
    FieldValue,
>
    decreases s.len(),
{
    if s.len() == 0 {
        None
    } else if s[0].0@ == name {
        Some(s[0].1)
    } else {
        spec_assoc_get(s.drop_first(), name)
    }
}

impl Record {
    /// Looks a field up by name: the first pair that carries it.
    #[verifier::loop_isolation(false)]
    pub fn get(&self, field: &str) -> (r: Option<&FieldValue>)
        ensures
            match r {
                Some(v) => spec_assoc_get(self.fields@, field@) == Some(*v),
                None => spec_assoc_get(self.fields@, field@) is None,
            },
    {
        let n = self.fields.len();
        let mut i: usize = 0;
        proof {
            assert(self.fields@.skip(0) =~= self.fields@);
        }
        while i < n
            invariant
                i <= n == self.fields@.len(),
                spec_assoc_get(self.fields@, field@) == spec_assoc_get(
                    self.fields@.skip(i as int),
                    field@,
                ),
            decreases n - i,
        {
            let pair = slice_index_get(self.fields.as_slice(), i);
            proof {
                assert(self.fields@.skip(i as int)[0] == self.fields@[i as int]);
            }
            if str_eq(pair.0.as_str(), field) {
                return Some(&pair.1);
            }
            proof {
                assert(self.fields@.skip(i as int).drop_first() =~= self.fields@.skip(i + 1));
            }
            i = i + 1;
        }
        None
    }
}

/// The record sequence of a table: single-pass, in on-disk order.
pub struct DatabaseRecordIterator {
    pub database: Database,
    pub record_size: usize,
    pub fields: Vec<FieldDescriptor>,
    /// Set once the sequence has ended; every later step yields
    /// nothing, whatever bytes remain.
    pub done: bool,
}

impl DatabaseRecordIterator {
    /// The iterator's stride covers the marker byte plus every
    /// field, and the position stays within the bytes.
    pub open spec fn wf(self) -> bool {
        &&& self.record_size == 1 + spec_sum_lengths(self.fields@)
        &&& self.database.pos <= self.database.data@.len()
    }

    /// Decodes one row's bytes (the deletion marker already gone)
    /// into a record, dispatching each slice to its field's decoder.
    #[verifier::loop_isolation(false)]
    #[verifier::rlimit(30)]
    fn parse_row(&mut self, bytes: Vec<u8>) -> (r: Result<Record, DbfError>)
        requires
            bytes@.len() == spec_sum_lengths(old(self).fields@),
        ensures
            final(self).database == old(self).database,
            final(self).fields == old(self).fields,
            final(self).record_size == old(self).record_size,
            final(self).done == old(self).done,
            match r {
                Ok(rec) => spec_row_ok(old(self).database, old(self).fields@, bytes@)
                    && spec_record_matches(old(self).database, old(self).fields@, bytes@, rec),
                Err(e) => e == DbfError::InvalidData && !spec_row_ok(
                    old(self).database,
                    old(self).fields@,
                    bytes@,
                ),
            },
    {
        let n = self.fields.len();
        let blen = bytes.len();
        let mut out: Vec<(String, FieldValue)> = Vec::new();
        let mut off: usize = 0;
        let mut i: usize = 0;
        let ghost fds = old(self).fields@;
        let ghost db0 = old(self).database;
        proof {
            assert(fds.take(0) =~= Seq::<FieldDescriptor>::empty());
        }
        while i < n
            invariant
                i <= n == self.fields@.len(),
                self.fields == old(self).fields,
                self.fields@ == fds,
                self.database == old(self).database,
                self.database == db0,
                self.record_size == old(self).record_size,
                self.done == old(self).done,
                bytes@.len() == spec_sum_lengths(fds),
                blen == bytes@.len(),
                off == spec_field_offset(fds, i as int),
                out@.len() == i,
                forall|j: int|
                    0 <= j < i ==> (#[trigger] out@[j]).0@ == fds[j].name@ && spec_field_value(
                        db0,
                        fds[j].tag,
                        spec_field_slice(fds, bytes@, j),
                        out@[j].1,
                    ),
                forall|j: int|
                    0 <= j < i ==> spec_field_ok(
                        db0,
                        fds[j].tag,
                        #[trigger] spec_field_slice(fds, bytes@, j),
                    ),
            decreases n - i,
        {
            proof {
                lemma_sum_lengths_step(fds, i as int);
                lemma_sum_lengths_prefix(fds, i + 1);
            }
            let fd = slice_index_get(self.fields.as_slice(), i);
            let tag = fd.tag;
            let flen = fd.length as usize;
            let name = fd.name.clone();
            proof {
                assert(flen == fds[i as int].length);
                assert(off + flen == spec_sum_lengths(fds.take(i + 1)));
                assert(off + flen <= blen);
            }
            let cell = slice_to_vec(slice_subrange(bytes.as_slice(), off, off + flen));
            proof {
                assert(cell@ =~= spec_field_slice(fds, bytes@, i as int));
            }
            let decoded = match tag {
                FieldTag::Character => FieldTypeC.parse(&mut self.database, cell),
                FieldTag::Date => FieldTypeD.parse(&mut self.database, cell),
                FieldTag::Numeric => FieldTypeOldNumeric.parse(&mut self.database, cell),
                FieldTag::Logical => FieldTypeL.parse(&mut self.database, cell),
                FieldTag::Timestamp => FieldTypeT.parse(&mut self.database, cell),
                FieldTag::Integer => FieldTypeI.parse(&mut self.database, cell),
                FieldTag::Memo => FieldTypeM.parse(&mut self.database, cell),
            };
            let value = match decoded {
                Ok(v) => v,
                Err(e) => {
                    proof {
                        assert(!spec_field_ok(
                            db0,
                            fds[i as int].tag,
                            spec_field_slice(fds, bytes@, i as int),
                        ));
                    }
                    return Err(DbfError::InvalidData);
                },
            };
            out.push((name, value));
            off = off + flen;
            i = i + 1;
        }
        Ok(Record { fields: out })
    }

    /// Yields the next record: reads one stride of bytes, skips the
    /// deletion marker, and decodes the row. The sequence ends
    /// cleanly when the bytes run short, and also — silently — on the
    /// first row that fails to decode; either way it stays ended, and
    /// every later step yields nothing.
    pub fn next(&mut self) -> (r: Option<Record>)
        requires
            old(self).wf(),
        ensures
            final(self).wf(),
            final(self).database.data == old(self).database.data,
            final(self).database.memo == old(self).database.memo,
            final(self).database.header == old(self).database.header,
            final(self).database.path == old(self).database.path,
            final(self).fields == old(self).fields,
            final(self).record_size == old(self).record_size,
            r is None <==> final(self).done,
            match r {
                Some(rec) => {
                    &&& !old(self).done
                    &&& old(self).database.pos + old(self).record_size
                        <= old(self).database.data@.len()
                    &&& final(self).database.pos == old(self).database.pos + old(
                        self,
                    ).record_size
                    &&& spec_row_ok(
                        old(self).database,
                        old(self).fields@,
                        spec_row_bytes(
                            old(self).database.data@,
                            old(self).database.pos as int,
                            old(self).record_size as int,
                            0,
                        ),
                    )
                    &&& spec_record_matches(
                        old(self).database,
                        old(self).fields@,
                        spec_row_bytes(
                            old(self).database.data@,
                            old(self).database.pos as int,
                            old(self).record_size as int,
                            0,
                        ),
                        rec,
                    )
                },
                None => {
                    ||| (old(self).done && *final(self) == *old(self))
                    ||| (!old(self).done && old(self).database.pos + old(self).record_size > old(
                        self,
                    ).database.data@.len() && final(self).database.pos == old(self).database.pos)
                    ||| (!old(self).done && old(self).database.pos + old(self).record_size <= old(
                        self,
                    ).database.data@.len() && final(self).database.pos == old(self).database.pos
                        + old(self).record_size && !spec_row_ok(
                        old(self).database,
                        old(self).fields@,
                        spec_row_bytes(
                            old(self).database.data@,
                            old(self).database.pos as int,
                            old(self).record_size as int,
                            0,
                        ),
                    ))
                },
            },
    {
        if self.done {
            return None;
        }
        let rsize = self.record_size;
        proof {
            lemma_sum_lengths_prefix(self.fields@, 0);
        }
        let buf = match self.database.read_bytes(rsize) {
            Ok(b) => b,
            Err(_) => {
                self.done = true;
                return None;
            },
        };
        let row = slice_to_vec(slice_subrange(buf.as_slice(), 1, rsize));
        proof {
            let p = old(self).database.pos as int;
            let dat = old(self).database.data@;
            assert(row@ =~= dat.subrange(p + 1, p + rsize));
            assert(spec_row_bytes(dat, p, rsize as int, 0) == dat.subrange(p + 1, p + rsize)) by {
                assert(p + 0 * (rsize as int) + 1 == p + 1);
                assert(p + 1 * (rsize as int) == p + rsize);
            }
        }
        match self.parse_row(row) {
            Ok(rec) => Some(rec),
            Err(_) => {
                self.done = true;
                None
            },
        }
    }

    /// The number of whole strides the remaining bytes hold.
    pub open spec fn spec_avail_rows(self) -> int {
        (self.database.data@.len() - self.database.pos) / self.record_size as int
    }

    /// Collects every remaining record by driving [`Self::next`]
    /// until the sequence ends, so the length here is the number of
    /// records repeated `next` calls yield. The sequence is cut short
    /// only by the end of the bytes or by the first row that fails to
    /// decode. When every available row decodes and the table holds
    /// no rows beyond the advertised count, the number collected
    /// equals the advertised record count exactly when the bytes are
    /// not truncated.
    #[verifier::loop_isolation(false)]
    #[verifier::rlimit(60)]
    pub fn records(self) -> (r: Vec<Record>)
        requires
            self.wf(),
            !self.done,
        ensures
            r@.len() <= self.spec_avail_rows(),
            forall|k: int|
                0 <= k < r@.len() ==> spec_row_ok(
                    self.database,
                    self.fields@,
                    #[trigger] spec_row_bytes(
                        self.database.data@,
                        self.database.pos as int,
                        self.record_size as int,
                        k,
                    ),
                ) && spec_record_matches(
                    self.database,
                    self.fields@,
                    spec_row_bytes(
                        self.database.data@,
                        self.database.pos as int,
                        self.record_size as int,
                        k,
                    ),
                    r@[k],
                ),
            r@.len() < self.spec_avail_rows() ==> !spec_row_ok(
                self.database,
                self.fields@,
                spec_row_bytes(
                    self.database.data@,
                    self.database.pos as int,
                    self.record_size as int,
                    r@.len() as int,
                ),
            ),
            ((forall|k: int|
                0 <= k < self.spec_avail_rows() ==> spec_row_ok(
                    self.database,
                    self.fields@,
                    #[trigger] spec_row_bytes(
                        self.database.data@,
                        self.database.pos as int,
                        self.record_size as int,
                        k,
                    ),
                )) && self.spec_avail_rows() <= self.database.header.record_count) ==> ((
            r@.len() == self.database.header.record_count) <==> (self.database.pos
                + self.database.header.record_count * self.record_size
                <= self.database.data@.len())),
    {
        let ghost it0 = self;
        let ghost len: int = self.database.data@.len() as int;
        let ghost p0: int = self.database.pos as int;
        let ghost rs: int = self.record_size as int;
        let ghost avail: int = it0.spec_avail_rows();
        let mut it = self;
        let mut out: Vec<Record> = Vec::new();
        proof {
            lemma_sum_lengths_prefix(it0.fields@, 0);
            vstd::arithmetic::div_mod::lemma_fundamental_div_mod(len - p0, rs);
            vstd::arithmetic::div_mod::lemma_mod_division_less_than_divisor(len - p0, rs);
        }
        loop
            invariant
                it.wf(),
                !it.done,
                rs >= 1,
                it.fields == it0.fields,
                it.record_size == it0.record_size,
                it.database.data == it0.database.data,
                it.database.memo == it0.database.memo,
                it.database.header == it0.database.header,
                it.database.path == it0.database.path,
                it.database.pos == p0 + out@.len() * rs,
                out@.len() <= avail,
                len - p0 == rs * avail + (len - p0) % rs,
                0 <= (len - p0) % rs,
                forall|k: int|
                    0 <= k < out@.len() ==> spec_row_ok(
                        it0.database,
                        it0.fields@,
                        #[trigger] spec_row_bytes(it0.database.data@, p0, rs, k),
                    ) && spec_record_matches(
                        it0.database,
                        it0.fields@,
                        spec_row_bytes(it0.database.data@, p0, rs, k),
                        out@[k],
                    ),
            decreases len - it.database.pos,
        {
            let ghost cnt: int = out@.len() as int;
            let ghost pos_now: int = it.database.pos as int;
            match it.next() {
                Some(rec) => {
                    proof {
                        assert(pos_now + rs <= len);
                        assert((cnt + 1) * rs == cnt * rs + rs) by (nonlinear_arith);
                        assert(avail * rs == rs * avail) by (nonlinear_arith);
                        assert(cnt < avail) by {
                            if cnt >= avail {
                                assert(cnt * rs >= avail * rs) by (nonlinear_arith)
                                    requires
                                        cnt >= avail,
                                        rs >= 1,
                                ;
                            }
                        }
                        assert(spec_row_bytes(it0.database.data@, pos_now, rs, 0)
                            == spec_row_bytes(it0.database.data@, p0, rs, cnt)) by {
                            assert(pos_now == p0 + cnt * rs);
                            assert(pos_now + 0 * rs + 1 == p0 + cnt * rs + 1);
                            assert(pos_now + 1 * rs == p0 + (cnt + 1) * rs);
                        }
                    }
                    out.push(rec);
                },
                None => {
                    proof {
                        assert((cnt + 1) * rs == cnt * rs + rs) by (nonlinear_arith);
                        assert(avail * rs == rs * avail) by (nonlinear_arith);
                        if pos_now + rs > len {
                            // The bytes ran short: every whole stride was read.
                            assert(cnt == avail) by {
                                if cnt < avail {
                                    assert((cnt + 1) * rs <= avail * rs) by (nonlinear_arith)
                                        requires
                                            cnt + 1 <= avail,
                                            rs >= 1,
                                    ;
                                }
                            }
                        } else {
                            // A row failed to decode.
                            assert(cnt < avail) by {
                                if cnt >= avail {
                                    assert(cnt * rs >= avail * rs) by (nonlinear_arith)
                                        requires
                                            cnt >= avail,
                                            rs >= 1,
                                    ;
                                }
                            }
                            assert(spec_row_bytes(it0.database.data@, pos_now, rs, 0)
                                == spec_row_bytes(it0.database.data@, p0, rs, cnt)) by {
                                assert(pos_now == p0 + cnt * rs);
                                assert(pos_now + 0 * rs + 1 == p0 + cnt * rs + 1);
                                assert(pos_now + 1 * rs == p0 + (cnt + 1) * rs);
                            }
                            assert(!spec_row_ok(
                                it0.database,
                                it0.fields@,
                                spec_row_bytes(it0.database.data@, p0, rs, cnt),
                            ));
                        }
                        let rc = it0.database.header.record_count as int;
                        if (forall|k: int|
                            0 <= k < avail ==> spec_row_ok(
                                it0.database,
                                it0.fields@,
                                #[trigger] spec_row_bytes(it0.database.data@, p0, rs, k),
                            )) && avail <= rc {
                            assert(cnt == avail);
                            if cnt == rc {
                                assert(rc * rs <= len - p0) by (nonlinear_arith)
                                    requires
                                        rc == avail,
                                        rs * avail + (len - p0) % rs == len - p0,
                                        0 <= (len - p0) % rs,
                                ;
                            }
                            if p0 + rc * rs <= len {
                                assert(avail >= rc) by {
                                    if avail < rc {
                                        assert((avail + 1) * rs > rs * avail + (len - p0)
                                            % rs) by (nonlinear_arith)
                                            requires
                                                0 <= (len - p0) % rs < rs,
                                        ;
                                        assert(rc * rs >= (avail + 1) * rs) by (nonlinear_arith)
                                            requires
                                                rc >= avail + 1,
                                                rs >= 1,
                                        ;
                                    }
                                }
                            }
                        }
                    }
                    return out;
                },
            }
        }
    }
}

/// The single byte of a logical field image.
pub open spec fn logical_byte(flag: Option<bool>) -> u8 {
    match flag {
        Some(true) => 0x59,
        Some(false) => 0x4e,
        None => 0x3f,
    }
}

/// One record survives the round trip. A row holding the canonical
/// images of a text, a numeric, an integer, a logical, a date and a
/// raw memo reference — one descriptor per field-value variant the
/// images exist for — decodes back to exactly the values the images
/// were built from.
pub proof fn lemma_record_round_trip(
    db: Database,
    fds: Seq<FieldDescriptor>,
    row: Seq<u8>,
    rec: Record,
    cs: Seq<char>,
    neg: bool,
    mant: int,
    v: int,
    flag: Option<bool>,
    y: int,
    m: int,
    d: int,
    jd: int,
    ms: int,
)
    requires
        spec_record_matches(db, fds, row, rec),
        db.memo is None,
        fds.len() == 7,
        fds[0].tag == FieldTag::Character,
        fds[1].tag == FieldTag::Numeric,
        fds[2].tag == FieldTag::Integer,
        fds[3].tag == FieldTag::Logical,
        fds[4].tag == FieldTag::Date,
        fds[5].tag == FieldTag::Timestamp,
        fds[6].tag == FieldTag::Memo,
        spec_field_slice(fds, row, 0) == vstd::utf8::encode_utf8(cs),
        crate::text::clean_text(cs),
        spec_field_slice(fds, row, 1) == crate::numeric::numeric_field_bytes(neg, mant),
        0 <= mant <= u64::MAX,
        spec_field_slice(fds, row, 2) == crate::fields::int_field_bytes(v),
        -0x80000000 <= v < 0x80000000,
        spec_field_slice(fds, row, 3) == seq![logical_byte(flag)],
        spec_field_slice(fds, row, 4) == crate::fields::date_field_bytes(y, m, d),
        valid_ymd(y, m, d),
        y <= 9999,
        spec_field_slice(fds, row, 5) == crate::fields::datetime_field_bytes(jd, ms),
        0 <= jd < 0x100000000,
        0 <= ms < 86400000,
        crate::dates::julian_valid(jd),
        spec_field_slice(fds, row, 6).len() == fds[6].length,
    ensures
        rec.fields@.len() == 7,
        rec.fields@[0].1 matches FieldValue::Text(s) && s@ == cs,
        rec.fields@[1].1 == FieldValue::Numeric(
            crate::numeric::NumericValue { negative: neg, mantissa: mant as u64, scale: 0 },
        ),
        rec.fields@[2].1 == FieldValue::Integer(v as i32),
        rec.fields@[3].1 == FieldValue::Boolean(flag),
        rec.fields@[4].1 == FieldValue::Date(
            crate::dates::Date { year: y as u32, month: m as u8, day: d as u8 },
        ),
        rec.fields@[5].1 matches FieldValue::DateTime(dt) && (
        dt.date.year as int,
        dt.date.month as int,
        dt.date.day as int,
        ) == crate::dates::julian_ymd(jd) && dt.hour == ms / 3600000 && dt.minute == (ms
            % 3600000) / 60000 && dt.second == (ms % 60000) / 1000,
        rec.fields@[6].1 matches FieldValue::Unknown(u) && u@ == spec_field_slice(fds, row, 6),
{
    crate::text::lemma_text_round_trip(cs);
    assert(spec_field_value(db, fds[0].tag, spec_field_slice(fds, row, 0), rec.fields@[0].1));
    crate::numeric::lemma_numeric_round_trip_integer(neg, mant);
    assert(spec_field_value(db, fds[1].tag, spec_field_slice(fds, row, 1), rec.fields@[1].1));
    assert(rec.fields@[1].1 matches FieldValue::Numeric(n) && n.negative == neg && n.mantissa
        == mant && n.scale == 0);
    crate::fields::lemma_int_round_trip(v);
    assert(spec_field_value(db, fds[2].tag, spec_field_slice(fds, row, 2), rec.fields@[2].1));
    assert(rec.fields@[2].1 matches FieldValue::Integer(n) && n == v);
    assert(spec_field_value(db, fds[3].tag, spec_field_slice(fds, row, 3), rec.fields@[3].1));
    assert(spec_field_slice(fds, row, 3)[0] == logical_byte(flag));
    assert(rec.fields@[3].1 matches FieldValue::Boolean(x) && x == flag);
    crate::fields::lemma_date_round_trip(y, m, d);
    assert(spec_field_value(db, fds[4].tag, spec_field_slice(fds, row, 4), rec.fields@[4].1));
    assert(rec.fields@[4].1 matches FieldValue::Date(dd) && dd.year == y && dd.month == m
        && dd.day == d);
    crate::fields::lemma_datetime_round_trip(jd, ms);
    assert(spec_field_value(db, fds[5].tag, spec_field_slice(fds, row, 5), rec.fields@[5].1));
    assert(rec.fields@[5].1 matches FieldValue::DateTime(dt) && spec_datetime_value(
        spec_field_slice(fds, row, 5),
        dt,
    ));
    assert(spec_field_value(db, fds[6].tag, spec_field_slice(fds, row, 6), rec.fields@[6].1));
}

/// Each parsed descriptor stands against its own 32-byte slot of the
/// descriptor area: the one at `32 * j`.
pub proof fn lemma_fields_match_index(area: Seq<u8>, fds: Seq<FieldDescriptor>, j: int)
    requires
        spec_fields_match(area, fds),
        0 <= j < fds.len(),
    ensures
        32 * j + 32 <= area.len(),
        spec_parse_descriptor(area.subrange(32 * j, 32 * j + 32), fds[j]),
    decreases j,
{
    assert(area.take(32) =~= area.subrange(0, 32));
    if j == 0 {
    } else {
        lemma_fields_match_index(area.skip(32), fds.drop_first(), j - 1);
        assert(area.skip(32).subrange(32 * (j - 1), 32 * (j - 1) + 32) =~= area.subrange(
            32 * j,
            32 * j + 32,
        ));
        assert(fds.drop_first()[j - 1] == fds[j]);
    }
}

/// A row laid out by concatenating one image per field, each image as
/// wide as its descriptor says, slices back into exactly those images
/// — and so, by [`lemma_record_round_trip`], decodes back to the
/// values the images were built from.
pub proof fn lemma_concat_row_round_trip(
    db: Database,
    fds: Seq<FieldDescriptor>,
    rec: Record,
    cs: Seq<char>,
    neg: bool,
    mant: int,
    v: int,
    flag: Option<bool>,
    y: int,
    m: int,
    d: int,
    jd: int,
    ms: int,
    memo_ref: Seq<u8>,
)
    requires
        spec_record_matches(
            db,
            fds,
            vstd::utf8::encode_utf8(cs) + crate::numeric::numeric_field_bytes(neg, mant)
                + crate::fields::int_field_bytes(v) + seq![logical_byte(flag)]
                + crate::fields::date_field_bytes(y, m, d) + crate::fields::datetime_field_bytes(
                jd,
                ms,
            ) + memo_ref,
            rec,
        ),
        db.memo is None,
        fds.len() == 7,
        fds[0].tag == FieldTag::Character,
        fds[1].tag == FieldTag::Numeric,
        fds[2].tag == FieldTag::Integer,
        fds[3].tag == FieldTag::Logical,
        fds[4].tag == FieldTag::Date,
        fds[5].tag == FieldTag::Timestamp,
        fds[6].tag == FieldTag::Memo,
        fds[0].length == vstd::utf8::encode_utf8(cs).len(),
        fds[1].length == crate::numeric::numeric_field_bytes(neg, mant).len(),
        fds[2].length == 4,
        fds[3].length == 1,
        fds[4].length == 8,
        fds[5].length == 8,
        fds[6].length == memo_ref.len(),
        crate::text::clean_text(cs),
        0 <= mant <= u64::MAX,
        -0x80000000 <= v < 0x80000000,
        valid_ymd(y, m, d),
        y <= 9999,
        0 <= jd < 0x100000000,
        0 <= ms < 86400000,
        crate::dates::julian_valid(jd),
    ensures
        rec.fields@.len() == 7,
        rec.fields@[0].1 matches FieldValue::Text(s) && s@ == cs,
        rec.fields@[1].1 == FieldValue::Numeric(
            crate::numeric::NumericValue { negative: neg, mantissa: mant as u64, scale: 0 },
        ),
        rec.fields@[2].1 == FieldValue::Integer(v as i32),
        rec.fields@[3].1 == FieldValue::Boolean(flag),
        rec.fields@[4].1 == FieldValue::Date(
            crate::dates::Date { year: y as u32, month: m as u8, day: d as u8 },
        ),
        rec.fields@[5].1 matches FieldValue::DateTime(dt) && (
        dt.date.year as int,
        dt.date.month as int,
        dt.date.day as int,
        ) == crate::dates::julian_ymd(jd) && dt.hour == ms / 3600000 && dt.minute == (ms
            % 3600000) / 60000 && dt.second == (ms % 60000) / 1000,
        rec.fields@[6].1 matches FieldValue::Unknown(u) && u@ == memo_ref,
{
    let p0 = vstd::utf8::encode_utf8(cs);
    let p1 = crate::numeric::numeric_field_bytes(neg, mant);
    let p2 = crate::fields::int_field_bytes(v);
    let p3 = seq![logical_byte(flag)];
    let p4 = crate::fields::date_field_bytes(y, m, d);
    let p5 = crate::fields::datetime_field_bytes(jd, ms);
    let p6 = memo_ref;
    let row = p0 + p1 + p2 + p3 + p4 + p5 + p6;
    let l0 = p0.len() as int;
    let l1 = p1.len() as int;
    assert(p2.len() == 4 && p3.len() == 1 && p4.len() == 8 && p5.len() == 8);
    assert(spec_field_offset(fds, 0) == 0) by {
        assert(fds.take(0) =~= Seq::<FieldDescriptor>::empty());
    }
    lemma_sum_lengths_step(fds, 0);
    lemma_sum_lengths_step(fds, 1);
    lemma_sum_lengths_step(fds, 2);
    lemma_sum_lengths_step(fds, 3);
    lemma_sum_lengths_step(fds, 4);
    lemma_sum_lengths_step(fds, 5);
    lemma_sum_lengths_step(fds, 6);
    assert(spec_field_offset(fds, 1) == l0);
    assert(spec_field_offset(fds, 2) == l0 + l1);
    assert(spec_field_offset(fds, 3) == l0 + l1 + 4);
    assert(spec_field_offset(fds, 4) == l0 + l1 + 5);
    assert(spec_field_offset(fds, 5) == l0 + l1 + 13);
    assert(spec_field_offset(fds, 6) == l0 + l1 + 21);
    assert(spec_field_slice(fds, row, 0) =~= p0);
    assert(spec_field_slice(fds, row, 1) =~= p1);
    assert(spec_field_slice(fds, row, 2) =~= p2);
    assert(spec_field_slice(fds, row, 3) =~= p3);
    assert(spec_field_slice(fds, row, 4) =~= p4);
    assert(spec_field_slice(fds, row, 5) =~= p5);
    assert(spec_field_slice(fds, row, 6) =~= p6);
    lemma_record_round_trip(db, fds, row, rec, cs, neg, mant, v, flag, y, m, d, jd, ms);
}


/// A 32-byte descriptor slot: the name NUL-padded to eleven bytes,
/// the tag byte at 11, the length byte at 16; everything else zero.
pub open spec fn descriptor_slot(name: Seq<u8>, tag: u8, len: u8) -> Seq<u8> {
    Seq::new(
        32,
        |i: int|
            if i < 11 {
                if i < name.len() {
                    name[i]
                } else {
                    0u8
                }
            } else if i == 11 {
                tag
            } else if i == 16 {
                len
            } else {
                0u8
            },
    )
}

/// A plain field name: one to eleven visible ASCII bytes — no NUL,
/// no whitespace, nothing beyond ASCII.
pub open spec fn plain_name(name: Seq<u8>) -> bool {
    &&& 1 <= name.len() <= 11
    &&& forall|i: int| 0 <= i < name.len() ==> 0x20 < #[trigger] name[i] < 0x80
}

proof fn lemma_descriptor_slot_ok(name: Seq<u8>, tag: u8, len: u8)
    requires
        plain_name(name),
        spec_tag_of_byte(tag) is Some,
    ensures
        spec_descriptor_ok(descriptor_slot(name, tag, len)),
        name_bytes(descriptor_slot(name, tag, len).take(11)) == name,
{
    let slot = descriptor_slot(name, tag, len);
    let t11 = slot.take(11);
    let pad = Seq::new((11 - name.len()) as nat, |i: int| 0u8);
    assert(t11 =~= name + pad);
    crate::text::lemma_drop_nuls_padding(name, pad);
    assert(crate::text::drop_trailing_nuls(t11) == name);
    assert(!crate::text::is_ws_byte(name.last()));
    assert(crate::text::drop_trailing_ws(name) == name);
    assert(!crate::text::is_ws_byte(name.first()));
    assert(crate::text::drop_leading_ws(name) == name);
    crate::text::lemma_remove_nuls_id(name);
    crate::text::lemma_ascii_valid_utf8(name);
}

/// The 32-byte header of a minimal table: the version byte, the
/// last-update date 2019-09-04, record count one, and the given
/// header- and record-size words.
pub open spec fn minimal_header_bytes(version: u8, hs: int, rs: int) -> Seq<u8> {
    Seq::new(
        32,
        |i: int|
            if i == 0 {
                version
            } else if i == 1 {
                119u8
            } else if i == 2 {
                9u8
            } else if i == 3 {
                4u8
            } else if i == 4 {
                1u8
            } else if i == 8 {
                (hs % 0x100) as u8
            } else if i == 9 {
                (hs / 0x100) as u8
            } else if i == 10 {
                (rs % 0x100) as u8
            } else if i == 11 {
                (rs / 0x100) as u8
            } else {
                0u8
            },
    )
}

/// The bytes of a whole minimal table: header, descriptor slots, the
/// `0x0D` terminator, and one record — a live marker then the row.
pub open spec fn minimal_table_bytes(version: u8, slots: Seq<u8>, row: Seq<u8>) -> Seq<u8> {
    minimal_header_bytes(version, 33 + slots.len() as int, 1 + row.len() as int) + slots + seq![0x0du8, 0x20u8]
        + row
}

/// The descriptor slots of a table with one field per decodable
/// field-value variant, sized to the canonical images.
pub open spec fn p5_slots(
    n0: Seq<u8>,
    n1: Seq<u8>,
    n2: Seq<u8>,
    n3: Seq<u8>,
    n4: Seq<u8>,
    n5: Seq<u8>,
    n6: Seq<u8>,
    cs: Seq<char>,
    neg: bool,
    mant: int,
    memo_len: int,
) -> Seq<u8> {
    descriptor_slot(n0, 0x43, vstd::utf8::encode_utf8(cs).len() as u8) + descriptor_slot(
        n1,
        0x4e,
        crate::numeric::numeric_field_bytes(neg, mant).len() as u8,
    ) + descriptor_slot(n2, 0x49, 4) + descriptor_slot(n3, 0x4c, 1) + descriptor_slot(n4, 0x44, 8)
        + descriptor_slot(n5, 0x54, 8) + descriptor_slot(n6, 0x4d, memo_len as u8)
}

/// The row of canonical images, one per decodable field-value
/// variant.
pub open spec fn p5_row(
    cs: Seq<char>,
    neg: bool,
    mant: int,
    v: int,
    flag: Option<bool>,
    y: int,
    m: int,
    d: int,
    jd: int,
    ms: int,
    memo_ref: Seq<u8>,
) -> Seq<u8> {
    vstd::utf8::encode_utf8(cs) + crate::numeric::numeric_field_bytes(neg, mant)
        + crate::fields::int_field_bytes(v) + seq![logical_byte(flag)]
        + crate::fields::date_field_bytes(y, m, d) + crate::fields::datetime_field_bytes(jd, ms)
        + memo_ref
}

/// What the parsed schema of a minimal seven-field table must be:
/// the header words as built, and one descriptor per slot with the
/// slot's tag and length.
#[verifier::rlimit(100)]
#[verifier::spinoff_prover]
proof fn lemma_minimal_table_schema(
    version: u8,
    n0: Seq<u8>,
    n1: Seq<u8>,
    n2: Seq<u8>,
    n3: Seq<u8>,
    n4: Seq<u8>,
    n5: Seq<u8>,
    n6: Seq<u8>,
    h: Header,
    cs: Seq<char>,
    neg: bool,
    mant: int,
    memo_len: int,
    row: Seq<u8>,
)
    requires
        plain_name(n0),
        plain_name(n1),
        plain_name(n2),
        plain_name(n3),
        plain_name(n4),
        plain_name(n5),
        plain_name(n6),
        vstd::utf8::encode_utf8(cs).len() <= 255,
        0 <= mant <= u64::MAX,
        crate::numeric::numeric_field_bytes(neg, mant).len() <= 255,
        0 <= memo_len <= 255,
        row.len() + 1 < 0x10000,
        spec_header_match(
            minimal_table_bytes(
                version,
                p5_slots(n0, n1, n2, n3, n4, n5, n6, cs, neg, mant, memo_len),
                row,
            ),
            h,
        ),
    ensures
        ({
            let data = minimal_table_bytes(
                version,
                p5_slots(n0, n1, n2, n3, n4, n5, n6, cs, neg, mant, memo_len),
                row,
            );
            &&& spec_header_ok(data)
            &&& spec_hs(data) == 257
            &&& h.version == spec_version_from_byte(version)
            &&& h.record_count == 1
            &&& h.record_size == 1 + row.len()
            &&& h.fields@.len() == 7
            &&& h.fields@[0].tag == FieldTag::Character && h.fields@[0].length
                == vstd::utf8::encode_utf8(cs).len()
            &&& h.fields@[1].tag == FieldTag::Numeric && h.fields@[1].length
                == crate::numeric::numeric_field_bytes(neg, mant).len()
            &&& h.fields@[2].tag == FieldTag::Integer && h.fields@[2].length == 4
            &&& h.fields@[3].tag == FieldTag::Logical && h.fields@[3].length == 1
            &&& h.fields@[4].tag == FieldTag::Date && h.fields@[4].length == 8
            &&& h.fields@[5].tag == FieldTag::Timestamp && h.fields@[5].length == 8
            &&& h.fields@[6].tag == FieldTag::Memo && h.fields@[6].length == memo_len
        }),
{
    let s0 = descriptor_slot(n0, 0x43, vstd::utf8::encode_utf8(cs).len() as u8);
    let s1 = descriptor_slot(n1, 0x4e, crate::numeric::numeric_field_bytes(neg, mant).len() as u8);
    let s2 = descriptor_slot(n2, 0x49, 4);
    let s3 = descriptor_slot(n3, 0x4c, 1);
    let s4 = descriptor_slot(n4, 0x44, 8);
    let s5 = descriptor_slot(n5, 0x54, 8);
    let s6 = descriptor_slot(n6, 0x4d, memo_len as u8);
    let slots = p5_slots(n0, n1, n2, n3, n4, n5, n6, cs, neg, mant, memo_len);
    let data = minimal_table_bytes(version, slots, row);
    let rs: int = 1 + row.len() as int;
    assert(slots.len() == 224);
    assert(data.len() == 258 + row.len());
    lemma_descriptor_slot_ok(n0, 0x43, vstd::utf8::encode_utf8(cs).len() as u8);
    lemma_descriptor_slot_ok(
        n1,
        0x4e,
        crate::numeric::numeric_field_bytes(neg, mant).len() as u8,
    );
    lemma_descriptor_slot_ok(n2, 0x49, 4);
    lemma_descriptor_slot_ok(n3, 0x4c, 1);
    lemma_descriptor_slot_ok(n4, 0x44, 8);
    lemma_descriptor_slot_ok(n5, 0x54, 8);
    lemma_descriptor_slot_ok(n6, 0x4d, memo_len as u8);
    // The header words.
    assert(data[8] == 1 && data[9] == 1) by {
        assert(257int % 0x100 == 1 && 257int / 0x100 == 1);
    }
    assert(spec_hs(data) == 257);
    assert(data[1] == 119 && data[2] == 9 && data[3] == 4);
    assert(valid_ymd(1900 + data[1], data[2] as int, data[3] as int));
    assert(data[10] == rs % 0x100 && data[11] == rs / 0x100);
    assert(le16(data[10], data[11]) == rs) by {
        assert(rs == 0x100 * (rs / 0x100) + rs % 0x100);
    }
    assert(data[4] == 1 && data[5] == 0 && data[6] == 0 && data[7] == 0);
    assert(le32(data[4], data[5], data[6], data[7]) == 1);
    // The descriptor area: the slots, the terminator, and one byte
    // beyond it.
    let area = spec_area(data);
    assert(area =~= slots + seq![0x0du8, 0x20u8]);
    assert(area.subrange(0, 32) =~= s0);
    assert(area.subrange(32, 64) =~= s1);
    assert(area.subrange(64, 96) =~= s2);
    assert(area.subrange(96, 128) =~= s3);
    assert(area.subrange(128, 160) =~= s4);
    assert(area.subrange(160, 192) =~= s5);
    assert(area.subrange(192, 224) =~= s6);
    assert(area[0] == n0[0] && area[32] == n1[0] && area[64] == n2[0] && area[96] == n3[0]
        && area[128] == n4[0] && area[160] == n5[0] && area[192] == n6[0]);
    assert(area[224] == 0x0d);
    // The area parses: walk the slots back to front.
    assert(spec_area_ok(area.skip(224))) by {
        assert(area.skip(224)[0] == 0x0d);
    }
    assert(spec_area_ok(area.skip(192))) by {
        assert(area.skip(192)[0] == area[192]);
        assert(area.skip(192).take(32) =~= area.subrange(192, 224));
        assert(area.skip(192).skip(32) =~= area.skip(224));
    }
    assert(spec_area_ok(area.skip(160))) by {
        assert(area.skip(160)[0] == area[160]);
        assert(area.skip(160).take(32) =~= area.subrange(160, 192));
        assert(area.skip(160).skip(32) =~= area.skip(192));
    }
    assert(spec_area_ok(area.skip(128))) by {
        assert(area.skip(128)[0] == area[128]);
        assert(area.skip(128).take(32) =~= area.subrange(128, 160));
        assert(area.skip(128).skip(32) =~= area.skip(160));
    }
    assert(spec_area_ok(area.skip(96))) by {
        assert(area.skip(96)[0] == area[96]);
        assert(area.skip(96).take(32) =~= area.subrange(96, 128));
        assert(area.skip(96).skip(32) =~= area.skip(128));
    }
    assert(spec_area_ok(area.skip(64))) by {
        assert(area.skip(64)[0] == area[64]);
        assert(area.skip(64).take(32) =~= area.subrange(64, 96));
        assert(area.skip(64).skip(32) =~= area.skip(96));
    }
    assert(spec_area_ok(area.skip(32))) by {
        assert(area.skip(32)[0] == area[32]);
        assert(area.skip(32).take(32) =~= area.subrange(32, 64));
        assert(area.skip(32).skip(32) =~= area.skip(64));
    }
    assert(spec_area_ok(area)) by {
        assert(area.take(32) =~= area.subrange(0, 32));
        assert(area.skip(0) =~= area);
    }
    assert(spec_header_ok(data));
    // The parsed schema: seven descriptors, tags and lengths from
    // the slots.
    let fds = h.fields@;
    assert(spec_fields_match(area, fds));
    let f1 = fds.drop_first();
    let f2 = f1.drop_first();
    let f3 = f2.drop_first();
    let f4 = f3.drop_first();
    let f5 = f4.drop_first();
    let f6 = f5.drop_first();
    assert(spec_fields_match(area.skip(32), f1)) by {
        assert(area.take(32) =~= area.subrange(0, 32));
    }
    assert(spec_fields_match(area.skip(64), f2)) by {
        assert(area.skip(32).take(32) =~= area.subrange(32, 64));
        assert(area.skip(32).skip(32) =~= area.skip(64));
        assert(area.skip(32)[0] == area[32]);
    }
    assert(spec_fields_match(area.skip(96), f3)) by {
        assert(area.skip(64).take(32) =~= area.subrange(64, 96));
        assert(area.skip(64).skip(32) =~= area.skip(96));
        assert(area.skip(64)[0] == area[64]);
    }
    assert(spec_fields_match(area.skip(128), f4)) by {
        assert(area.skip(96).take(32) =~= area.subrange(96, 128));
        assert(area.skip(96).skip(32) =~= area.skip(128));
        assert(area.skip(96)[0] == area[96]);
    }
    assert(spec_fields_match(area.skip(160), f5)) by {
        assert(area.skip(128).take(32) =~= area.subrange(128, 160));
        assert(area.skip(128).skip(32) =~= area.skip(160));
        assert(area.skip(128)[0] == area[128]);
    }
    assert(spec_fields_match(area.skip(192), f6)) by {
        assert(area.skip(160).take(32) =~= area.subrange(160, 192));
        assert(area.skip(160).skip(32) =~= area.skip(192));
        assert(area.skip(160)[0] == area[160]);
    }
    assert(f6.drop_first().len() == 0) by {
        assert(area.skip(192)[0] == area[192]);
        assert(area.skip(192).len() == 34);
        assert(area.skip(192).skip(32) =~= area.skip(224));
        assert(spec_fields_match(area.skip(224), f6.drop_first()));
        assert(area.skip(224).len() == 2);
        assert(area.skip(224)[0] == 0x0d);
    }
    assert(fds.len() == 7);
    lemma_fields_match_index(area, fds, 0);
    lemma_fields_match_index(area, fds, 1);
    lemma_fields_match_index(area, fds, 2);
    lemma_fields_match_index(area, fds, 3);
    lemma_fields_match_index(area, fds, 4);
    lemma_fields_match_index(area, fds, 5);
    lemma_fields_match_index(area, fds, 6);
    assert(fds[0].tag == FieldTag::Character && fds[0].length == vstd::utf8::encode_utf8(
        cs,
    ).len()) by {
        assert(s0[11] == 0x43 && s0[16] == vstd::utf8::encode_utf8(cs).len() as u8);
    }
    assert(fds[1].tag == FieldTag::Numeric && fds[1].length
        == crate::numeric::numeric_field_bytes(neg, mant).len()) by {
        assert(s1[11] == 0x4e && s1[16] == crate::numeric::numeric_field_bytes(
            neg,
            mant,
        ).len() as u8);
    }
    assert(fds[2].tag == FieldTag::Integer && fds[2].length == 4) by {
        assert(s2[11] == 0x49 && s2[16] == 4);
    }
    assert(fds[3].tag == FieldTag::Logical && fds[3].length == 1) by {
        assert(s3[11] == 0x4c && s3[16] == 1);
    }
    assert(fds[4].tag == FieldTag::Date && fds[4].length == 8) by {
        assert(s4[11] == 0x44 && s4[16] == 8);
    }
    assert(fds[5].tag == FieldTag::Timestamp && fds[5].length == 8) by {
        assert(s5[11] == 0x54 && s5[16] == 8);
    }
    assert(fds[6].tag == FieldTag::Memo && fds[6].length == memo_len) by {
        assert(s6[11] == 0x4d && s6[16] == memo_len as u8);
    }
}

/// The whole-table round trip. Bytes built as the minimal valid
/// header, one descriptor per decodable field-value variant, and one
/// record of canonical images parse — and whatever header and record
/// the decoder's contracts admit for those bytes hold exactly the
/// values the images were built from.
#[verifier::rlimit(100)]
#[verifier::spinoff_prover]
pub proof fn lemma_minimal_table_round_trip(
    version: u8,
    n0: Seq<u8>,
    n1: Seq<u8>,
    n2: Seq<u8>,
    n3: Seq<u8>,
    n4: Seq<u8>,
    n5: Seq<u8>,
    n6: Seq<u8>,
    db: Database,
    rec: Record,
    cs: Seq<char>,
    neg: bool,
    mant: int,
    v: int,
    flag: Option<bool>,
    y: int,
    m: int,
    d: int,
    jd: int,
    ms: int,
    memo_ref: Seq<u8>,
)
    requires
        plain_name(n0),
        plain_name(n1),
        plain_name(n2),
        plain_name(n3),
        plain_name(n4),
        plain_name(n5),
        plain_name(n6),
        crate::text::clean_text(cs),
        vstd::utf8::encode_utf8(cs).len() <= 255,
        0 <= mant <= u64::MAX,
        crate::numeric::numeric_field_bytes(neg, mant).len() <= 255,
        -0x80000000 <= v < 0x80000000,
        valid_ymd(y, m, d),
        y <= 9999,
        0 <= jd < 0x100000000,
        0 <= ms < 86400000,
        crate::dates::julian_valid(jd),
        memo_ref.len() <= 255,
        spec_header_match(
            minimal_table_bytes(
                version,
                p5_slots(n0, n1, n2, n3, n4, n5, n6, cs, neg, mant, memo_ref.len() as int),
                p5_row(cs, neg, mant, v, flag, y, m, d, jd, ms, memo_ref),
            ),
            db.header,
        ),
        db.memo is None,
        spec_record_matches(
            db,
            db.header.fields@,
            spec_row_bytes(
                minimal_table_bytes(
                    version,
                    p5_slots(n0, n1, n2, n3, n4, n5, n6, cs, neg, mant, memo_ref.len() as int),
                    p5_row(cs, neg, mant, v, flag, y, m, d, jd, ms, memo_ref),
                ),
                257,
                1 + p5_row(cs, neg, mant, v, flag, y, m, d, jd, ms, memo_ref).len() as int,
                0,
            ),
            rec,
        ),
    ensures
        ({
            let data = minimal_table_bytes(
                version,
                p5_slots(n0, n1, n2, n3, n4, n5, n6, cs, neg, mant, memo_ref.len() as int),
                p5_row(cs, neg, mant, v, flag, y, m, d, jd, ms, memo_ref),
            );
            let row = p5_row(cs, neg, mant, v, flag, y, m, d, jd, ms, memo_ref);
            &&& spec_header_ok(data)
            &&& spec_hs(data) == 257
            &&& db.header.version == spec_version_from_byte(version)
            &&& db.header.record_count == 1
            &&& db.header.record_size == 1 + row.len()
            &&& db.header.fields@.len() == 7
            &&& spec_sum_lengths(db.header.fields@) == row.len()
            &&& rec.fields@.len() == 7
            &&& rec.fields@[0].1 matches FieldValue::Text(s) && s@ == cs
            &&& rec.fields@[1].1 == FieldValue::Numeric(
                crate::numeric::NumericValue { negative: neg, mantissa: mant as u64, scale: 0 },
            )
            &&& rec.fields@[2].1 == FieldValue::Integer(v as i32)
            &&& rec.fields@[3].1 == FieldValue::Boolean(flag)
            &&& rec.fields@[4].1 == FieldValue::Date(
                crate::dates::Date { year: y as u32, month: m as u8, day: d as u8 },
            )
            &&& rec.fields@[5].1 matches FieldValue::DateTime(dt) && (
            dt.date.year as int,
            dt.date.month as int,
            dt.date.day as int,
            ) == crate::dates::julian_ymd(jd) && dt.hour == ms / 3600000 && dt.minute == (ms
                % 3600000) / 60000 && dt.second == (ms % 60000) / 1000
            &&& rec.fields@[6].1 matches FieldValue::Unknown(u) && u@ == memo_ref
        }),
{
    let slots = p5_slots(n0, n1, n2, n3, n4, n5, n6, cs, neg, mant, memo_ref.len() as int);
    let row = p5_row(cs, neg, mant, v, flag, y, m, d, jd, ms, memo_ref);
    let data = minimal_table_bytes(version, slots, row);
    let rs: int = 1 + row.len() as int;
    assert(row.len() <= 786);
    lemma_minimal_table_schema(
        version,
        n0,
        n1,
        n2,
        n3,
        n4,
        n5,
        n6,
        db.header,
        cs,
        neg,
        mant,
        memo_ref.len() as int,
        row,
    );
    let fds = db.header.fields@;
    // The one record's bytes are the row.
    assert(slots.len() == 224 && data.len() == 258 + row.len());
    assert(spec_row_bytes(data, 257, rs, 0) =~= row);
    lemma_concat_row_round_trip(
        db,
        fds,
        rec,
        cs,
        neg,
        mant,
        v,
        flag,
        y,
        m,
        d,
        jd,
        ms,
        memo_ref,
    );
    // The stride equals the record-size word.
    lemma_sum_lengths_step(fds, 0);
    lemma_sum_lengths_step(fds, 1);
    lemma_sum_lengths_step(fds, 2);
    lemma_sum_lengths_step(fds, 3);
    lemma_sum_lengths_step(fds, 4);
    lemma_sum_lengths_step(fds, 5);
    lemma_sum_lengths_step(fds, 6);
    assert(fds.take(0) =~= Seq::<FieldDescriptor>::empty());
    assert(fds.take(7) =~= fds);
    assert(spec_sum_lengths(fds) == row.len());
}

/// For a table whose record-size word agrees with its schema — as it
/// does in every well-formed file — the descriptor lengths sum to the
/// record size less one, the one being the deletion-marker byte.
pub proof fn lemma_descriptor_lengths_sum(data: Seq<u8>, h: Header)
    requires
        spec_header_match(data, h),
        le16(data[10], data[11]) == 1 + spec_sum_lengths(h.fields@),
    ensures
        h.record_size == 1 + spec_sum_lengths(h.fields@),
{
}

} // verus!
