//! The two memo sidecar containers.
//!
//! A memo field's bytes in the row are only a reference; the payload
//! lives in a sidecar file. dBASE `.dbt` sidecars store a run of
//! fixed-size blocks ended by a `0x1A` terminator and are addressed by
//! an ASCII decimal block number; FoxPro `.fpt` sidecars store a
//! length-prefixed record and are addressed by a binary id. Both
//! containers here hold the sidecar's bytes in memory.

use vstd::prelude::*;
use crate::bytes::{
    le16,
    le32,
    be32,
    all_digits,
    digits_value,
    is_digit,
    read_u16_le,
    read_u32_le,
    read_u32_be,
    lemma_digits_value_nonneg,
    lemma_digits_value_prefix,
};
use crate::error::DbfError;
use crate::text::drop_leading_ws;

verus! {

/// A `.dbt` block size word of zero stands for the default of 512.
pub open spec fn spec_block_size(v: int) -> int {
    if v == 0 {
        512
    } else {
        v
    }
}

/// The index of the first `0x1A` terminator of `s`, or `s.len()` if
/// there is none.
pub open spec fn term_index(s: Seq<u8>) -> int
    decreases s.len(),
{
    if s.len() == 0 {
        0
    } else if s[0] == 0x1a {
        0
    } else {
        1 + term_index(s.drop_first())
    }
}

proof fn lemma_term_index_at(s: Seq<u8>, k: int)
    requires
        0 <= k <= s.len(),
        forall|i: int| 0 <= i < k ==> #[trigger] s[i] != 0x1a,
        k < s.len() ==> s[k] == 0x1a,
    ensures
        term_index(s) == k,
    decreases s.len(),
{
    if s.len() > 0 && s[0] != 0x1a {
        lemma_term_index_at(s.drop_first(), k - 1);
    }
}

/// The payload a `.dbt` container yields from byte offset `off`: the
/// bytes up to (and without) the first `0x1A` terminator, or everything
/// to the end of the sidecar if no terminator follows.
pub open spec fn dbt_payload(data: Seq<u8>, off: int) -> Seq<u8> {
    let start = if off >= data.len() {
        data.len() as int
    } else if off < 0 {
        0
    } else {
        off
    };
    let region = data.subrange(start, data.len() as int);
    region.take(term_index(region))
}

/// The block number a memo reference of a `.dbt` names: an ASCII
/// decimal with optional leading whitespace, fitting an unsigned
/// 32-bit integer.
pub open spec fn dbt_id(idb: Seq<u8>) -> Option<int> {
    let t = drop_leading_ws(idb);
    if t.len() >= 1 && all_digits(t) && digits_value(t) <= u32::MAX {
        Some(digits_value(t))
    } else {
        None
    }
}

/// The payload a `.fpt` container yields for a memo reference: the id
/// is the first four bytes little-endian; at `fragment_size * id`
/// stand four record-header bytes, a big-endian length, and that many
/// payload bytes. `None` when the reference or the record runs past
/// the sidecar's end.
pub open spec fn fpt_resolve(data: Seq<u8>, fragment_size: int, idb: Seq<u8>) -> Option<Seq<u8>> {
    if idb.len() < 4 {
        None
    } else {
        let off = fragment_size * le32(idb[0], idb[1], idb[2], idb[3]);
        if off + 8 > data.len() {
            None
        } else {
            let mlen = be32(data[off + 4], data[off + 5], data[off + 6], data[off + 7]);
            if off + 8 + mlen > data.len() {
                None
            } else {
                Some(data.subrange(off + 8, off + 8 + mlen))
            }
        }
    }
}

/// A FoxPro `.fpt` memo sidecar held in memory.
#[derive(Debug)]
pub struct FoxProMemoContainer {
    pub data: Vec<u8>,
    pub fragment_size: u32,
    pub block_size: u32,
}

impl FoxProMemoContainer {
    /// Reads the container header: little-endian block size at offset 4
    /// (zero standing for 512) and the fragment size byte at offset 7.
    pub fn from_bytes(data: Vec<u8>) -> (r: Result<FoxProMemoContainer, DbfError>)
        ensures
            match r {
                Ok(c) => data@.len() >= 8 && c.data@ == data@ && c.fragment_size == data@[7]
                    && c.block_size == spec_block_size(le16(data@[4], data@[5])),
                Err(e) => e == DbfError::InvalidData && data@.len() < 8,
            },
    {
        if data.len() < 8 {
            return Err(DbfError::InvalidData);
        }
        let bs = read_u16_le(data.as_slice(), 4);
        let block_size: u32 = if bs == 0 {
            512
        } else {
            bs as u32
        };
        let fragment_size = data[7] as u32;
        Ok(FoxProMemoContainer { data, fragment_size, block_size })
    }

    /// Resolves a memo reference against the sidecar bytes.
    pub fn memo(&mut self, id: Vec<u8>) -> (r: Result<Vec<u8>, DbfError>)
        ensures
            *final(self) == *old(self),
            match r {
                Ok(m) => fpt_resolve(old(self).data@, old(self).fragment_size as int, id@) == Some(
                    m@,
                ),
                Err(e) => e == DbfError::InvalidData && fpt_resolve(
                    old(self).data@,
                    old(self).fragment_size as int,
                    id@,
                ) is None,
            },
    {
        if id.len() < 4 {
            return Err(DbfError::InvalidData);
        }
        let idnum = read_u32_le(id.as_slice(), 0);
        proof {
            assert((self.fragment_size as u64) * (idnum as u64) <= 0xFFFFFFFFu64
                * 0xFFFFFFFFu64) by (nonlinear_arith)
                requires
                    self.fragment_size as u64 <= 0xFFFFFFFFu64,
                    idnum as u64 <= 0xFFFFFFFFu64,
            ;
        }
        let off: u64 = (self.fragment_size as u64) * (idnum as u64);
        let len: u64 = self.data.len() as u64;
        if off + 8 > len {
            return Err(DbfError::InvalidData);
        }
        let mlen = read_u32_be(self.data.as_slice(), (off as usize) + 4);
        if (mlen as u64) > len - (off + 8) {
            return Err(DbfError::InvalidData);
        }
        let start = (off as usize) + 8;
        let payload = vstd::slice::slice_to_vec(
            vstd::slice::slice_subrange(self.data.as_slice(), start, start + (mlen as usize)),
        );
        Ok(payload)
    }
}

/// A dBASE `.dbt` memo sidecar held in memory.
#[derive(Debug)]
pub struct DBaseMemoContainer {
    pub data: Vec<u8>,
    pub block_size: u32,
    pub next_available: u32,
}

impl DBaseMemoContainer {
    /// Reads the container header: little-endian next-available block
    /// at offset 0 and block size at offset 4 (zero standing for 512).
    pub fn from_bytes(data: Vec<u8>) -> (r: Result<DBaseMemoContainer, DbfError>)
        ensures
            match r {
                Ok(c) => data@.len() >= 8 && c.data@ == data@ && c.next_available == le32(
                    data@[0],
                    data@[1],
                    data@[2],
                    data@[3],
                ) && c.block_size == spec_block_size(le16(data@[4], data@[5])),
                Err(e) => e == DbfError::InvalidData && data@.len() < 8,
            },
    {
        if data.len() < 8 {
            return Err(DbfError::InvalidData);
        }
        let next_available = read_u32_le(data.as_slice(), 0);
        let bs = read_u16_le(data.as_slice(), 4);
        let block_size: u32 = if bs == 0 {
            512
        } else {
            bs as u32
        };
        Ok(DBaseMemoContainer { data, block_size, next_available })
    }

    /// Resolves a memo reference (an ASCII decimal block number)
    /// against the sidecar bytes.
    #[verifier::loop_isolation(false)]
    pub fn memo(&mut self, id: Vec<u8>) -> (r: Result<Vec<u8>, DbfError>)
        ensures
            *final(self) == *old(self),
            match r {
                Ok(m) => dbt_id(id@) matches Some(n) && m@ == dbt_payload(
                    old(self).data@,
                    old(self).block_size * n,
                ),
                Err(e) => e == DbfError::InvalidData && dbt_id(id@) is None,
            },
    {
        let ghost whole = id@;
        let ilen = id.len();
        let mut b0: usize = 0;
        proof {
            assert(whole.subrange(0, ilen as int) =~= whole);
        }
        while b0 < ilen && (id[b0] == 0x20 || (0x09 <= id[b0] && id[b0] <= 0x0d))
            invariant
                b0 <= ilen,
                drop_leading_ws(whole) == drop_leading_ws(whole.subrange(b0 as int, ilen as int)),
            decreases ilen - b0,
        {
            proof {
                assert(whole.subrange(b0 as int, ilen as int).drop_first() =~= whole.subrange(
                    b0 + 1,
                    ilen as int,
                ));
            }
            b0 = b0 + 1;
        }
        proof {
            assert(drop_leading_ws(whole.subrange(b0 as int, ilen as int)) == whole.subrange(
                b0 as int,
                ilen as int,
            ));
        }
        let ghost t = drop_leading_ws(whole);
        if b0 == ilen {
            return Err(DbfError::InvalidData);
        }
        // The block number's digits, kept within 32 bits.
        let mut acc: u64 = 0;
        let mut k: usize = b0;
        while k < ilen
            invariant
                b0 <= k <= ilen,
                acc == digits_value(t.take(k - b0)),
                acc <= u32::MAX,
                all_digits(t.take(k - b0)),
            decreases ilen - k,
        {
            let b = id[k];
            if b < 0x30 || b > 0x39 {
                proof {
                    assert(t[k - b0] == b);
                    assert(!all_digits(t));
                }
                return Err(DbfError::InvalidData);
            }
            proof {
                assert(t[k - b0] == b);
                assert(t.take(k - b0 + 1).drop_last() =~= t.take(k - b0));
                assert(digits_value(t.take(k - b0 + 1)) == acc * 10 + (b - 0x30));
            }
            if acc > ((u32::MAX as u64) - ((b - 0x30) as u64)) / 10 {
                proof {
                    if all_digits(t) {
                        lemma_digits_value_nonneg(t.take(k - b0 + 1));
                        lemma_digits_value_prefix(t, k - b0 + 1);
                        assert(digits_value(t) > u32::MAX);
                    }
                }
                return Err(DbfError::InvalidData);
            }
            acc = acc * 10 + (b - 0x30) as u64;
            k = k + 1;
        }
        proof {
            assert(t.take(ilen - b0) =~= t);
        }
        let idnum: u32 = acc as u32;
        let len = self.data.len();
        proof {
            assert((self.block_size as u64) * (idnum as u64) <= 0xFFFFFFFFu64
                * 0xFFFFFFFFu64) by (nonlinear_arith)
                requires
                    self.block_size as u64 <= 0xFFFFFFFFu64,
                    idnum as u64 <= 0xFFFFFFFFu64,
            ;
        }
        let off: u64 = (self.block_size as u64) * (idnum as u64);
        let start: usize = if off >= len as u64 {
            len
        } else {
            off as usize
        };
        let ghost region = self.data@.subrange(start as int, len as int);
        let mut e: usize = start;
        while e < len && self.data[e] != 0x1a
            invariant
                start <= e <= len == self.data@.len(),
                region == self.data@.subrange(start as int, len as int),
                forall|p: int| start <= p < e ==> #[trigger] self.data@[p] != 0x1a,
            decreases len - e,
        {
            e = e + 1;
        }
        proof {
            lemma_term_index_at(region, e - start);
            assert(region.take(e - start) =~= self.data@.subrange(start as int, e as int));
        }
        let payload = vstd::slice::slice_to_vec(
            vstd::slice::slice_subrange(self.data.as_slice(), start, e),
        );
        Ok(payload)
    }
}

/// One of the two memo sidecar variants.
#[derive(Debug)]
pub enum MemoContainer {
    DBase(DBaseMemoContainer),
    FoxPro(FoxProMemoContainer),
}

/// What resolving a memo reference against a container yields, if
/// anything.
pub open spec fn spec_resolve(mc: MemoContainer, idb: Seq<u8>) -> Option<Seq<u8>> {
    match mc {
        MemoContainer::DBase(c) => match dbt_id(idb) {
            Some(n) => Some(dbt_payload(c.data@, c.block_size * n)),
            None => None,
        },
        MemoContainer::FoxPro(c) => fpt_resolve(c.data@, c.fragment_size as int, idb),
    }
}

impl MemoContainer {
    /// Resolves a memo reference against whichever sidecar this is.
    pub fn memo(&mut self, id: Vec<u8>) -> (r: Result<Vec<u8>, DbfError>)
        ensures
            *final(self) == *old(self),
            match r {
                Ok(m) => spec_resolve(*old(self), id@) == Some(m@),
                Err(e) => e == DbfError::InvalidData && spec_resolve(*old(self), id@) is None,
            },
    {
        match self {
            MemoContainer::DBase(c) => c.memo(id),
            MemoContainer::FoxPro(c) => c.memo(id),
        }
    }
}

} // verus!
