//! The error kinds the decoder reports.

use vstd::prelude::*;

verus! {

/// What went wrong while decoding.
///
/// `NotFound` stands for a missing stream or path, `InvalidData` for
/// malformed bytes (an unrecognized field tag, a bad date, an
/// unparseable numeric, a short read inside a structure), and `Io` for
/// a failure of the underlying stream. Decoding bytes held in memory
/// only ever reports `NotFound` or `InvalidData`; `Io` is mapped from
/// stream failures by the caller that owns the stream.
#[derive(Clone, Copy, Debug, PartialEq, Eq, Structural)]
pub enum DbfError {
    NotFound,
    InvalidData,
    Io,
}

} // verus!
