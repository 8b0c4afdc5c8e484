//! A read-only decoder for the dBASE/FoxPro family of tabular database
//! files: the `.dbf` table container together with its optional memo
//! sidecars (`.dbt` and `.fpt`).
//!
//! The library works on bytes held in memory. Opening files and handing
//! their contents to the decoder is left to the caller.

pub mod bytes;
pub mod dates;
pub mod error;
pub mod fields;
pub mod header;
pub mod memo;
pub mod numeric;
pub mod text;

pub use error::DbfError;
pub use fields::FieldValue;
