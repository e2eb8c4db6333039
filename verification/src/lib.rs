//! Reading and writing ADIF (Amateur Data Interchange Format), the text
//! format in which ham radio logs are exchanged:
//!
//! ```text
//! # ADIF Header
//! <ADIF_VER:5>3.1.4<EOH>
//! <call:7>EI0IRTS<freq:7:N>14.0757<mode:3>FT8<EOR>
//! ```
//!
//! A document is an optional header and a sequence of records; the header
//! and each record are runs of `<NAME:LENGTH[:TYPE]>VALUE` fields, closed by
//! `<EOH>` and `<EOR>`.
use vstd::prelude::*;

pub mod adif;
pub mod de;
pub mod error;
pub mod laws;
pub mod number;
pub mod ser;
pub mod strings;
pub mod text;

pub use crate::adif::Adif;
pub use crate::de::{AdifDeserializer, RecordDeserializer, ValueDeserializer};
pub use crate::error::Error;
pub use crate::ser::{AdifSerializer, RecordSerializer, ValueSerializer};

verus! {

/// The closing tag of a record, as written.
pub const EOR: &'static str = "<EOR>";

/// The closing tag of the header, as written.
pub const EOH: &'static str = "<EOH>";

} // verus!
