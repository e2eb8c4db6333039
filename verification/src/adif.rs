//! The outer shape of every ADIF document.
use vstd::prelude::*;

verus! {

/// An ADIF document: an optional header (`H`), then a sequence of records
/// (`R`). Reading and writing always go through this shape; the caller
/// chooses what a header and a record hold.
#[derive(Debug, PartialEq)]
pub struct Adif<H, R> {
    pub header: Option<H>,
    pub records: Vec<R>,
}

} // verus!
