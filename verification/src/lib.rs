//! Codecs for a family of little-endian, magic-prefixed binary archive
//! containers: terrain blocks, terrain block objects, a model table, an
//! object-instance list and a parameter table.  Each container is parsed
//! into a header plus a record table, projected into an editable text
//! manifest with out-of-line payload blobs materialised as sidecar files,
//! and reassembled byte-faithfully from that manifest with two-pass
//! offset back-patching.
use vstd::prelude::*;

pub mod bytes;
pub mod doc;
pub mod lbf;
pub mod levelmodifier;
pub mod lf;
pub mod lof;
pub mod loi;
pub mod num;

verus! {

/// Failure kinds of the codec layer.  I/O failures belong to the caller
/// that performs the reads and writes; the codec itself never sees them.
#[derive(Clone, Copy, PartialEq, Eq, Structural, Debug)]
pub enum Error {
    /// magic mismatch or a structurally invalid header or record
    Format,
    /// manifest text malformed or schema-incompatible
    Document,
    /// a record's sidecar payload was not supplied at pack time
    MissingPayload,
}

/// One extracted payload blob, named after the sidecar file that holds
/// it outside the container.
pub struct Payload {
    pub name: String,
    pub data: Vec<u8>,
}

} // verus!
