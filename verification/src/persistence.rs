//! Snapshots of the full engine state (graph with its topology, and the vector index),
//! and the rule that refuses a snapshot written by the other vector backend. The JSON
//! encoding and the file itself are handled around the library.
use vstd::prelude::*;
use crate::graph_nexus::MemoryGraphNexus;
use crate::keys::str_equal;
use crate::text::concat_str;
use crate::vector_index::{SimpleVectorIndex, CAPI_INDEX_KIND};

verus! {

/// Format version, so that later changes can migrate old snapshots deliberately.
pub const SNAPSHOT_VERSION: u32 = 1;

/// The backend recorded by snapshots written before the field existed: they were always
/// f32, the only backend the C ABI had at the time.
pub fn default_index_kind() -> (r: String)
    ensures
        r@ == "f32"@,
{
    "f32".to_owned()
}

/// The message refusing a snapshot whose vector index was written by backend `kind`.
pub open spec fn kind_mismatch(kind: Seq<char>) -> Seq<char> {
    "snapshot vector index is '"@ + kind + "', this build is '"@ + CAPI_INDEX_KIND@
        + "' — rebuild with the matching capi-int8 feature or re-embed the corpus"@
}

fn kind_mismatch_message(kind: &str) -> (m: String)
    ensures
        m@ == kind_mismatch(kind@),
{
    let m = concat_str("snapshot vector index is '".to_owned(), kind);
    let m = concat_str(m, "', this build is '");
    let m = concat_str(m, CAPI_INDEX_KIND);
    concat_str(m, "' — rebuild with the matching capi-int8 feature or re-embed the corpus")
}

/// The full engine state.
pub struct Snapshot {
    pub version: u32,
    pub nexus: MemoryGraphNexus,
    pub index: Option<SimpleVectorIndex>,
    /// Which vector backend wrote this snapshot: `"f32"` or `"int8"`. The two encodings are
    /// not interchangeable, so a foreign one is refused.
    pub index_kind: String,
}

/// A snapshot may be used by this build: it carries no vector index, or one written by
/// this build's backend.
pub open spec fn kind_ok(s: Snapshot) -> bool {
    s.index is None || s.index_kind@ == CAPI_INDEX_KIND@
}

/// The error text of a checked load whose decoding failed with `e`: the backend mismatch
/// when the header names another backend, the decoder's message otherwise.
pub open spec fn load_error(e: Seq<char>, header_kind: Option<String>) -> Seq<char> {
    match header_kind {
        Some(k) => if k@ != CAPI_INDEX_KIND@ {
            kind_mismatch(k@)
        } else {
            e
        },
        None => e,
    }
}

impl Snapshot {
    /// A snapshot of this build, at the current format version.
    pub fn new(nexus: MemoryGraphNexus, index: Option<SimpleVectorIndex>) -> (s: Self)
        ensures
            s.version == SNAPSHOT_VERSION,
            s.nexus == nexus,
            s.index == index,
            s.index_kind@ == CAPI_INDEX_KIND@,
            kind_ok(s),
    {
        Snapshot { version: SNAPSHOT_VERSION, nexus, index, index_kind: CAPI_INDEX_KIND.to_owned() }
    }

    /// Refuses a snapshot written by the other backend before its contents are trusted. A
    /// snapshot without a vector index is portable: nothing in it is backend-specific.
    pub fn check_index_kind(&self) -> (r: Result<(), String>)
        ensures
            r is Ok <==> kind_ok(*self),
            r matches Err(m) ==> m@ == kind_mismatch(self.index_kind@),
    {
        if self.index.is_none() || str_equal(self.index_kind.as_str(), CAPI_INDEX_KIND) {
            Ok(())
        } else {
            Err(kind_mismatch_message(self.index_kind.as_str()))
        }
    }

    /// A checked load: a decoded snapshot passes only if its backend matches; when
    /// decoding failed and the header names the other backend, the error says so instead of
    /// repeating the decoder's message. `parsed` is the outcome of decoding the whole
    /// snapshot (its error as text); `header_kind` is the backend that the header names, or
    /// `None` when not even the header decodes.
    pub fn checked(parsed: Result<Snapshot, String>, header_kind: Option<String>) -> (r: Result<Snapshot, String>)
        ensures
            match parsed {
                Ok(s) => if kind_ok(s) {
                    r == Ok::<Snapshot, String>(s)
                } else {
                    r matches Err(m) && m@ == kind_mismatch(s.index_kind@)
                },
                Err(e) => r matches Err(m) && m@ == load_error(e@, header_kind),
            },
    {
        match parsed {
            Ok(s) => match s.check_index_kind() {
                Ok(()) => Ok(s),
                Err(m) => Err(m),
            },
            Err(e) => match header_kind {
                Some(k) => if !str_equal(k.as_str(), CAPI_INDEX_KIND) {
                    Err(kind_mismatch_message(k.as_str()))
                } else {
                    Err(e)
                },
                None => Err(e),
            },
        }
    }
}

} // verus!
