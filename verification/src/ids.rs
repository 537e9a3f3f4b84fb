//! Interned id handles: every NeTEx id string is collapsed at parse time to a
//! 64-bit handle through a fast stable hash, so that downstream stages hold
//! and compare plain integers instead of strings.

use vstd::prelude::*;

verus! {

use vstd::string::StringSliceAdditionalSpecFns;

/// The 64-bit hash that interning applies to an id string's bytes. The same
/// bytes give the same handle in every document of a run.
pub uninterp spec fn id_hash(bytes: Seq<u8>) -> u64;

/// Relies on xxhash_rust::xxh3::xxh3_64: a pure 64-bit hash of the input
/// bytes, without seed or environment dependence.
pub assume_specification [ xxhash_rust::xxh3::xxh3_64 ] (input: &[u8]) -> (r: u64)
    ensures
        r == id_hash(input@),
;

/// Interns an id string: its handle is the hash of its UTF-8 bytes.
pub fn handle_of(s: &str) -> (r: u64)
    ensures
        r == id_hash(s.spec_bytes()),
{
    xxhash_rust::xxh3::xxh3_64(s.as_bytes())
}

} // verus!
