//! The sidecar index file, whose lock is the writers' lock.

use vstd::prelude::*;
use vstd::bytes::*;
use crate::le::{read_u64_le, write_u64_le, zeros, lemma_le_round_trip};

verus! {

/// Marks a file as a log's index.
pub const INDEX_MAGIC: u64 = 0x7dab6ca4b28afdee;

/// The size the index file is given (32 KiB).
pub const INDEX_SIZE: u64 = 0x8000;

/// Whether the bytes at the start of an index file carry its magic.
pub open spec fn index_stamped(b: Seq<u8>) -> bool {
    b.len() >= 8 && spec_u64_from_le_bytes(b.subrange(0, 8)) == INDEX_MAGIC
}

/// What to store at the start of the index file, given its first bytes:
/// the magic, if they do not carry it yet.
pub fn index_stamp(header: &[u8]) -> (r: Option<Vec<u8>>)
    ensures
        r is None <==> index_stamped(header@),
        r matches Some(b) ==> b@ == spec_u64_to_le_bytes(INDEX_MAGIC),
{
    if header.len() >= 8 && read_u64_le(header, 0) == INDEX_MAGIC {
        return None;
    }
    proof {
        lemma_le_round_trip();
    }
    let mut b = zeros(8);
    write_u64_le(&mut b, 0, INDEX_MAGIC);
    assert(b@ =~= spec_u64_to_le_bytes(INDEX_MAGIC));
    Some(b)
}

} // verus!
