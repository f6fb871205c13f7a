//! Page storage for a database.

use page_store::SharedPagedData;
use std::sync::Arc;
use vstd::prelude::*;

verus! {

/// Pages shared by the readers and the writer of a database.
#[verifier::external_type_specification]
#[verifier::external_body]
pub struct ExSharedPagedData(SharedPagedData);

/// Calls `SharedPagedData::new` on a new `atom_file::MemFile`: paged data
/// kept in memory. Nothing is claimed of the result.
#[verifier::external_body]
fn new_memory_spd() -> (r: Arc<SharedPagedData>) {
    SharedPagedData::new(atom_file::MemFile::new())
}

/// Constructs test page storage. Bool result indicates whether database file
/// is newly created (it always is: the pages are kept in memory).
pub fn get_test_spd() -> (r: (bool, Arc<SharedPagedData>))
    ensures
        r.0,
{
    let spd = new_memory_spd();
    (true, spd)
}

} // verus!
