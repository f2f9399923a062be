//! Records and the ids by which they are found again.
use vstd::prelude::*;

verus! {

/// Where a record lies: the number of its page and the number of its entry
/// on that page.
#[derive(Debug)]
pub struct RecordId(pub u64, pub usize);

/// The id of the record in entry `entry_num` of page `page_num`.
pub fn new_record_id(page_num: u64, entry_num: usize) -> (r: RecordId)
    ensures
        r.0 == page_num,
        r.1 == entry_num,
{
    RecordId(page_num, entry_num)
}

/// A record of a table.
pub struct Record {}

} // verus!
