//! Checksums of page images.
use vstd::prelude::*;

verus! {

/// The CRC-32 checksum of `data`, as `crc32fast` computes it.
pub uninterp spec fn crc32_of(data: Seq<u8>) -> u32;

/// The checksum of `data`, computed by `crc32fast::hash`. The contract
/// gives the result its name and says nothing more of it.
#[verifier::external_body]
pub(crate) fn crc32(data: &[u8]) -> (r: u32)
    ensures
        r == crc32_of(data@),
{
    crc32fast::hash(data)
}

/// Whether the checksum computed anew is the one that was recorded.
pub fn same_crc(new_crc: u32, crc: u32) -> (r: bool)
    ensures
        r == (new_crc == crc),
{
    new_crc == crc
}

/// Whether `crc` is the checksum of `data`.
pub fn is_same(data: &[u8], crc: u32) -> (r: bool)
    ensures
        r == (crc32_of(data@) == crc),
{
    let new_crc: u32 = crc32(data);
    same_crc(new_crc, crc)
}

} // verus!
