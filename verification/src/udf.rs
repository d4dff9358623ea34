//! The block-device side of the UDF reader: handles for its objects and the
//! sector arithmetic of the read and size callbacks it makes into the
//! library's disc-image reader.

use vstd::prelude::*;

verus! {

/// Opaque handle for a mounted UDF volume.
pub struct Udfread {
    _opaque: (),
}

/// Opaque handle for an open directory stream.
pub struct UdfDir {
    _opaque: (),
}

/// Opaque handle for an open file.
pub struct UdfFile {
    _opaque: (),
}

/// Number of whole 2048-byte sectors in an image of `size` bytes, kept to 32
/// bits as the UDF reader counts them.
pub fn iso_size_in_sectors(size: u64) -> (n: u32)
    ensures
        n == (size / 2048) as u32,
{
    (size / 2048) as u32
}

/// The byte range of an image read of `nblocks` sectors from sector `lba`:
/// its start and its length.
pub fn sector_read_span(lba: u32, nblocks: u32) -> (r: (u64, u64))
    ensures
        r.0 == lba as int * 2048,
        r.1 == nblocks as int * 2048,
{
    (lba as u64 * 2048, nblocks as u64 * 2048)
}

/// The number of whole sectors delivered to the UDF reader when a read of
/// `requested` bytes returned `got` bytes (at most `requested` are copied).
pub fn sectors_delivered(got: usize, requested: u64) -> (n: i32)
    ensures
        n == ((if (got as int) < (requested as int) { got as int } else { requested as int }) / 2048) as i32,
{
    let copied: u64 = if (got as u64) < requested { got as u64 } else { requested };
    (copied / 2048) as i32
}

} // verus!
