//! Random access to a disc image.

use vstd::prelude::*;

verus! {

#[verifier::external_type_specification]
#[verifier::external_body]
pub struct ExIoError(std::io::Error);

/// Random-access reader for a disc image. Implementations should be cheap to
/// clone (wrap the inner state in `Arc`) and thread-safe. Reads are
/// synchronous: the UDF reader calls into this trait from blocking code.
pub trait ReadAt: Send + Sync {
    /// Reads `len` bytes starting at byte `offset`. May return fewer bytes
    /// than requested at the end of the image.
    fn read_at(&self, offset: u64, len: usize) -> std::io::Result<Vec<u8>>;

    /// Total size in bytes of the image.
    fn size(&self) -> u64;
}

/// The bytes of `image` from `offset` on, at most `len` of them: what a read
/// of `len` bytes at `offset` gives.
pub open spec fn image_range(image: Seq<u8>, offset: int, len: int) -> Seq<u8> {
    if offset >= image.len() {
        Seq::empty()
    } else if offset + len >= image.len() {
        image.subrange(offset, image.len() as int)
    } else {
        image.subrange(offset, offset + len)
    }
}

/// Every successful read through `f` gives the bytes of `image` asked for.
pub open spec fn reads_image<F: Fn(u64, usize) -> std::io::Result<Vec<u8>>>(f: F, image: Seq<u8>) -> bool {
    forall|offset: u64, len: usize, r: std::io::Result<Vec<u8>>|
        #[trigger] call_ensures(f, (offset, len), r) ==> (r matches Ok(v) ==> v@ == image_range(image, offset as int, len as int))
}

/// No read through `f` fails.
pub open spec fn reads_never_fail<F: Fn(u64, usize) -> std::io::Result<Vec<u8>>>(f: F) -> bool {
    forall|offset: u64, len: usize, r: std::io::Result<Vec<u8>>|
        #[trigger] call_ensures(f, (offset, len), r) ==> r is Ok
}

} // verus!
