//! What most callers need, under one path, and the way from two root hashes to
//! a patch list in one call.

pub use crate::archive::{apply_patchs, create_zip_patch, unpack_patch, BlobPatch, ZipFileError};
pub use crate::diff::compare_blob_files;
pub use crate::patch::{calculate_binary_diff, BytesPatch};

use crate::archive::{blob_patch_views, blob_patches_of, zip_error_of, BlobPatchView};
use crate::diff::tree_diff;
use crate::store::BlobStore;
use vstd::prelude::*;

verus! {

/// The patch list that leads from the snapshot with root manifest `old` to the
/// one with root manifest `new`: the changes between the two, each turned into
/// a patch.
pub open spec fn diff_patch_of(
    store: Map<Seq<char>, Seq<u8>>,
    blobs: nat,
    old: Seq<char>,
    new: Seq<char>,
) -> Result<Seq<BlobPatchView>, ZipFileError> {
    match tree_diff(store, blobs, old, new) {
        Err(e) => Err(zip_error_of(e)),
        Ok(changes) => match blob_patches_of(store, changes) {
            Err(e) => Err(zip_error_of(e)),
            Ok(patches) => Ok(patches),
        },
    }
}

/// Makes the patch list that leads from the snapshot with root manifest `old`
/// to the one with root manifest `new`, both held in `store`. The list is
/// empty exactly when nothing is to be done; then no archive is to be written.
pub fn create_diff_patch(old: &str, new: &str, store: &BlobStore) -> (res: Result<
    Vec<BlobPatch>,
    ZipFileError,
>)
    ensures
        match res {
            Ok(patches) => diff_patch_of(store@, store.count(), old@, new@) == Ok::<
                Seq<BlobPatchView>,
                ZipFileError,
            >(blob_patch_views(patches@)),
            Err(e) => diff_patch_of(store@, store.count(), old@, new@) == Err::<
                Seq<BlobPatchView>,
                ZipFileError,
            >(e),
        },
{
    let diffs = match compare_blob_files(old, new, store) {
        Ok(diffs) => diffs,
        Err(e) => {
            return Err(ZipFileError::from(e));
        },
    };
    match BlobPatch::from(&diffs, store) {
        Ok(patches) => Ok(patches),
        Err(e) => Err(ZipFileError::from(e)),
    }
}

} // verus!
