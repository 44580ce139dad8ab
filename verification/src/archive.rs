//! Patch archives: what goes into one, and how one is applied to a store.
//!
//! An archive is a list of named entries. The entry named `ditiear.patch`
//! holds the patch list, one serialized record per patch, each behind its
//! length. Every other entry is named by the hash of a blob and holds the
//! blob's bytes: there is one for each blob that the patch list adds.
//!
//! A patch is serialized and read back outside this library. What the library
//! takes and hands out are the records as bytes.

use crate::diff::{ChangeView, DiffCollectionType, DiffFileType};
use crate::edit::myers_script;
use crate::frame::{byte_views, frame_records, framed, unframe_records, unframed};
use crate::patch::{calculate_binary_diff, diff_of_script, patch_views, BytesPatch, PatchView};
use crate::replay::{apply_patches, patched};
use crate::store::{str_eq, BlobStore, FileParseError, StoreFailure};
use crate::common::DeserializeError;
use vstd::prelude::*;
use vstd::slice::slice_to_vec;
use vstd::string::StringExecFns;

verus! {

/// One entry of a patch list. The names are hashes.
#[derive(Debug, PartialEq, Eq)]
pub enum BlobPatch {
    /// The blob is new; the archive brings its bytes.
    Add { new_file: String },
    /// The blob is no longer part of the tree. It stays in the store.
    Delete { old_file: String },
    /// The blob `new_file` comes from the blob `old_file` by `patch`.
    Replace { old_file: String, new_file: String, patch: Vec<BytesPatch> },
}

/// A patch-list entry as a mathematical value.
#[verifier::ext_equal]
pub ghost enum BlobPatchView {
    Add { new_file: Seq<char> },
    Delete { old_file: Seq<char> },
    Replace { old_file: Seq<char>, new_file: Seq<char>, patch: Seq<PatchView> },
}

impl View for BlobPatch {
    type V = BlobPatchView;

    open spec fn view(&self) -> BlobPatchView {
        match *self {
            BlobPatch::Add { new_file } => BlobPatchView::Add { new_file: new_file@ },
            BlobPatch::Delete { old_file } => BlobPatchView::Delete { old_file: old_file@ },
            BlobPatch::Replace { old_file, new_file, patch } => BlobPatchView::Replace {
                old_file: old_file@,
                new_file: new_file@,
                patch: patch_views(patch@),
            },
        }
    }
}

/// The views of a patch list, in order.
pub open spec fn blob_patch_views(patches: Seq<BlobPatch>) -> Seq<BlobPatchView> {
    patches.map_values(|p: BlobPatch| p@)
}

/// What is wrong with the records of a patch list.
#[derive(Clone, Copy, PartialEq, Eq, Debug, Structural)]
pub enum CodecFailure {
    /// There is not one serialized record for each patch.
    RecordCount,
    /// The patch list ends inside a length or inside a record.
    Truncated,
    /// A patch does not fit the blob it is for: its changes overlap or reach
    /// beyond the blob's end.
    PatchOutOfRange,
}

/// What is wrong with an archive as a container.
#[derive(Clone, Copy, PartialEq, Eq, Debug, Structural)]
pub enum ArchiveFailure {
    /// The archive has no entry named `ditiear.patch`.
    MissingPatchList,
}

/// Why an archive could not be made or applied.
#[derive(Clone, Copy, PartialEq, Eq, Debug, Structural)]
pub enum ZipFileError {
    /// A blob could not be had from the store.
    Io(StoreFailure),
    /// A manifest line could not be read.
    Parse(DeserializeError),
    /// The records of the patch list are not as they must be.
    Serialize(CodecFailure),
    /// The archive is not as it must be.
    Zip(ArchiveFailure),
}

/// The archive error that stands for an error of the tree walk.
pub open spec fn zip_error_of(e: FileParseError) -> ZipFileError {
    match e {
        FileParseError::Io(f) => ZipFileError::Io(f),
        FileParseError::Parse(d) => ZipFileError::Parse(d),
    }
}

impl ZipFileError {
    /// The archive error that stands for an error of the tree walk.
    pub fn from(e: FileParseError) -> (out: ZipFileError)
        ensures
            out == zip_error_of(e),
    {
        match e {
            FileParseError::Io(f) => ZipFileError::Io(f),
            FileParseError::Parse(d) => ZipFileError::Parse(d),
        }
    }
}

/// One entry of an archive: its name and its bytes.
#[derive(Debug, PartialEq, Eq)]
pub struct ArchiveEntry {
    pub name: String,
    pub data: Vec<u8>,
}

/// An archive entry as a mathematical value.
#[verifier::ext_equal]
pub ghost struct EntryView {
    pub name: Seq<char>,
    pub data: Seq<u8>,
}

impl View for ArchiveEntry {
    type V = EntryView;

    open spec fn view(&self) -> EntryView {
        EntryView { name: self.name@, data: self.data@ }
    }
}

/// The views of a list of entries, in order.
pub open spec fn entry_views(entries: Seq<ArchiveEntry>) -> Seq<EntryView> {
    entries.map_values(|e: ArchiveEntry| e@)
}

/// The name of the entry that holds the patch list.
pub open spec fn patch_list_name() -> Seq<char> {
    seq!['d', 'i', 't', 'i', 'e', 'a', 'r', '.', 'p', 'a', 't', 'c', 'h']
}

/// The name of the entry that holds the patch list.
pub fn patch_list_entry_name() -> (name: &'static str)
    ensures
        name@ == patch_list_name(),
{
    proof {
        reveal_strlit("ditiear.patch");
    }
    let name = "ditiear.patch";
    assert(name@ =~= patch_list_name());
    name
}

/// The patch that one change becomes. An addition and a deletion stay what
/// they are. A modified file becomes a replacement that carries the byte diff
/// of the two blobs; a modified directory becomes a replacement that carries
/// no byte patch.
pub open spec fn blob_patch_of(store: Map<Seq<char>, Seq<u8>>, c: ChangeView) -> Result<
    BlobPatchView,
    FileParseError,
> {
    match c {
        ChangeView::Add { value, .. } => Ok(BlobPatchView::Add { new_file: value }),
        ChangeView::Delete { value, .. } => Ok(BlobPatchView::Delete { old_file: value }),
        ChangeView::Modify { kind, old, new } => if kind == DiffFileType::Directory {
            Ok(BlobPatchView::Replace { old_file: old, new_file: new, patch: seq![] })
        } else if !store.contains_key(old) || !store.contains_key(new) {
            Err(FileParseError::Io(StoreFailure::Missing))
        } else {
            Ok(
                BlobPatchView::Replace {
                    old_file: old,
                    new_file: new,
                    patch: diff_of_script(myers_script(store[old], store[new]), store[old], store[new]),
                },
            )
        },
    }
}

/// The patch list that a change list becomes, in the same order.
pub open spec fn blob_patches_of(store: Map<Seq<char>, Seq<u8>>, changes: Seq<ChangeView>) -> Result<
    Seq<BlobPatchView>,
    FileParseError,
>
    decreases changes.len(),
{
    if changes.len() == 0 {
        Ok(seq![])
    } else {
        match blob_patches_of(store, changes.drop_last()) {
            Err(e) => Err(e),
            Ok(before) => match blob_patch_of(store, changes.last()) {
                Err(e) => Err(e),
                Ok(p) => Ok(before.push(p)),
            },
        }
    }
}

impl BlobPatch {
    /// Turns a change list into a patch list, in the same order. The blobs of
    /// a modified file are taken from `store`.
    pub fn from(diffs: &Vec<DiffCollectionType>, store: &BlobStore) -> (res: Result<
        Vec<BlobPatch>,
        FileParseError,
    >)
        ensures
            match res {
                Ok(patches) => blob_patches_of(store@, crate::diff::change_views(diffs@)) == Ok::<
                    Seq<BlobPatchView>,
                    FileParseError,
                >(blob_patch_views(patches@)),
                Err(e) => blob_patches_of(store@, crate::diff::change_views(diffs@)) == Err::<
                    Seq<BlobPatchView>,
                    FileParseError,
                >(e),
            },
    {
        let ghost all = crate::diff::change_views(diffs@);
        let mut result: Vec<BlobPatch> = Vec::new();
        let mut i: usize = 0;
        assert(all.subrange(0, 0) =~= Seq::<ChangeView>::empty());
        assert(blob_patch_views(result@) =~= Seq::<BlobPatchView>::empty());
        while i < diffs.len()
            invariant
                i <= diffs.len(),
                all == crate::diff::change_views(diffs@),
                blob_patches_of(store@, all.subrange(0, i as int)) == Ok::<
                    Seq<BlobPatchView>,
                    FileParseError,
                >(blob_patch_views(result@)),
            decreases diffs.len() - i,
        {
            let ghost before = blob_patch_views(result@);
            proof {
                assert(all.subrange(0, i + 1).drop_last() =~= all.subrange(0, i as int));
                assert(all.subrange(0, i + 1).last() == diffs@[i as int]@);
            }
            let patch = match &diffs[i] {
                DiffCollectionType::Add { value, .. } => BlobPatch::Add { new_file: value.clone() },
                DiffCollectionType::Delete { value, .. } => BlobPatch::Delete {
                    old_file: value.clone(),
                },
                DiffCollectionType::Modify { kind, old, new } => {
                    if *kind == DiffFileType::Directory {
                        let none: Vec<BytesPatch> = Vec::new();
                        assert(patch_views(none@) =~= Seq::<PatchView>::empty());
                        BlobPatch::Replace { old_file: old.clone(), new_file: new.clone(), patch: none }
                    } else {
                        let old_bytes = match store.get(old.as_str()) {
                            Some(bytes) => bytes,
                            None => {
                                proof {
                                    lemma_blob_patches_fail(store@, all, i as int);
                                }
                                return Err(FileParseError::Io(StoreFailure::Missing));
                            },
                        };
                        let new_bytes = match store.get(new.as_str()) {
                            Some(bytes) => bytes,
                            None => {
                                proof {
                                    lemma_blob_patches_fail(store@, all, i as int);
                                }
                                return Err(FileParseError::Io(StoreFailure::Missing));
                            },
                        };
                        let patch = calculate_binary_diff(
                            slice_to_vec(old_bytes),
                            slice_to_vec(new_bytes),
                        );
                        BlobPatch::Replace { old_file: old.clone(), new_file: new.clone(), patch }
                    }
                },
            };
            assert(blob_patch_of(store@, diffs@[i as int]@) == Ok::<BlobPatchView, FileParseError>(
                patch@,
            ));
            result.push(patch);
            assert(blob_patch_views(result@) =~= before.push(patch@));
            i = i + 1;
        }
        assert(all.subrange(0, diffs.len() as int) =~= all);
        Ok(result)
    }
}

/// Where the change at `i` cannot be turned into a patch, the whole list
/// cannot, and the error is that change's, provided all before it can.
proof fn lemma_blob_patches_fail(store: Map<Seq<char>, Seq<u8>>, changes: Seq<ChangeView>, i: int)
    requires
        0 <= i < changes.len(),
        blob_patches_of(store, changes.subrange(0, i)) is Ok,
        blob_patch_of(store, changes[i]) is Err,
    ensures
        blob_patches_of(store, changes) == Err::<Seq<BlobPatchView>, FileParseError>(
            blob_patch_of(store, changes[i])->Err_0,
        ),
    decreases changes.len() - i,
{
    let upto = changes.subrange(0, i + 1);
    assert(upto.drop_last() =~= changes.subrange(0, i));
    assert(upto.last() == changes[i]);
    assert(blob_patches_of(store, upto) == Err::<Seq<BlobPatchView>, FileParseError>(
        blob_patch_of(store, changes[i])->Err_0,
    ));
    lemma_blob_patches_stay_failed(store, changes, i + 1);
}

/// Once the first changes of a list cannot be turned into patches, the whole
/// list cannot, with the same error.
proof fn lemma_blob_patches_stay_failed(
    store: Map<Seq<char>, Seq<u8>>,
    changes: Seq<ChangeView>,
    upto: int,
)
    requires
        0 <= upto <= changes.len(),
        blob_patches_of(store, changes.subrange(0, upto)) is Err,
    ensures
        blob_patches_of(store, changes) == blob_patches_of(store, changes.subrange(0, upto)),
    decreases changes.len() - upto,
{
    if upto == changes.len() {
        assert(changes.subrange(0, upto) =~= changes);
    } else {
        assert(changes.subrange(0, upto + 1).drop_last() =~= changes.subrange(0, upto));
        lemma_blob_patches_stay_failed(store, changes, upto + 1);
    }
}

/// `entries` in front of what came after them.
pub open spec fn entries_then(
    entries: Seq<EntryView>,
    rest: Result<Seq<EntryView>, ZipFileError>,
) -> Result<Seq<EntryView>, ZipFileError> {
    match rest {
        Ok(more) => Ok(entries + more),
        Err(e) => Err(e),
    }
}

/// The entries that bring the blobs which a patch list adds: one for each
/// addition, in the list's order, named by the blob's hash.
pub open spec fn added_entries(store: Map<Seq<char>, Seq<u8>>, patches: Seq<BlobPatchView>) -> Result<
    Seq<EntryView>,
    ZipFileError,
>
    decreases patches.len(),
{
    if patches.len() == 0 {
        Ok(seq![])
    } else {
        match patches[0] {
            BlobPatchView::Add { new_file } => if !store.contains_key(new_file) {
                Err(ZipFileError::Io(StoreFailure::Missing))
            } else {
                entries_then(
                    seq![EntryView { name: new_file, data: store[new_file] }],
                    added_entries(store, patches.drop_first()),
                )
            },
            _ => added_entries(store, patches.drop_first()),
        }
    }
}

/// The entries of the archive for a patch list: none for an empty list; else
/// the patch list itself, made of the serialized records, and behind it the
/// blobs that the list adds.
pub open spec fn archive_of(
    store: Map<Seq<char>, Seq<u8>>,
    patches: Seq<BlobPatchView>,
    records: Seq<Seq<u8>>,
) -> Result<Seq<EntryView>, ZipFileError> {
    if patches.len() == 0 {
        Ok(seq![])
    } else if records.len() != patches.len() {
        Err(ZipFileError::Serialize(CodecFailure::RecordCount))
    } else {
        entries_then(
            seq![EntryView { name: patch_list_name(), data: framed(records) }],
            added_entries(store, patches),
        )
    }
}

proof fn lemma_entries_then_twice(
    a: Seq<EntryView>,
    b: Seq<EntryView>,
    rest: Result<Seq<EntryView>, ZipFileError>,
)
    ensures
        entries_then(a, entries_then(b, rest)) == entries_then(a + b, rest),
{
    match rest {
        Ok(more) => {
            assert(a + (b + more) =~= (a + b) + more);
        },
        Err(_) => {},
    }
}

/// Lays out the archive for a patch list. `records` holds the patches in
/// serialized form, one for each patch and in the same order. An empty patch
/// list gives no entry at all: then no archive is to be written.
pub fn create_zip_patch(patchs: &Vec<BlobPatch>, records: &Vec<Vec<u8>>, store: &BlobStore) -> (res:
    Result<Vec<ArchiveEntry>, ZipFileError>)
    ensures
        match res {
            Ok(entries) => archive_of(store@, blob_patch_views(patchs@), byte_views(records@))
                == Ok::<Seq<EntryView>, ZipFileError>(entry_views(entries@)),
            Err(e) => archive_of(store@, blob_patch_views(patchs@), byte_views(records@)) == Err::<
                Seq<EntryView>,
                ZipFileError,
            >(e),
        },
{
    let ghost all = blob_patch_views(patchs@);
    let mut entries: Vec<ArchiveEntry> = Vec::new();
    if patchs.len() == 0 {
        assert(entry_views(entries@) =~= Seq::<EntryView>::empty());
        return Ok(entries);
    }
    if records.len() != patchs.len() {
        return Err(ZipFileError::Serialize(CodecFailure::RecordCount));
    }
    entries.push(
        ArchiveEntry { name: String::from_str(patch_list_entry_name()), data: frame_records(records) },
    );
    let ghost head = seq![
        EntryView { name: patch_list_name(), data: framed(byte_views(records@)) },
    ];
    let ghost total = added_entries(store@, all);
    let ghost mut done: Seq<EntryView> = seq![];
    let mut i: usize = 0;
    proof {
        assert(entry_views(entries@) =~= head);
        assert(all.subrange(0, all.len() as int) =~= all);
        match total {
            Ok(more) => {
                assert(done + more =~= more);
            },
            Err(_) => {},
        }
    }
    while i < patchs.len()
        invariant
            i <= patchs.len(),
            all == blob_patch_views(patchs@),
            total == added_entries(store@, all),
            archive_of(store@, all, byte_views(records@)) == entries_then(head, total),
            total == entries_then(
                done,
                added_entries(store@, all.subrange(i as int, all.len() as int)),
            ),
            entry_views(entries@) =~= head + done,
        decreases patchs.len() - i,
    {
        let ghost rest = all.subrange(i as int, all.len() as int);
        let ghost so_far = entry_views(entries@);
        proof {
            assert(rest[0] == patchs@[i as int]@);
            assert(rest.drop_first() =~= all.subrange(i + 1, all.len() as int));
        }
        match &patchs[i] {
            BlobPatch::Add { new_file } => {
                let bytes = match store.get(new_file.as_str()) {
                    Some(bytes) => bytes,
                    None => {
                        return Err(ZipFileError::Io(StoreFailure::Missing));
                    },
                };
                let entry = ArchiveEntry { name: new_file.clone(), data: slice_to_vec(bytes) };
                proof {
                    lemma_entries_then_twice(
                        done,
                        seq![entry@],
                        added_entries(store@, all.subrange(i + 1, all.len() as int)),
                    );
                    done = done + seq![entry@];
                }
                let ghost pushed = entry@;
                entries.push(entry);
                assert(entry_views(entries@) =~= so_far.push(pushed));
                assert(entry_views(entries@) =~= head + done);
            },
            _ => {},
        }
        i = i + 1;
    }
    proof {
        assert(all.subrange(i as int, all.len() as int) =~= Seq::<BlobPatchView>::empty());
        assert(done + Seq::<EntryView>::empty() =~= done);
        assert(total == Ok::<Seq<EntryView>, ZipFileError>(done));
    }
    Ok(entries)
}

/// The entry holds the patch list.
pub open spec fn is_patch_list(e: EntryView) -> bool {
    e.name == patch_list_name()
}

/// The store after the blobs of an archive have been written into it: every
/// entry but the patch list, in order, under its name, unless the store held
/// a blob under that name already.
pub open spec fn unpacked_store(store: Map<Seq<char>, Seq<u8>>, entries: Seq<EntryView>) -> Map<
    Seq<char>,
    Seq<u8>,
>
    decreases entries.len(),
{
    if entries.len() == 0 {
        store
    } else {
        let before = unpacked_store(store, entries.drop_last());
        if is_patch_list(entries.last()) || before.contains_key(entries.last().name) {
            before
        } else {
            before.insert(entries.last().name, entries.last().data)
        }
    }
}

/// `records` in front of what came after them.
pub open spec fn records_then(
    records: Seq<Seq<u8>>,
    rest: Result<Seq<Seq<u8>>, ZipFileError>,
) -> Result<Seq<Seq<u8>>, ZipFileError> {
    match rest {
        Ok(more) => Ok(records + more),
        Err(e) => Err(e),
    }
}

/// The serialized records of the patch-list entries among `entries`.
pub open spec fn patch_records(entries: Seq<EntryView>) -> Result<Seq<Seq<u8>>, ZipFileError>
    decreases entries.len(),
{
    if entries.len() == 0 {
        Ok(seq![])
    } else if !is_patch_list(entries[0]) {
        patch_records(entries.drop_first())
    } else {
        match unframed(entries[0].data) {
            None => Err(ZipFileError::Serialize(CodecFailure::Truncated)),
            Some(records) => records_then(records, patch_records(entries.drop_first())),
        }
    }
}

/// `entries` has an entry that holds the patch list.
pub open spec fn has_patch_list(entries: Seq<EntryView>) -> bool {
    exists|i: int| 0 <= i < entries.len() && is_patch_list(#[trigger] entries[i])
}

/// The serialized records of an archive's patch list.
pub open spec fn unpacked_records(entries: Seq<EntryView>) -> Result<Seq<Seq<u8>>, ZipFileError> {
    match patch_records(entries) {
        Err(e) => Err(e),
        Ok(records) => if has_patch_list(entries) {
            Ok(records)
        } else {
            Err(ZipFileError::Zip(ArchiveFailure::MissingPatchList))
        },
    }
}

proof fn lemma_records_then_twice(
    a: Seq<Seq<u8>>,
    b: Seq<Seq<u8>>,
    rest: Result<Seq<Seq<u8>>, ZipFileError>,
)
    ensures
        records_then(a, records_then(b, rest)) == records_then(a + b, rest),
{
    match rest {
        Ok(more) => {
            assert(a + (b + more) =~= (a + b) + more);
        },
        Err(_) => {},
    }
}

proof fn lemma_unpacked_store_grows(store: Map<Seq<char>, Seq<u8>>, entries: Seq<EntryView>)
    ensures
        forall|k: Seq<char>| #[trigger]
            store.dom().contains(k) ==> unpacked_store(store, entries).dom().contains(k)
                && unpacked_store(store, entries)[k] == store[k],
        store.submap_of(unpacked_store(store, entries)),
    decreases entries.len(),
{
    if entries.len() > 0 {
        lemma_unpacked_store_grows(store, entries.drop_last());
    }
}

/// Takes an archive apart. First every blob that the archive brings is
/// written into the store, each under its name and only if the store holds
/// nothing under that name. Then the patch list is cut into its serialized
/// records, which are returned. The blobs are written even where the patch
/// list cannot be read.
pub fn unpack_patch(entries: &Vec<ArchiveEntry>, store: &mut BlobStore) -> (res: Result<
    Vec<Vec<u8>>,
    ZipFileError,
>)
    ensures
        final(store)@ == unpacked_store(old(store)@, entry_views(entries@)),
        old(store)@.submap_of(final(store)@),
        match res {
            Ok(records) => unpacked_records(entry_views(entries@)) == Ok::<
                Seq<Seq<u8>>,
                ZipFileError,
            >(byte_views(records@)),
            Err(e) => unpacked_records(entry_views(entries@)) == Err::<Seq<Seq<u8>>, ZipFileError>(
                e,
            ),
        },
{
    let ghost all = entry_views(entries@);
    let name = patch_list_entry_name();
    let mut i: usize = 0;
    assert(all.subrange(0, 0) =~= Seq::<EntryView>::empty());
    while i < entries.len()
        invariant
            i <= entries.len(),
            all == entry_views(entries@),
            name@ == patch_list_name(),
            store@ == unpacked_store(old(store)@, all.subrange(0, i as int)),
        decreases entries.len() - i,
    {
        proof {
            assert(all.subrange(0, i + 1).drop_last() =~= all.subrange(0, i as int));
            assert(all.subrange(0, i + 1).last() == entries@[i as int]@);
        }
        if !str_eq(entries[i].name.as_str(), name) {
            store.put_if_absent(entries[i].name.clone(), slice_to_vec(entries[i].data.as_slice()));
        }
        i = i + 1;
    }
    proof {
        assert(all.subrange(0, entries.len() as int) =~= all);
        lemma_unpacked_store_grows(old(store)@, all);
    }
    let mut records: Vec<Vec<u8>> = Vec::new();
    let mut seen = false;
    let mut k: usize = 0;
    let ghost total = patch_records(all);
    proof {
        assert(all.subrange(0, all.len() as int) =~= all);
        match total {
            Ok(more) => {
                assert(byte_views(records@) + more =~= more);
            },
            Err(_) => {},
        }
    }
    while k < entries.len()
        invariant
            k <= entries.len(),
            all == entry_views(entries@),
            name@ == patch_list_name(),
            total == patch_records(all),
            store@ == unpacked_store(old(store)@, all),
            old(store)@.submap_of(store@),
            total == records_then(
                byte_views(records@),
                patch_records(all.subrange(k as int, all.len() as int)),
            ),
            seen == exists|j: int| 0 <= j < k && is_patch_list(#[trigger] all[j]),
        decreases entries.len() - k,
    {
        let ghost rest = all.subrange(k as int, all.len() as int);
        let ghost so_far = byte_views(records@);
        proof {
            assert(rest[0] == entries@[k as int]@);
            assert(rest.drop_first() =~= all.subrange(k + 1, all.len() as int));
        }
        if str_eq(entries[k].name.as_str(), name) {
            let mut found = match unframe_records(entries[k].data.as_slice()) {
                Some(found) => found,
                None => {
                    return Err(ZipFileError::Serialize(CodecFailure::Truncated));
                },
            };
            proof {
                lemma_records_then_twice(
                    so_far,
                    byte_views(found@),
                    patch_records(all.subrange(k + 1, all.len() as int)),
                );
            }
            let ghost added = byte_views(found@);
            records.append(&mut found);
            assert(byte_views(records@) =~= so_far + added);
            assert(is_patch_list(all[k as int]));
            seen = true;
        } else {
            assert(!is_patch_list(all[k as int]));
        }
        k = k + 1;
    }
    proof {
        assert(all.subrange(k as int, all.len() as int) =~= Seq::<EntryView>::empty());
        assert(byte_views(records@) + Seq::<Seq<u8>>::empty() =~= byte_views(records@));
    }
    if !seen {
        return Err(ZipFileError::Zip(ArchiveFailure::MissingPatchList));
    }
    Ok(records)
}

/// What a map holds it still holds after a new key has been put into a map
/// that holds all of it.
pub proof fn lemma_submap_insert(
    small: Map<Seq<char>, Seq<u8>>,
    large: Map<Seq<char>, Seq<u8>>,
    key: Seq<char>,
    value: Seq<u8>,
)
    requires
        small.submap_of(large),
        !large.contains_key(key),
    ensures
        small.submap_of(large.insert(key, value)),
{
    let grown = large.insert(key, value);
    assert(large.submap_of(grown));
    vstd::map_lib::lemma_submap_of_trans(small, large, grown);
}

/// The store after a patch list has been applied to it. An addition asks
/// that the blob is there. A deletion does nothing. A replacement replays
/// its byte patch on the old blob and writes what comes out under the new
/// hash, unless the store holds a blob under that hash already.
pub open spec fn applied(store: Map<Seq<char>, Seq<u8>>, patches: Seq<BlobPatchView>) -> Result<
    Map<Seq<char>, Seq<u8>>,
    ZipFileError,
>
    decreases patches.len(),
{
    if patches.len() == 0 {
        Ok(store)
    } else {
        match patches[0] {
            BlobPatchView::Add { new_file } => if !store.contains_key(new_file) {
                Err(ZipFileError::Io(StoreFailure::Missing))
            } else {
                applied(store, patches.drop_first())
            },
            BlobPatchView::Delete { .. } => applied(store, patches.drop_first()),
            BlobPatchView::Replace { old_file, new_file, patch } => if !store.contains_key(
                old_file,
            ) {
                Err(ZipFileError::Io(StoreFailure::Missing))
            } else {
                match patched(store[old_file], patch) {
                    None => Err(ZipFileError::Serialize(CodecFailure::PatchOutOfRange)),
                    Some(bytes) => applied(
                        if store.contains_key(new_file) {
                            store
                        } else {
                            store.insert(new_file, bytes)
                        },
                        patches.drop_first(),
                    ),
                }
            },
        }
    }
}

/// Applies a patch list to a store. Blobs are added to the store and none is
/// changed or taken away, also where this fails half way.
pub fn apply_patchs(patchs: &Vec<BlobPatch>, store: &mut BlobStore) -> (res: Result<(), ZipFileError>)
    ensures
        old(store)@.submap_of(final(store)@),
        match res {
            Ok(_) => applied(old(store)@, blob_patch_views(patchs@)) == Ok::<
                Map<Seq<char>, Seq<u8>>,
                ZipFileError,
            >(final(store)@),
            Err(e) => applied(old(store)@, blob_patch_views(patchs@)) == Err::<
                Map<Seq<char>, Seq<u8>>,
                ZipFileError,
            >(e),
        },
{
    let ghost all = blob_patch_views(patchs@);
    let ghost total = applied(store@, all);
    let mut i: usize = 0;
    assert(all.subrange(0, all.len() as int) =~= all);
    while i < patchs.len()
        invariant
            i <= patchs.len(),
            all == blob_patch_views(patchs@),
            total == applied(old(store)@, all),
            total == applied(store@, all.subrange(i as int, all.len() as int)),
            old(store)@.submap_of(store@),
        decreases patchs.len() - i,
    {
        let ghost rest = all.subrange(i as int, all.len() as int);
        proof {
            assert(rest[0] == patchs@[i as int]@);
            assert(rest.drop_first() =~= all.subrange(i + 1, all.len() as int));
        }
        match &patchs[i] {
            BlobPatch::Add { new_file } => {
                if !store.contains(new_file.as_str()) {
                    return Err(ZipFileError::Io(StoreFailure::Missing));
                }
            },
            BlobPatch::Delete { .. } => {},
            BlobPatch::Replace { old_file, new_file, patch } => {
                let rebuilt = match store.get(old_file.as_str()) {
                    None => {
                        return Err(ZipFileError::Io(StoreFailure::Missing));
                    },
                    Some(bytes) => match apply_patches(bytes, patch) {
                        None => {
                            return Err(ZipFileError::Serialize(CodecFailure::PatchOutOfRange));
                        },
                        Some(rebuilt) => rebuilt,
                    },
                };
                let ghost before = store@;
                let ghost content = rebuilt@;
                store.put_if_absent(new_file.clone(), rebuilt);
                proof {
                    if !before.contains_key(new_file@) {
                        lemma_submap_insert(old(store)@, before, new_file@, content);
                    }
                }
            },
        }
        i = i + 1;
    }
    assert(all.subrange(i as int, all.len() as int) =~= Seq::<BlobPatchView>::empty());
    Ok(())
}

/// Applying a patch list takes nothing out of the store and changes no blob.
pub proof fn lemma_applied_keeps(store: Map<Seq<char>, Seq<u8>>, patches: Seq<BlobPatchView>)
    requires
        applied(store, patches) is Ok,
    ensures
        store.submap_of(applied(store, patches)->Ok_0),
    decreases patches.len(),
{
    if patches.len() > 0 {
        let rest = patches.drop_first();
        match patches[0] {
            BlobPatchView::Replace { old_file, new_file, patch } => {
                let bytes = patched(store[old_file], patch)->0;
                if store.contains_key(new_file) {
                    lemma_applied_keeps(store, rest);
                } else {
                    let grown = store.insert(new_file, bytes);
                    lemma_applied_keeps(grown, rest);
                    assert(store.submap_of(grown));
                    vstd::map_lib::lemma_submap_of_trans(store, grown, applied(grown, rest)->Ok_0);
                }
            },
            _ => {
                lemma_applied_keeps(store, rest);
            },
        }
    }
}

/// After a patch list has been applied, the store holds every blob that the
/// list adds and every blob that it makes from another.
pub proof fn lemma_applied_holds_what_is_new(
    store: Map<Seq<char>, Seq<u8>>,
    patches: Seq<BlobPatchView>,
    i: int,
)
    requires
        applied(store, patches) is Ok,
        0 <= i < patches.len(),
    ensures
        patches[i] matches BlobPatchView::Add { new_file } ==> (applied(
            store,
            patches,
        )->Ok_0).contains_key(new_file),
        patches[i] matches BlobPatchView::Replace { new_file, .. } ==> (applied(
            store,
            patches,
        )->Ok_0).contains_key(new_file),
    decreases patches.len(),
{
    let rest = patches.drop_first();
    let next = match patches[0] {
        BlobPatchView::Replace { old_file, new_file, patch } => if store.contains_key(new_file) {
            store
        } else {
            store.insert(new_file, patched(store[old_file], patch)->0)
        },
        _ => store,
    };
    assert(applied(store, patches) == applied(next, rest));
    if i == 0 {
        lemma_applied_keeps(next, rest);
        let after = applied(next, rest)->Ok_0;
        match patches[0] {
            BlobPatchView::Add { new_file } => {
                assert(next.dom().contains(new_file));
                assert(after.dom().contains(new_file));
            },
            BlobPatchView::Replace { new_file, .. } => {
                assert(next.dom().contains(new_file));
                assert(after.dom().contains(new_file));
            },
            _ => {},
        }
    } else {
        assert(rest[i - 1] == patches[i]);
        lemma_applied_holds_what_is_new(next, rest, i - 1);
    }
}

/// The patch for a modified file, applied to a store that holds the old blob
/// as the store it was made from did, and nothing yet under the new hash,
/// puts the new blob there byte for byte.
pub proof fn lemma_replacement_rebuilds_the_new_blob(
    source: Map<Seq<char>, Seq<u8>>,
    target: Map<Seq<char>, Seq<u8>>,
    old: Seq<char>,
    new: Seq<char>,
)
    requires
        source.contains_key(old),
        source.contains_key(new),
        target.contains_key(old),
        target[old] == source[old],
        !target.contains_key(new),
    ensures
        blob_patch_of(source, ChangeView::Modify { kind: DiffFileType::File, old, new }) is Ok,
        applied(
            target,
            seq![
                blob_patch_of(source, ChangeView::Modify { kind: DiffFileType::File, old, new })->Ok_0,
            ],
        ) == Ok::<Map<Seq<char>, Seq<u8>>, ZipFileError>(target.insert(new, source[new])),
{
    let patch = blob_patch_of(source, ChangeView::Modify { kind: DiffFileType::File, old, new })->Ok_0;
    let one = seq![patch];
    crate::replay::lemma_diff_replays(myers_script(source[old], source[new]), source[old], source[new]);
    assert(one.drop_first() =~= Seq::<BlobPatchView>::empty());
    assert(applied(target.insert(new, source[new]), Seq::<BlobPatchView>::empty()) == Ok::<
        Map<Seq<char>, Seq<u8>>,
        ZipFileError,
    >(target.insert(new, source[new])));
}

/// Every entry that brings an added blob is named by a hash that the store
/// holds and carries the bytes that the store holds under it; and there is
/// such an entry for every addition of the patch list.
pub proof fn lemma_added_entries_carry_the_blobs(
    store: Map<Seq<char>, Seq<u8>>,
    patches: Seq<BlobPatchView>,
)
    requires
        added_entries(store, patches) is Ok,
    ensures
        forall|k: int|
            0 <= k < (added_entries(store, patches)->Ok_0).len() ==> store.contains_key(
                (#[trigger] (added_entries(store, patches)->Ok_0)[k]).name,
            ) && (added_entries(store, patches)->Ok_0)[k].data == store[(added_entries(
                store,
                patches,
            )->Ok_0)[k].name],
        forall|i: int|
            0 <= i < patches.len() && (#[trigger] patches[i]) is Add ==> exists|k: int|
                0 <= k < (added_entries(store, patches)->Ok_0).len() && (#[trigger] (added_entries(
                    store,
                    patches,
                )->Ok_0)[k]).name == patches[i]->Add_new_file,
    decreases patches.len(),
{
    let entries = added_entries(store, patches)->Ok_0;
    if patches.len() > 0 {
        let rest = patches.drop_first();
        lemma_added_entries_carry_the_blobs(store, rest);
        let more = added_entries(store, rest)->Ok_0;
        match patches[0] {
            BlobPatchView::Add { new_file } => {
                let first = EntryView { name: new_file, data: store[new_file] };
                assert(entries =~= seq![first] + more);
                assert forall|k: int| 0 <= k < entries.len() implies store.contains_key(
                    (#[trigger] entries[k]).name,
                ) && entries[k].data == store[entries[k].name] by {
                    if k > 0 {
                        assert(entries[k] == more[k - 1]);
                    }
                }
                assert forall|i: int| 0 <= i < patches.len() && (#[trigger] patches[i]) is Add implies exists|
                    k: int,
                |
                    0 <= k < entries.len() && (#[trigger] entries[k]).name
                        == patches[i]->Add_new_file by {
                    if i == 0 {
                        assert(entries[0].name == new_file);
                    } else {
                        assert(rest[i - 1] == patches[i]);
                        let k = choose|k: int|
                            0 <= k < more.len() && (#[trigger] more[k]).name
                                == rest[i - 1]->Add_new_file;
                        assert(entries[k + 1] == more[k]);
                    }
                }
            },
            _ => {
                assert(entries == more);
                assert forall|i: int| 0 <= i < patches.len() && (#[trigger] patches[i]) is Add implies exists|
                    k: int,
                |
                    0 <= k < entries.len() && (#[trigger] entries[k]).name
                        == patches[i]->Add_new_file by {
                    assert(i > 0);
                    assert(rest[i - 1] == patches[i]);
                    let k = choose|k: int|
                        0 <= k < more.len() && (#[trigger] more[k]).name
                            == rest[i - 1]->Add_new_file;
                    assert(entries[k] == more[k]);
                }
            },
        }
    }
}

/// After an archive has been taken apart, the store holds something under the
/// name of every entry but the patch list; and where all those entries carry
/// the bytes that `source` holds under their names, a blob that the store did
/// not hold before is there with the bytes of `source`.
pub proof fn lemma_unpacked_store_takes_the_blobs(
    target: Map<Seq<char>, Seq<u8>>,
    entries: Seq<EntryView>,
    source: Map<Seq<char>, Seq<u8>>,
    k: int,
)
    requires
        0 <= k < entries.len(),
        !is_patch_list(entries[k]),
        forall|j: int|
            0 <= j < entries.len() && !is_patch_list(#[trigger] entries[j]) ==> source.contains_key(
                entries[j].name,
            ) && entries[j].data == source[entries[j].name],
    ensures
        unpacked_store(target, entries).contains_key(entries[k].name),
        !target.contains_key(entries[k].name) ==> unpacked_store(target, entries)[entries[k].name]
            == source[entries[k].name],
    decreases entries.len(),
{
    let front = entries.drop_last();
    let last = entries.last();
    let before = unpacked_store(target, front);
    let name = entries[k].name;
    assert forall|j: int| 0 <= j < front.len() && !is_patch_list(#[trigger] front[j]) implies source.contains_key(
        front[j].name,
    ) && front[j].data == source[front[j].name] by {
        assert(front[j] == entries[j]);
    }
    if k < entries.len() - 1 {
        assert(front[k] == entries[k]);
        lemma_unpacked_store_takes_the_blobs(target, front, source, k);
    } else {
        if before.contains_key(name) && !target.contains_key(name) {
            lemma_unpacked_blob_comes_from_an_entry(target, front, name);
            let j = choose|j: int|
                0 <= j < front.len() && !is_patch_list(#[trigger] front[j]) && front[j].name == name;
            lemma_unpacked_store_takes_the_blobs(target, front, source, j);
        }
    }
}

/// A blob that is in the store after an archive has been taken apart, and was
/// not there before, was brought by one of the archive's entries.
pub proof fn lemma_unpacked_blob_comes_from_an_entry(
    target: Map<Seq<char>, Seq<u8>>,
    entries: Seq<EntryView>,
    name: Seq<char>,
)
    requires
        unpacked_store(target, entries).contains_key(name),
        !target.contains_key(name),
    ensures
        exists|j: int|
            0 <= j < entries.len() && !is_patch_list(#[trigger] entries[j]) && entries[j].name
                == name,
    decreases entries.len(),
{
    if entries.len() > 0 {
        let front = entries.drop_last();
        let last = entries.last();
        if unpacked_store(target, front).contains_key(name) {
            lemma_unpacked_blob_comes_from_an_entry(target, front, name);
            let j = choose|j: int|
                0 <= j < front.len() && !is_patch_list(#[trigger] front[j]) && front[j].name == name;
            assert(entries[j] == front[j]);
        } else {
            assert(entries[entries.len() - 1] == last);
            assert(!is_patch_list(last) && last.name == name);
        }
    }
}

/// A blob that a patch list adds travels with the archive: after the archive
/// has been taken apart, the store holds a blob under its hash, and if it held
/// none before, with the bytes of the store that the archive was made from.
pub proof fn lemma_added_blob_travels(
    source: Map<Seq<char>, Seq<u8>>,
    target: Map<Seq<char>, Seq<u8>>,
    patches: Seq<BlobPatchView>,
    records: Seq<Seq<u8>>,
    i: int,
)
    requires
        archive_of(source, patches, records) is Ok,
        0 <= i < patches.len(),
        patches[i] is Add,
        patches[i]->Add_new_file != patch_list_name(),
    ensures
        unpacked_store(target, archive_of(source, patches, records)->Ok_0).contains_key(
            patches[i]->Add_new_file,
        ),
        !target.contains_key(patches[i]->Add_new_file) ==> unpacked_store(
            target,
            archive_of(source, patches, records)->Ok_0,
        )[patches[i]->Add_new_file] == source[patches[i]->Add_new_file],
{
    let hash = patches[i]->Add_new_file;
    let entries = archive_of(source, patches, records)->Ok_0;
    let blobs = added_entries(source, patches)->Ok_0;
    lemma_added_entries_carry_the_blobs(source, patches);
    let list = EntryView { name: patch_list_name(), data: framed(records) };
    assert(entries =~= seq![list] + blobs);
    let k = choose|k: int| 0 <= k < blobs.len() && (#[trigger] blobs[k]).name == hash;
    assert(entries[k + 1] == blobs[k]);
    assert forall|j: int| 0 <= j < entries.len() && !is_patch_list(#[trigger] entries[j]) implies source.contains_key(
        entries[j].name,
    ) && entries[j].data == source[entries[j].name] by {
        if j > 0 {
            assert(entries[j] == blobs[j - 1]);
        }
    }
    lemma_unpacked_store_takes_the_blobs(target, entries, source, k + 1);
}

} // verus!
