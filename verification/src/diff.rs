//! The tree differ: what changed between two snapshots of a directory tree.
//!
//! Two root manifests are compared level by level. Of each pair of
//! directories the entries are matched by name and kind. A file whose hash
//! changed is a modification; a directory whose hash changed is looked into at
//! the next level; an entry on one side alone is a deletion or an addition,
//! and if it is a directory, so is everything below it. At the end an addition
//! and a deletion of the same blob cancel: the blob has only moved.

use crate::common::{kind_word, DiffBlob, DiffBlobType, RecordView};
use crate::store::{
    manifest_records, read_manifest, record_views, str_eq, BlobStore, FileParseError,
    StoreFailure,
};
use vstd::prelude::*;
use vstd::string::StringExecFns;

pub use crate::patch::calculate_binary_diff;
pub use crate::patch::BytesPatch as Patch;

verus! {

/// Whether a change is about a file or about a directory.
#[derive(Clone, Copy, PartialEq, Eq, Debug, Structural)]
pub enum DiffFileType {
    Directory,
    File,
}

/// The word that a kind of change is written as.
pub open spec fn file_type_word(kind: DiffFileType) -> Seq<char> {
    match kind {
        DiffFileType::Directory => seq!['D', 'i', 'r', 'e', 'c', 't', 'o', 'r', 'y'],
        DiffFileType::File => seq!['F', 'i', 'l', 'e'],
    }
}

impl DiffFileType {
    /// The word that this kind is written as.
    pub fn as_str(&self) -> (word: &'static str)
        ensures
            word@ == file_type_word(*self),
    {
        match self {
            DiffFileType::Directory => {
                proof {
                    reveal_strlit("Directory");
                }
                let word = "Directory";
                assert(word@ =~= file_type_word(DiffFileType::Directory));
                word
            },
            DiffFileType::File => {
                proof {
                    reveal_strlit("File");
                }
                let word = "File";
                assert(word@ =~= file_type_word(DiffFileType::File));
                word
            },
        }
    }

    /// The word that this kind is written as, as an owned string.
    pub fn to_string(&self) -> (word: String)
        ensures
            word@ == file_type_word(*self),
    {
        String::from_str(self.as_str())
    }
}

/// One change between two snapshots. `value`, `old` and `new` are hashes.
#[derive(Debug, PartialEq, Eq)]
pub enum DiffCollectionType {
    /// The blob is in the new snapshot and not in the old.
    Add { kind: DiffFileType, value: String },
    /// The blob is in the old snapshot and not in the new.
    Delete { kind: DiffFileType, value: String },
    /// The entry is in both, with another content.
    Modify { kind: DiffFileType, old: String, new: String },
}

/// A change as a mathematical value.
#[verifier::ext_equal]
pub ghost enum ChangeView {
    Add { kind: DiffFileType, value: Seq<char> },
    Delete { kind: DiffFileType, value: Seq<char> },
    Modify { kind: DiffFileType, old: Seq<char>, new: Seq<char> },
}

impl View for DiffCollectionType {
    type V = ChangeView;

    open spec fn view(&self) -> ChangeView {
        match *self {
            DiffCollectionType::Add { kind, value } => ChangeView::Add { kind, value: value@ },
            DiffCollectionType::Delete { kind, value } => ChangeView::Delete { kind, value: value@ },
            DiffCollectionType::Modify { kind, old, new } => ChangeView::Modify {
                kind,
                old: old@,
                new: new@,
            },
        }
    }
}

/// The views of a list of changes, in order.
pub open spec fn change_views(changes: Seq<DiffCollectionType>) -> Seq<ChangeView> {
    changes.map_values(|c: DiffCollectionType| c@)
}

/// Two directories that are to be compared: the hash of the old manifest and
/// that of the new.
pub type HashPair = (Seq<char>, Seq<char>);

/// The views of a list of pairs of hashes, in order.
pub open spec fn pair_views(pairs: Seq<(String, String)>) -> Seq<HashPair> {
    pairs.map_values(|p: (String, String)| (p.0@, p.1@))
}

/// The key under which an addition or a deletion is told from others: the
/// hash followed by the kind's word. A modification has none.
pub open spec fn movement_key(c: ChangeView) -> Option<Seq<char>> {
    match c {
        ChangeView::Add { kind, value } => Some(value + file_type_word(kind)),
        ChangeView::Delete { kind, value } => Some(value + file_type_word(kind)),
        ChangeView::Modify { .. } => None,
    }
}

/// The key under which an entry of a directory is told from the others: the
/// name followed by the kind's word, so that a file and a directory of one
/// name are two entries.
pub open spec fn entry_key(r: RecordView) -> Seq<char> {
    r.name + kind_word(r.kind)
}

/// The keys of two entries are the same exactly when their names and their
/// kinds are.
pub proof fn lemma_entry_key_tells(a: RecordView, b: RecordView)
    ensures
        entry_key(a) == entry_key(b) <==> a.name == b.name && a.kind == b.kind,
{
    let ka = entry_key(a);
    let kb = entry_key(b);
    if a.name == b.name && a.kind == b.kind {
    } else if a.kind == b.kind {
        if ka == kb {
            assert(a.name =~= ka.subrange(0, a.name.len() as int));
            assert(b.name =~= kb.subrange(0, b.name.len() as int));
            assert(a.name.len() == b.name.len());
        }
    } else {
        assert(ka.last() == kind_word(a.kind).last());
        assert(kb.last() == kind_word(b.kind).last());
    }
}

/// The keys of two additions, or of two deletions, are the same exactly when
/// their hashes and their kinds are.
pub proof fn lemma_movement_key_tells(
    kind_a: DiffFileType,
    value_a: Seq<char>,
    kind_b: DiffFileType,
    value_b: Seq<char>,
)
    ensures
        value_a + file_type_word(kind_a) == value_b + file_type_word(kind_b) <==> value_a
            == value_b && kind_a == kind_b,
{
    let ka = value_a + file_type_word(kind_a);
    let kb = value_b + file_type_word(kind_b);
    if value_a == value_b && kind_a == kind_b {
    } else if kind_a == kind_b {
        if ka == kb {
            assert(value_a =~= ka.subrange(0, value_a.len() as int));
            assert(value_b =~= kb.subrange(0, value_b.len() as int));
            assert(value_a.len() == value_b.len());
        }
    } else {
        assert(ka.last() == file_type_word(kind_a).last());
        assert(kb.last() == file_type_word(kind_b).last());
    }
}

/// Where in `entries` the first entry with the given name and kind stands.
pub open spec fn find_entry(entries: Seq<RecordView>, name: Seq<char>, kind: DiffBlobType) -> Option<
    int,
>
    decreases entries.len(),
{
    if entries.len() == 0 {
        None
    } else if entries[0].name == name && entries[0].kind == kind {
        Some(0)
    } else {
        match find_entry(entries.drop_first(), name, kind) {
            Some(i) => Some(i + 1),
            None => None,
        }
    }
}

/// The entries of a manifest as a map by key, kept as a list: where two
/// records have the same key, the later one takes the earlier one's place.
pub open spec fn keyed(records: Seq<RecordView>) -> Seq<RecordView>
    decreases records.len(),
{
    if records.len() == 0 {
        seq![]
    } else {
        let before = keyed(records.drop_last());
        let last = records.last();
        match find_entry(before, last.name, last.kind) {
            Some(i) => before.update(i, last),
            None => before.push(last),
        }
    }
}

/// The change that marks one blob as added or as deleted.
pub open spec fn mark(add: bool, kind: DiffFileType, hash: Seq<char>) -> ChangeView {
    if add {
        ChangeView::Add { kind, value: hash }
    } else {
        ChangeView::Delete { kind, value: hash }
    }
}

/// The marks for the files among `records`, in order.
pub open spec fn file_marks(records: Seq<RecordView>, add: bool) -> Seq<ChangeView>
    decreases records.len(),
{
    if records.len() == 0 {
        seq![]
    } else {
        let before = file_marks(records.drop_last(), add);
        if records.last().kind == DiffBlobType::File {
            before.push(mark(add, DiffFileType::File, records.last().hash))
        } else {
            before
        }
    }
}

/// The hashes of the directories among `records`, the last one first.
pub open spec fn sub_directories(records: Seq<RecordView>) -> Seq<Seq<char>>
    decreases records.len(),
{
    if records.len() == 0 {
        seq![]
    } else {
        let rest = sub_directories(records.drop_last());
        if records.last().kind == DiffBlobType::Directory {
            seq![records.last().hash] + rest
        } else {
            rest
        }
    }
}

/// `changes` in front of what came after them.
pub open spec fn changes_then(
    changes: Seq<ChangeView>,
    rest: Result<Seq<ChangeView>, FileParseError>,
) -> Result<Seq<ChangeView>, FileParseError> {
    match rest {
        Ok(cs) => Ok(changes + cs),
        Err(e) => Err(e),
    }
}

/// Everything in and below the directory with manifest `hash`, marked as
/// added or as deleted: the directory itself, then its files in the
/// manifest's order, then what is below its directories, the last directory
/// first. `fuel` bounds how many directories may lead into one another.
pub open spec fn walk(
    store: Map<Seq<char>, Seq<u8>>,
    hash: Seq<char>,
    add: bool,
    fuel: nat,
) -> Result<Seq<ChangeView>, FileParseError>
    decreases fuel, 0nat,
{
    if !store.contains_key(hash) {
        Err(FileParseError::Io(StoreFailure::Missing))
    } else {
        match manifest_records(store[hash]) {
            Err(e) => Err(e),
            Ok(records) => if fuel == 0 {
                Err(FileParseError::Io(StoreFailure::TooDeep))
            } else {
                changes_then(
                    seq![mark(add, DiffFileType::Directory, hash)] + file_marks(records, add),
                    walk_all(store, sub_directories(records), add, (fuel - 1) as nat),
                )
            },
        }
    }
}

/// The walks of several directories, one after the other.
pub open spec fn walk_all(
    store: Map<Seq<char>, Seq<u8>>,
    hashes: Seq<Seq<char>>,
    add: bool,
    fuel: nat,
) -> Result<Seq<ChangeView>, FileParseError>
    decreases fuel, hashes.len() + 1,
{
    if hashes.len() == 0 {
        Ok(seq![])
    } else {
        match walk(store, hashes[0], add, fuel) {
            Err(e) => Err(e),
            Ok(cs) => changes_then(cs, walk_all(store, hashes.drop_first(), add, fuel)),
        }
    }
}

/// What comparing directories gives: the changes found, and the pairs of
/// directories that are to be compared next.
pub type Findings = (Seq<ChangeView>, Seq<HashPair>);

/// `found` in front of what came after.
pub open spec fn findings_then(found: Findings, rest: Result<Findings, FileParseError>) -> Result<
    Findings,
    FileParseError,
> {
    match rest {
        Ok(more) => Ok((found.0 + more.0, found.1 + more.1)),
        Err(e) => Err(e),
    }
}

/// What one entry of the old directory gives, held against the new one.
pub open spec fn old_entry_findings(
    store: Map<Seq<char>, Seq<u8>>,
    entry: RecordView,
    new_entries: Seq<RecordView>,
    fuel: nat,
) -> Result<Findings, FileParseError> {
    match find_entry(new_entries, entry.name, entry.kind) {
        Some(i) => {
            let other = new_entries[i];
            if entry.hash == other.hash {
                Ok((seq![], seq![]))
            } else if entry.kind == DiffBlobType::File {
                Ok(
                    (
                        seq![
                            ChangeView::Modify {
                                kind: DiffFileType::File,
                                old: entry.hash,
                                new: other.hash,
                            },
                        ],
                        seq![],
                    ),
                )
            } else {
                Ok((seq![], seq![(entry.hash, other.hash)]))
            }
        },
        None => if entry.kind == DiffBlobType::File {
            Ok((seq![mark(false, DiffFileType::File, entry.hash)], seq![]))
        } else {
            match walk(store, entry.hash, false, fuel) {
                Ok(cs) => Ok((cs, seq![])),
                Err(e) => Err(e),
            }
        },
    }
}

/// What the entries of the old directory give, one after the other.
pub open spec fn old_side_findings(
    store: Map<Seq<char>, Seq<u8>>,
    old_entries: Seq<RecordView>,
    new_entries: Seq<RecordView>,
    fuel: nat,
) -> Result<Findings, FileParseError>
    decreases old_entries.len(),
{
    if old_entries.len() == 0 {
        Ok((seq![], seq![]))
    } else {
        match old_entry_findings(store, old_entries[0], new_entries, fuel) {
            Err(e) => Err(e),
            Ok(found) => findings_then(
                found,
                old_side_findings(store, old_entries.drop_first(), new_entries, fuel),
            ),
        }
    }
}

/// What one entry of the new directory gives: nothing if the old directory
/// has an entry of that name and kind, else an addition.
pub open spec fn new_entry_changes(
    store: Map<Seq<char>, Seq<u8>>,
    entry: RecordView,
    old_entries: Seq<RecordView>,
    fuel: nat,
) -> Result<Seq<ChangeView>, FileParseError> {
    if find_entry(old_entries, entry.name, entry.kind) is Some {
        Ok(seq![])
    } else if entry.kind == DiffBlobType::File {
        Ok(seq![mark(true, DiffFileType::File, entry.hash)])
    } else {
        walk(store, entry.hash, true, fuel)
    }
}

/// What the entries of the new directory give, one after the other.
pub open spec fn new_side_changes(
    store: Map<Seq<char>, Seq<u8>>,
    new_entries: Seq<RecordView>,
    old_entries: Seq<RecordView>,
    fuel: nat,
) -> Result<Seq<ChangeView>, FileParseError>
    decreases new_entries.len(),
{
    if new_entries.len() == 0 {
        Ok(seq![])
    } else {
        match new_entry_changes(store, new_entries[0], old_entries, fuel) {
            Err(e) => Err(e),
            Ok(cs) => changes_then(
                cs,
                new_side_changes(store, new_entries.drop_first(), old_entries, fuel),
            ),
        }
    }
}

/// What comparing one pair of directories gives: the modification of the
/// directory itself, then what the old entries give, then what the new ones
/// give. `depth_left` says whether another level may still be looked into,
/// `fuel` bounds the walks below added and deleted directories.
#[verifier::opaque]
pub open spec fn pair_findings(
    store: Map<Seq<char>, Seq<u8>>,
    pair: HashPair,
    depth_left: nat,
    fuel: nat,
) -> Result<Findings, FileParseError> {
    if !store.contains_key(pair.0) {
        Err(FileParseError::Io(StoreFailure::Missing))
    } else {
        match manifest_records(store[pair.0]) {
            Err(e) => Err(e),
            Ok(old_records) => if !store.contains_key(pair.1) {
                Err(FileParseError::Io(StoreFailure::Missing))
            } else {
                match manifest_records(store[pair.1]) {
                    Err(e) => Err(e),
                    Ok(new_records) => if depth_left == 0 {
                        Err(FileParseError::Io(StoreFailure::TooDeep))
                    } else {
                        let old_entries = keyed(old_records);
                        let new_entries = keyed(new_records);
                        match old_side_findings(store, old_entries, new_entries, fuel) {
                            Err(e) => Err(e),
                            Ok(found) => match new_side_changes(
                                store,
                                new_entries,
                                old_entries,
                                fuel,
                            ) {
                                Err(e) => Err(e),
                                Ok(added) => Ok(
                                    (
                                        seq![
                                            ChangeView::Modify {
                                                kind: DiffFileType::Directory,
                                                old: pair.0,
                                                new: pair.1,
                                            },
                                        ] + found.0 + added,
                                        found.1,
                                    ),
                                ),
                            },
                        }
                    },
                }
            },
        }
    }
}

/// What comparing the pairs of one level gives, one pair after the other.
#[verifier::opaque]
pub open spec fn level_findings(
    store: Map<Seq<char>, Seq<u8>>,
    pairs: Seq<HashPair>,
    depth_left: nat,
    fuel: nat,
) -> Result<Findings, FileParseError>
    decreases pairs.len(),
{
    if pairs.len() == 0 {
        Ok((seq![], seq![]))
    } else {
        match pair_findings(store, pairs[0], depth_left, fuel) {
            Err(e) => Err(e),
            Ok(found) => findings_then(
                found,
                level_findings(store, pairs.drop_first(), depth_left, fuel),
            ),
        }
    }
}

/// The changes of this level and of all levels below it.
pub open spec fn levels_changes(
    store: Map<Seq<char>, Seq<u8>>,
    pairs: Seq<HashPair>,
    depth_left: nat,
    fuel: nat,
) -> Result<Seq<ChangeView>, FileParseError>
    decreases depth_left,
{
    if pairs.len() == 0 {
        Ok(seq![])
    } else {
        match level_findings(store, pairs, depth_left, fuel) {
            Err(e) => Err(e),
            Ok(found) => if depth_left == 0 {
                Err(FileParseError::Io(StoreFailure::TooDeep))
            } else {
                changes_then(
                    found.0,
                    levels_changes(store, found.1, (depth_left - 1) as nat, fuel),
                )
            },
        }
    }
}

/// `changes` holds an addition of the blob with this kind and hash.
pub open spec fn has_add(changes: Seq<ChangeView>, kind: DiffFileType, value: Seq<char>) -> bool {
    exists|i: int| 0 <= i < changes.len() && changes[i] == (ChangeView::Add { kind, value })
}

/// `changes` holds a deletion of the blob with this kind and hash.
pub open spec fn has_delete(changes: Seq<ChangeView>, kind: DiffFileType, value: Seq<char>) -> bool {
    exists|i: int| 0 <= i < changes.len() && changes[i] == (ChangeView::Delete { kind, value })
}

/// The change is an addition or a deletion of a blob that `all` both adds and
/// deletes.
pub open spec fn cancels(all: Seq<ChangeView>, c: ChangeView) -> bool {
    match c {
        ChangeView::Add { kind, value } => has_delete(all, kind, value),
        ChangeView::Delete { kind, value } => has_add(all, kind, value),
        ChangeView::Modify { .. } => false,
    }
}

/// Those of `changes` that do not cancel in `all`, in their order.
pub open spec fn uncancelled(changes: Seq<ChangeView>, all: Seq<ChangeView>) -> Seq<ChangeView>
    decreases changes.len(),
{
    if changes.len() == 0 {
        seq![]
    } else {
        let before = uncancelled(changes.drop_last(), all);
        if cancels(all, changes.last()) {
            before
        } else {
            before.push(changes.last())
        }
    }
}

/// The changes between the snapshot with root manifest `old` and the one with
/// root manifest `new`, both in `store`, where `blobs` is the number of blobs
/// that the store holds.
pub open spec fn tree_diff(
    store: Map<Seq<char>, Seq<u8>>,
    blobs: nat,
    old: Seq<char>,
    new: Seq<char>,
) -> Result<Seq<ChangeView>, FileParseError> {
    if old == new {
        Ok(seq![])
    } else {
        match levels_changes(store, seq![(old, new)], blobs, blobs) {
            Err(e) => Err(e),
            Ok(changes) => Ok(uncancelled(changes, changes)),
        }
    }
}

impl DiffCollectionType {
    /// The key under which an addition or a deletion is told from others; a
    /// modification has none.
    pub fn movement_unique_hash(&self) -> (key: Option<String>)
        ensures
            match key {
                Some(text) => movement_key(self@) == Some(text@),
                None => movement_key(self@) is None,
            },
    {
        match self {
            DiffCollectionType::Add { kind, value } => {
                let mut key = value.clone();
                key.append(kind.as_str());
                Some(key)
            },
            DiffCollectionType::Delete { kind, value } => {
                let mut key = value.clone();
                key.append(kind.as_str());
                Some(key)
            },
            DiffCollectionType::Modify { .. } => None,
        }
    }
}

impl DiffBlob {
    /// The key under which the entry is told from the others of its
    /// directory.
    pub fn unique_name(&self) -> (key: String)
        ensures
            key@ == entry_key(self@),
    {
        let mut key = self.name.clone();
        key.append(self.blob_type.as_str());
        key
    }
}

/// The change that marks one blob as added or as deleted.
fn marked(add: bool, kind: DiffFileType, hash: &str) -> (change: DiffCollectionType)
    ensures
        change@ == mark(add, kind, hash@),
{
    if add {
        DiffCollectionType::Add { kind, value: String::from_str(hash) }
    } else {
        DiffCollectionType::Delete { kind, value: String::from_str(hash) }
    }
}

proof fn lemma_find_entry(entries: Seq<RecordView>, name: Seq<char>, kind: DiffBlobType)
    ensures
        match find_entry(entries, name, kind) {
            Some(i) => 0 <= i < entries.len() && entries[i].name == name && entries[i].kind == kind
                && forall|j: int|
                0 <= j < i ==> !(entries[j].name == name && entries[j].kind == kind),
            None => forall|j: int|
                0 <= j < entries.len() ==> !(entries[j].name == name && entries[j].kind == kind),
        },
    decreases entries.len(),
{
    if entries.len() > 0 && !(entries[0].name == name && entries[0].kind == kind) {
        let rest = entries.drop_first();
        lemma_find_entry(rest, name, kind);
        match find_entry(rest, name, kind) {
            Some(i) => {
                assert forall|j: int| 0 <= j < i + 1 implies !(entries[j].name == name
                    && entries[j].kind == kind) by {
                    if j > 0 {
                        assert(entries[j] == rest[j - 1]);
                    }
                }
            },
            None => {
                assert forall|j: int| 0 <= j < entries.len() implies !(entries[j].name == name
                    && entries[j].kind == kind) by {
                    if j > 0 {
                        assert(entries[j] == rest[j - 1]);
                    }
                }
            },
        }
    }
}

/// Where in `entries` the first entry with the given name and kind stands.
pub fn find_record(entries: &Vec<DiffBlob>, name: &str, kind: DiffBlobType) -> (found: Option<usize>)
    ensures
        match found {
            Some(i) => find_entry(record_views(entries@), name@, kind) == Some(i as int) && i
                < entries.len(),
            None => find_entry(record_views(entries@), name@, kind) is None,
        },
{
    let ghost views = record_views(entries@);
    let mut i: usize = 0;
    while i < entries.len()
        invariant
            i <= entries.len(),
            views == record_views(entries@),
            forall|j: int| 0 <= j < i ==> !(views[j].name == name@ && views[j].kind == kind),
        decreases entries.len() - i,
    {
        assert(views[i as int] == entries@[i as int]@);
        if entries[i].blob_type == kind && str_eq(entries[i].name.as_str(), name) {
            proof {
                assert(views[i as int].name == name@ && views[i as int].kind == kind);
                lemma_find_entry(views, name@, kind);
                match find_entry(views, name@, kind) {
                    Some(k) => {
                        if k < i {
                            assert(!(views[k].name == name@ && views[k].kind == kind));
                        }
                    },
                    None => {},
                }
            }
            return Some(i);
        }
        i = i + 1;
    }
    proof {
        lemma_find_entry(views, name@, kind);
    }
    None
}

/// The entries of a manifest as a map by key, kept as a list: where two
/// records have the same key, the later one takes the earlier one's place.
pub fn keyed_records(records: Vec<DiffBlob>) -> (entries: Vec<DiffBlob>)
    ensures
        record_views(entries@) == keyed(record_views(records@)),
{
    let ghost all = record_views(records@);
    let mut input = records;
    let mut entries: Vec<DiffBlob> = Vec::new();
    let ghost mut done: int = 0;
    assert(all.subrange(0, 0) =~= Seq::<RecordView>::empty());
    assert(all.subrange(0, all.len() as int) =~= all);
    while input.len() > 0
        invariant
            0 <= done <= all.len(),
            record_views(input@) =~= all.subrange(done, all.len() as int),
            record_views(entries@) =~= keyed(all.subrange(0, done)),
        decreases input.len(),
    {
        let ghost before = record_views(entries@);
        let ghost rest = record_views(input@);
        let ghost taken = input@;
        let record = input.remove(0);
        proof {
            assert(rest.len() == taken.len());
            assert(record@ == rest[0]);
            assert(rest[0] == all[done]);
            assert(input@ =~= taken.remove(0));
            assert(record_views(input@) =~= rest.remove(0));
            assert(rest.remove(0) =~= all.subrange(done + 1, all.len() as int));
            assert(all.subrange(0, done + 1).drop_last() =~= all.subrange(0, done));
            assert(all.subrange(0, done + 1).last() == all[done]);
        }
        match find_record(&entries, record.name.as_str(), record.blob_type) {
            Some(i) => {
                entries.set(i, record);
                assert(record_views(entries@) =~= before.update(i as int, all[done]));
            },
            None => {
                entries.push(record);
                assert(record_views(entries@) =~= before.push(all[done]));
            },
        }
        proof {
            done = done + 1;
        }
    }
    entries
}

/// Marks everything in and below the directory with manifest `hash` as added
/// or as deleted, and puts the marks behind what `out` holds. Where this
/// fails, what `out` holds is of no use.
pub fn walk_dir(
    store: &BlobStore,
    hash: &str,
    add: bool,
    fuel: usize,
    out: &mut Vec<DiffCollectionType>,
) -> (res: Result<(), FileParseError>)
    ensures
        match res {
            Ok(_) => walk(store@, hash@, add, fuel as nat) == Ok::<
                Seq<ChangeView>,
                FileParseError,
            >(change_views(final(out)@).subrange(old(out)@.len() as int, final(out)@.len() as int))
                && change_views(final(out)@).subrange(0, old(out)@.len() as int) == change_views(
                old(out)@,
            ) && old(out)@.len() <= final(out)@.len(),
            Err(e) => walk(store@, hash@, add, fuel as nat) == Err::<
                Seq<ChangeView>,
                FileParseError,
            >(e),
        },
    decreases fuel,
{
    let ghost base = change_views(out@);
    let content = match store.get(hash) {
        Some(content) => content,
        None => {
            return Err(FileParseError::Io(StoreFailure::Missing));
        },
    };
    let records = match read_manifest(content) {
        Ok(records) => records,
        Err(e) => {
            return Err(e);
        },
    };
    if fuel == 0 {
        return Err(FileParseError::Io(StoreFailure::TooDeep));
    }
    let ghost views = record_views(records@);
    out.push(marked(add, DiffFileType::Directory, hash));
    let ghost head = seq![mark(add, DiffFileType::Directory, hash@)];
    assert(change_views(out@) =~= base + head);
    let mut i: usize = 0;
    assert(views.subrange(0, 0) =~= Seq::<RecordView>::empty());
    while i < records.len()
        invariant
            i <= records.len(),
            views == record_views(records@),
            change_views(out@) =~= base + head + file_marks(views.subrange(0, i as int), add),
        decreases records.len() - i,
    {
        let ghost so_far = change_views(out@);
        proof {
            assert(views.subrange(0, i + 1).drop_last() =~= views.subrange(0, i as int));
            assert(views.subrange(0, i + 1).last() == records@[i as int]@);
        }
        if records[i].blob_type == DiffBlobType::File {
            out.push(marked(add, DiffFileType::File, records[i].hash.as_str()));
            assert(change_views(out@) =~= so_far.push(
                mark(add, DiffFileType::File, records@[i as int]@.hash),
            ));
        }
        i = i + 1;
    }
    assert(views.subrange(0, records.len() as int) =~= views);
    let ghost own = head + file_marks(views, add);
    let ghost below = walk_all(store@, sub_directories(views), add, (fuel - 1) as nat);
    let ghost mut done: Seq<ChangeView> = seq![];
    let mut j: usize = records.len();
    assert(changes_then(done, below) =~= below);
    assert(walk(store@, hash@, add, fuel as nat) == changes_then(own, below));
    while j > 0
        invariant
            j <= records.len(),
            fuel > 0,
            walk(store@, hash@, add, fuel as nat) == changes_then(own, below),
            views == record_views(records@),
            change_views(out@) =~= base + own + done,
            below == walk_all(store@, sub_directories(views), add, (fuel - 1) as nat),
            below == changes_then(
                done,
                walk_all(
                    store@,
                    sub_directories(views.subrange(0, j as int)),
                    add,
                    (fuel - 1) as nat,
                ),
            ),
        decreases j,
    {
        let ghost upto = views.subrange(0, j as int);
        let ghost so_far = change_views(out@);
        j = j - 1;
        proof {
            assert(upto.drop_last() =~= views.subrange(0, j as int));
            assert(upto.last() == records@[j as int]@);
        }
        if records[j].blob_type == DiffBlobType::Directory {
            let ghost dirs = sub_directories(upto);
            let ghost rest = sub_directories(views.subrange(0, j as int));
            proof {
                assert(dirs =~= seq![records@[j as int]@.hash] + rest);
                assert(dirs[0] == records@[j as int]@.hash);
                assert(dirs.drop_first() =~= rest);
            }
            match walk_dir(store, records[j].hash.as_str(), add, fuel - 1, out) {
                Ok(_) => {},
                Err(e) => {
                    proof {
                        assert(walk_all(store@, dirs, add, (fuel - 1) as nat) == Err::<
                            Seq<ChangeView>,
                            FileParseError,
                        >(e));
                        assert(below == Err::<Seq<ChangeView>, FileParseError>(e));
                    }
                    return Err(e);
                },
            }
            proof {
                let cs = change_views(out@).subrange(so_far.len() as int, out@.len() as int);
                let after = walk_all(store@, rest, add, (fuel - 1) as nat);
                assert(walk_all(store@, dirs, add, (fuel - 1) as nat) == changes_then(cs, after));
            }
            proof {
                let cs = change_views(out@).subrange(so_far.len() as int, out@.len() as int);
                assert(change_views(out@) =~= so_far + cs);
                let after = walk_all(store@, rest, add, (fuel - 1) as nat);
                assert(changes_then(done, changes_then(cs, after)) =~= changes_then(
                    done + cs,
                    after,
                )) by {
                    match after {
                        Ok(more) => {
                            assert(done + (cs + more) =~= (done + cs) + more);
                        },
                        Err(_) => {},
                    }
                }
                done = done + cs;
                assert(change_views(out@) =~= base + own + done);
            }
        }
    }
    proof {
        assert(views.subrange(0, 0) =~= Seq::<RecordView>::empty());
        assert(done + Seq::<ChangeView>::empty() =~= done);
        assert(below == Ok::<Seq<ChangeView>, FileParseError>(done));
        assert(change_views(out@).subrange(base.len() as int, out@.len() as int) =~= own + done);
        assert(change_views(out@).subrange(0, base.len() as int) =~= base);
    }
    Ok(())
}

/// The changes that `after` holds behind those of `before`.
pub open spec fn added_changes(
    before: Seq<DiffCollectionType>,
    after: Seq<DiffCollectionType>,
) -> Seq<ChangeView> {
    change_views(after).subrange(before.len() as int, after.len() as int)
}

/// `after` begins with the changes of `before`.
pub open spec fn keeps_changes(
    before: Seq<DiffCollectionType>,
    after: Seq<DiffCollectionType>,
) -> bool {
    before.len() <= after.len() && change_views(after).subrange(0, before.len() as int)
        == change_views(before)
}

/// The pairs that `after` holds behind those of `before`.
pub open spec fn added_pairs(before: Seq<(String, String)>, after: Seq<(String, String)>) -> Seq<
    HashPair,
> {
    pair_views(after).subrange(before.len() as int, after.len() as int)
}

/// `after` begins with the pairs of `before`.
pub open spec fn keeps_pairs(before: Seq<(String, String)>, after: Seq<(String, String)>) -> bool {
    before.len() <= after.len() && pair_views(after).subrange(0, before.len() as int)
        == pair_views(before)
}

proof fn lemma_findings_then_twice(a: Findings, b: Findings, rest: Result<Findings, FileParseError>)
    ensures
        findings_then(a, findings_then(b, rest)) == findings_then((a.0 + b.0, a.1 + b.1), rest),
{
    match rest {
        Ok(more) => {
            assert(a.0 + (b.0 + more.0) =~= (a.0 + b.0) + more.0);
            assert(a.1 + (b.1 + more.1) =~= (a.1 + b.1) + more.1);
        },
        Err(_) => {},
    }
}

proof fn lemma_changes_then_twice(
    a: Seq<ChangeView>,
    b: Seq<ChangeView>,
    rest: Result<Seq<ChangeView>, FileParseError>,
)
    ensures
        changes_then(a, changes_then(b, rest)) == changes_then(a + b, rest),
{
    match rest {
        Ok(more) => {
            assert(a + (b + more) =~= (a + b) + more);
        },
        Err(_) => {},
    }
}

/// Holds the entries of the old directory against those of the new one.
fn compare_old_side(
    store: &BlobStore,
    old_entries: &Vec<DiffBlob>,
    new_entries: &Vec<DiffBlob>,
    fuel: usize,
    out: &mut Vec<DiffCollectionType>,
    next: &mut Vec<(String, String)>,
) -> (res: Result<(), FileParseError>)
    ensures
        match res {
            Ok(_) => old_side_findings(
                store@,
                record_views(old_entries@),
                record_views(new_entries@),
                fuel as nat,
            ) == Ok::<Findings, FileParseError>(
                (added_changes(old(out)@, final(out)@), added_pairs(old(next)@, final(next)@)),
            ) && keeps_changes(old(out)@, final(out)@) && keeps_pairs(old(next)@, final(next)@),
            Err(e) => old_side_findings(
                store@,
                record_views(old_entries@),
                record_views(new_entries@),
                fuel as nat,
            ) == Err::<Findings, FileParseError>(e),
        },
{
    let ghost base = change_views(out@);
    let ghost base_pairs = pair_views(next@);
    let ghost ov = record_views(old_entries@);
    let ghost nv = record_views(new_entries@);
    let ghost total = old_side_findings(store@, ov, nv, fuel as nat);
    let ghost mut dc: Seq<ChangeView> = seq![];
    let ghost mut dp: Seq<HashPair> = seq![];
    let mut i: usize = 0;
    proof {
        assert(ov.subrange(0, ov.len() as int) =~= ov);
        lemma_findings_then_twice((seq![], seq![]), (seq![], seq![]), total);
        assert(findings_then((dc, dp), total) == total) by {
            match total {
                Ok(more) => {
                    assert(dc + more.0 =~= more.0);
                    assert(dp + more.1 =~= more.1);
                },
                Err(_) => {},
            }
        }
    }
    while i < old_entries.len()
        invariant
            i <= old_entries.len(),
            ov == record_views(old_entries@),
            nv == record_views(new_entries@),
            total == old_side_findings(store@, ov, nv, fuel as nat),
            total == findings_then(
                (dc, dp),
                old_side_findings(store@, ov.subrange(i as int, ov.len() as int), nv, fuel as nat),
            ),
            change_views(out@) =~= base + dc,
            pair_views(next@) =~= base_pairs + dp,
        decreases old_entries.len() - i,
    {
        let ghost rest = ov.subrange(i as int, ov.len() as int);
        let ghost so_far = change_views(out@);
        let ghost pairs_so_far = pair_views(next@);
        let entry = &old_entries[i];
        proof {
            assert(rest[0] == entry@);
            assert(rest.drop_first() =~= ov.subrange(i + 1, ov.len() as int));
        }
        let ghost after = old_side_findings(
            store@,
            ov.subrange(i + 1, ov.len() as int),
            nv,
            fuel as nat,
        );
        let ghost mut found: Findings = (seq![], seq![]);
        match find_record(new_entries, entry.name.as_str(), entry.blob_type) {
            Some(k) => {
                let other = &new_entries[k];
                assert(nv[k as int] == other@);
                if str_eq(entry.hash.as_str(), other.hash.as_str()) {
                } else if entry.blob_type == DiffBlobType::File {
                    let change = DiffCollectionType::Modify {
                        kind: DiffFileType::File,
                        old: entry.hash.clone(),
                        new: other.hash.clone(),
                    };
                    proof {
                        found = (seq![change@], seq![]);
                    }
                    out.push(change);
                } else {
                    let pair = (entry.hash.clone(), other.hash.clone());
                    proof {
                        found = (seq![], seq![(pair.0@, pair.1@)]);
                    }
                    next.push(pair);
                }
            },
            None => {
                if entry.blob_type == DiffBlobType::File {
                    let change = marked(false, DiffFileType::File, entry.hash.as_str());
                    proof {
                        found = (seq![change@], seq![]);
                    }
                    out.push(change);
                } else {
                    match walk_dir(store, entry.hash.as_str(), false, fuel, out) {
                        Ok(_) => {},
                        Err(e) => {
                            proof {
                                assert(old_entry_findings(store@, entry@, nv, fuel as nat) == Err::<
                                    Findings,
                                    FileParseError,
                                >(e));
                                assert(old_side_findings(store@, rest, nv, fuel as nat) == Err::<
                                    Findings,
                                    FileParseError,
                                >(e));
                            }
                            return Err(e);
                        },
                    }
                    proof {
                        found = (
                            change_views(out@).subrange(so_far.len() as int, out@.len() as int),
                            seq![],
                        );
                    }
                }
            },
        }
        proof {
            assert(old_entry_findings(store@, entry@, nv, fuel as nat) == Ok::<
                Findings,
                FileParseError,
            >(found));
            assert(change_views(out@) =~= so_far + found.0);
            assert(pair_views(next@) =~= pairs_so_far + found.1);
            assert(old_side_findings(store@, rest, nv, fuel as nat) == findings_then(found, after));
            lemma_findings_then_twice((dc, dp), found, after);
            dc = dc + found.0;
            dp = dp + found.1;
        }
        i = i + 1;
    }
    proof {
        assert(ov.subrange(i as int, ov.len() as int) =~= Seq::<RecordView>::empty());
        assert(dc + Seq::<ChangeView>::empty() =~= dc);
        assert(dp + Seq::<HashPair>::empty() =~= dp);
        assert(added_changes(old(out)@, out@) =~= dc);
        assert(added_pairs(old(next)@, next@) =~= dp);
        assert(change_views(out@).subrange(0, base.len() as int) =~= base);
        assert(pair_views(next@).subrange(0, base_pairs.len() as int) =~= base_pairs);
    }
    Ok(())
}

/// Holds the entries of the new directory against those of the old one.
fn compare_new_side(
    store: &BlobStore,
    new_entries: &Vec<DiffBlob>,
    old_entries: &Vec<DiffBlob>,
    fuel: usize,
    out: &mut Vec<DiffCollectionType>,
) -> (res: Result<(), FileParseError>)
    ensures
        match res {
            Ok(_) => new_side_changes(
                store@,
                record_views(new_entries@),
                record_views(old_entries@),
                fuel as nat,
            ) == Ok::<Seq<ChangeView>, FileParseError>(added_changes(old(out)@, final(out)@))
                && keeps_changes(old(out)@, final(out)@),
            Err(e) => new_side_changes(
                store@,
                record_views(new_entries@),
                record_views(old_entries@),
                fuel as nat,
            ) == Err::<Seq<ChangeView>, FileParseError>(e),
        },
{
    let ghost base = change_views(out@);
    let ghost ov = record_views(old_entries@);
    let ghost nv = record_views(new_entries@);
    let ghost total = new_side_changes(store@, nv, ov, fuel as nat);
    let ghost mut dc: Seq<ChangeView> = seq![];
    let mut i: usize = 0;
    proof {
        assert(nv.subrange(0, nv.len() as int) =~= nv);
        assert(changes_then(dc, total) == total) by {
            match total {
                Ok(more) => {
                    assert(dc + more =~= more);
                },
                Err(_) => {},
            }
        }
    }
    while i < new_entries.len()
        invariant
            i <= new_entries.len(),
            ov == record_views(old_entries@),
            nv == record_views(new_entries@),
            total == new_side_changes(store@, nv, ov, fuel as nat),
            total == changes_then(
                dc,
                new_side_changes(store@, nv.subrange(i as int, nv.len() as int), ov, fuel as nat),
            ),
            change_views(out@) =~= base + dc,
        decreases new_entries.len() - i,
    {
        let ghost rest = nv.subrange(i as int, nv.len() as int);
        let ghost so_far = change_views(out@);
        let entry = &new_entries[i];
        proof {
            assert(rest[0] == entry@);
            assert(rest.drop_first() =~= nv.subrange(i + 1, nv.len() as int));
        }
        let ghost after = new_side_changes(
            store@,
            nv.subrange(i + 1, nv.len() as int),
            ov,
            fuel as nat,
        );
        let ghost mut found: Seq<ChangeView> = seq![];
        match find_record(old_entries, entry.name.as_str(), entry.blob_type) {
            Some(_) => {},
            None => {
                if entry.blob_type == DiffBlobType::File {
                    let change = marked(true, DiffFileType::File, entry.hash.as_str());
                    proof {
                        found = seq![change@];
                    }
                    out.push(change);
                } else {
                    match walk_dir(store, entry.hash.as_str(), true, fuel, out) {
                        Ok(_) => {},
                        Err(e) => {
                            proof {
                                assert(new_entry_changes(store@, entry@, ov, fuel as nat) == Err::<
                                    Seq<ChangeView>,
                                    FileParseError,
                                >(e));
                                assert(new_side_changes(store@, rest, ov, fuel as nat) == Err::<
                                    Seq<ChangeView>,
                                    FileParseError,
                                >(e));
                            }
                            return Err(e);
                        },
                    }
                    proof {
                        found = change_views(out@).subrange(
                            so_far.len() as int,
                            out@.len() as int,
                        );
                    }
                }
            },
        }
        proof {
            assert(new_entry_changes(store@, entry@, ov, fuel as nat) == Ok::<
                Seq<ChangeView>,
                FileParseError,
            >(found));
            assert(change_views(out@) =~= so_far + found);
            assert(new_side_changes(store@, rest, ov, fuel as nat) == changes_then(found, after));
            lemma_changes_then_twice(dc, found, after);
            dc = dc + found;
        }
        i = i + 1;
    }
    proof {
        assert(nv.subrange(i as int, nv.len() as int) =~= Seq::<RecordView>::empty());
        assert(dc + Seq::<ChangeView>::empty() =~= dc);
        assert(added_changes(old(out)@, out@) =~= dc);
        assert(change_views(out@).subrange(0, base.len() as int) =~= base);
    }
    Ok(())
}

/// Compares one pair of directories: puts the changes found behind what `out`
/// holds, and the pairs of directories to compare next behind what `next`
/// holds. Where this fails, what the two hold is of no use.
pub fn compare_pair(
    store: &BlobStore,
    old_hash: &str,
    new_hash: &str,
    depth_left: usize,
    fuel: usize,
    out: &mut Vec<DiffCollectionType>,
    next: &mut Vec<(String, String)>,
) -> (res: Result<(), FileParseError>)
    ensures
        match res {
            Ok(_) => pair_findings(
                store@,
                (old_hash@, new_hash@),
                depth_left as nat,
                fuel as nat,
            ) == Ok::<Findings, FileParseError>(
                (added_changes(old(out)@, final(out)@), added_pairs(old(next)@, final(next)@)),
            ) && keeps_changes(old(out)@, final(out)@) && keeps_pairs(old(next)@, final(next)@)
                && depth_left > 0,
            Err(e) => pair_findings(store@, (old_hash@, new_hash@), depth_left as nat, fuel as nat)
                == Err::<Findings, FileParseError>(e),
        },
{
    proof {
        reveal(pair_findings);
    }
    let ghost base = change_views(out@);
    let ghost base_pairs = pair_views(next@);
    let old_content = match store.get(old_hash) {
        Some(content) => content,
        None => {
            return Err(FileParseError::Io(StoreFailure::Missing));
        },
    };
    let old_records = match read_manifest(old_content) {
        Ok(records) => records,
        Err(e) => {
            return Err(e);
        },
    };
    let new_content = match store.get(new_hash) {
        Some(content) => content,
        None => {
            return Err(FileParseError::Io(StoreFailure::Missing));
        },
    };
    let new_records = match read_manifest(new_content) {
        Ok(records) => records,
        Err(e) => {
            return Err(e);
        },
    };
    if depth_left == 0 {
        return Err(FileParseError::Io(StoreFailure::TooDeep));
    }
    let old_entries = keyed_records(old_records);
    let new_entries = keyed_records(new_records);
    let change = DiffCollectionType::Modify {
        kind: DiffFileType::Directory,
        old: String::from_str(old_hash),
        new: String::from_str(new_hash),
    };
    let ghost head = seq![change@];
    out.push(change);
    assert(change_views(out@) =~= base + head);
    let ghost mid = out@;
    match compare_old_side(store, &old_entries, &new_entries, fuel, out, next) {
        Ok(_) => {},
        Err(e) => {
            return Err(e);
        },
    }
    let ghost found = (added_changes(mid, out@), added_pairs(old(next)@, next@));
    assert(change_views(out@) =~= base + head + found.0);
    let ghost late = out@;
    match compare_new_side(store, &new_entries, &old_entries, fuel, out) {
        Ok(_) => {},
        Err(e) => {
            return Err(e);
        },
    }
    proof {
        let added = added_changes(late, out@);
        assert(change_views(out@) =~= base + head + found.0 + added);
        assert(added_changes(old(out)@, out@) =~= head + found.0 + added);
        assert(change_views(out@).subrange(0, base.len() as int) =~= base);
    }
    Ok(())
}

/// Compares the pairs of one level, one after the other.
fn compare_level(
    store: &BlobStore,
    pairs: &Vec<(String, String)>,
    depth_left: usize,
    fuel: usize,
    out: &mut Vec<DiffCollectionType>,
    next: &mut Vec<(String, String)>,
) -> (res: Result<(), FileParseError>)
    ensures
        match res {
            Ok(_) => level_findings(store@, pair_views(pairs@), depth_left as nat, fuel as nat)
                == Ok::<Findings, FileParseError>(
                (added_changes(old(out)@, final(out)@), added_pairs(old(next)@, final(next)@)),
            ) && keeps_changes(old(out)@, final(out)@) && keeps_pairs(old(next)@, final(next)@)
                && (pairs@.len() > 0 ==> depth_left > 0),
            Err(e) => level_findings(store@, pair_views(pairs@), depth_left as nat, fuel as nat)
                == Err::<Findings, FileParseError>(e),
        },
{
    let ghost base = change_views(out@);
    let ghost base_pairs = pair_views(next@);
    let ghost pv = pair_views(pairs@);
    let ghost total = level_findings(store@, pv, depth_left as nat, fuel as nat);
    let ghost mut dc: Seq<ChangeView> = seq![];
    let ghost mut dp: Seq<HashPair> = seq![];
    let mut i: usize = 0;
    proof {
        reveal(level_findings);
        assert(pv.subrange(0, pv.len() as int) =~= pv);
        assert(findings_then((dc, dp), total) == total) by {
            match total {
                Ok(more) => {
                    assert(dc + more.0 =~= more.0);
                    assert(dp + more.1 =~= more.1);
                },
                Err(_) => {},
            }
        }
    }
    while i < pairs.len()
        invariant
            i <= pairs.len(),
            pv == pair_views(pairs@),
            total == level_findings(store@, pv, depth_left as nat, fuel as nat),
            total == findings_then(
                (dc, dp),
                level_findings(
                    store@,
                    pv.subrange(i as int, pv.len() as int),
                    depth_left as nat,
                    fuel as nat,
                ),
            ),
            change_views(out@) =~= base + dc,
            pair_views(next@) =~= base_pairs + dp,
            i > 0 ==> depth_left > 0,
        decreases pairs.len() - i,
    {
        let ghost rest = pv.subrange(i as int, pv.len() as int);
        let ghost so_far = out@;
        let ghost pairs_so_far = next@;
        let pair = &pairs[i];
        proof {
            reveal(level_findings);
            assert(rest[0] == (pair.0@, pair.1@));
            assert(rest.drop_first() =~= pv.subrange(i + 1, pv.len() as int));
        }
        match compare_pair(store, pair.0.as_str(), pair.1.as_str(), depth_left, fuel, out, next) {
            Ok(_) => {},
            Err(e) => {
                proof {
                    assert(level_findings(store@, rest, depth_left as nat, fuel as nat) == Err::<
                        Findings,
                        FileParseError,
                    >(e));
                }
                return Err(e);
            },
        }
        proof {
            let found = (added_changes(so_far, out@), added_pairs(pairs_so_far, next@));
            let after = level_findings(
                store@,
                pv.subrange(i + 1, pv.len() as int),
                depth_left as nat,
                fuel as nat,
            );
            assert(change_views(out@) =~= change_views(so_far) + found.0);
            assert(pair_views(next@) =~= pair_views(pairs_so_far) + found.1);
            assert(level_findings(store@, rest, depth_left as nat, fuel as nat) == findings_then(
                found,
                after,
            ));
            lemma_findings_then_twice((dc, dp), found, after);
            dc = dc + found.0;
            dp = dp + found.1;
        }
        i = i + 1;
    }
    proof {
        reveal(level_findings);
        assert(pv.subrange(i as int, pv.len() as int) =~= Seq::<HashPair>::empty());
        assert(dc + Seq::<ChangeView>::empty() =~= dc);
        assert(dp + Seq::<HashPair>::empty() =~= dp);
        assert(added_changes(old(out)@, out@) =~= dc);
        assert(added_pairs(old(next)@, next@) =~= dp);
        assert(change_views(out@).subrange(0, base.len() as int) =~= base);
        assert(pair_views(next@).subrange(0, base_pairs.len() as int) =~= base_pairs);
    }
    Ok(())
}

/// Whether `changes` holds an addition, or a deletion, of the blob with this
/// kind and hash.
fn holds_movement(changes: &Vec<DiffCollectionType>, add: bool, kind: DiffFileType, value: &str) -> (yes:
    bool)
    ensures
        yes == if add {
            has_add(change_views(changes@), kind, value@)
        } else {
            has_delete(change_views(changes@), kind, value@)
        },
{
    let ghost views = change_views(changes@);
    let mut i: usize = 0;
    while i < changes.len()
        invariant
            i <= changes.len(),
            views == change_views(changes@),
            forall|j: int| 0 <= j < i ==> views[j] != mark(add, kind, value@),
        decreases changes.len() - i,
    {
        assert(views[i as int] == changes@[i as int]@);
        let hit = match &changes[i] {
            DiffCollectionType::Add { kind: k, value: v } => add && *k == kind && str_eq(
                v.as_str(),
                value,
            ),
            DiffCollectionType::Delete { kind: k, value: v } => !add && *k == kind && str_eq(
                v.as_str(),
                value,
            ),
            DiffCollectionType::Modify { .. } => false,
        };
        if hit {
            assert(views[i as int] == mark(add, kind, value@));
            return true;
        }
        i = i + 1;
    }
    false
}

/// A copy of a change.
fn copy_change(c: &DiffCollectionType) -> (copy: DiffCollectionType)
    ensures
        copy@ == c@,
{
    match c {
        DiffCollectionType::Add { kind, value } => DiffCollectionType::Add {
            kind: *kind,
            value: value.clone(),
        },
        DiffCollectionType::Delete { kind, value } => DiffCollectionType::Delete {
            kind: *kind,
            value: value.clone(),
        },
        DiffCollectionType::Modify { kind, old, new } => DiffCollectionType::Modify {
            kind: *kind,
            old: old.clone(),
            new: new.clone(),
        },
    }
}

/// Drops every addition and every deletion of a blob that `changes` both adds
/// and deletes, and keeps the rest in its order.
pub fn cancel_movements(changes: &Vec<DiffCollectionType>) -> (kept: Vec<DiffCollectionType>)
    ensures
        change_views(kept@) == uncancelled(change_views(changes@), change_views(changes@)),
{
    let ghost all = change_views(changes@);
    let mut kept: Vec<DiffCollectionType> = Vec::new();
    let mut i: usize = 0;
    assert(all.subrange(0, 0) =~= Seq::<ChangeView>::empty());
    while i < changes.len()
        invariant
            i <= changes.len(),
            all == change_views(changes@),
            change_views(kept@) =~= uncancelled(all.subrange(0, i as int), all),
        decreases changes.len() - i,
    {
        let ghost before = change_views(kept@);
        proof {
            assert(all.subrange(0, i + 1).drop_last() =~= all.subrange(0, i as int));
            assert(all.subrange(0, i + 1).last() == changes@[i as int]@);
        }
        let drop = match &changes[i] {
            DiffCollectionType::Add { kind, value } => holds_movement(
                changes,
                false,
                *kind,
                value.as_str(),
            ),
            DiffCollectionType::Delete { kind, value } => holds_movement(
                changes,
                true,
                *kind,
                value.as_str(),
            ),
            DiffCollectionType::Modify { .. } => false,
        };
        assert(drop == cancels(all, changes@[i as int]@));
        if !drop {
            kept.push(copy_change(&changes[i]));
            assert(change_views(kept@) =~= before.push(changes@[i as int]@));
        }
        i = i + 1;
    }
    assert(all.subrange(0, changes.len() as int) =~= all);
    kept
}

/// The changes that lead from the snapshot with root manifest `old_hash` to
/// the one with root manifest `new_hash`, both held in `store`.
///
/// Two equal hashes give no change, whatever the store holds. Otherwise the
/// two trees are compared level by level, and at the end every addition and
/// deletion of a blob that is both added and deleted is dropped. A blob that
/// is missing, a manifest that cannot be read, or a manifest that leads back
/// to itself makes the whole comparison fail.
pub fn compare_blob_files(old_hash: &str, new_hash: &str, store: &BlobStore) -> (res: Result<
    Vec<DiffCollectionType>,
    FileParseError,
>)
    ensures
        match res {
            Ok(changes) => tree_diff(store@, store.count(), old_hash@, new_hash@) == Ok::<
                Seq<ChangeView>,
                FileParseError,
            >(change_views(changes@)),
            Err(e) => tree_diff(store@, store.count(), old_hash@, new_hash@) == Err::<
                Seq<ChangeView>,
                FileParseError,
            >(e),
        },
{
    if str_eq(old_hash, new_hash) {
        let none: Vec<DiffCollectionType> = Vec::new();
        assert(change_views(none@) =~= Seq::<ChangeView>::empty());
        return Ok(none);
    }
    let fuel = store.len();
    let mut depth_left: usize = fuel;
    let mut current: Vec<(String, String)> = Vec::new();
    current.push((String::from_str(old_hash), String::from_str(new_hash)));
    let mut found: Vec<DiffCollectionType> = Vec::new();
    let ghost total = levels_changes(
        store@,
        seq![(old_hash@, new_hash@)],
        fuel as nat,
        fuel as nat,
    );
    proof {
        assert(pair_views(current@) =~= seq![(old_hash@, new_hash@)]);
        assert(change_views(found@) =~= Seq::<ChangeView>::empty());
        assert(changes_then(change_views(found@), total) == total) by {
            match total {
                Ok(more) => {
                    assert(change_views(found@) + more =~= more);
                },
                Err(_) => {},
            }
        }
    }
    while current.len() > 0
        invariant
            fuel == store.count(),
            old_hash@ != new_hash@,
            total == levels_changes(
                store@,
                seq![(old_hash@, new_hash@)],
                fuel as nat,
                fuel as nat,
            ),
            total == changes_then(
                change_views(found@),
                levels_changes(store@, pair_views(current@), depth_left as nat, fuel as nat),
            ),
        decreases depth_left,
    {
        let ghost so_far = found@;
        let mut next: Vec<(String, String)> = Vec::new();
        match compare_level(store, &current, depth_left, fuel, &mut found, &mut next) {
            Ok(_) => {},
            Err(e) => {
                proof {
                    assert(levels_changes(
                        store@,
                        pair_views(current@),
                        depth_left as nat,
                        fuel as nat,
                    ) == Err::<Seq<ChangeView>, FileParseError>(e));
                }
                return Err(e);
            },
        }
        proof {
            let level = (added_changes(so_far, found@), added_pairs(seq![], next@));
            let after = levels_changes(
                store@,
                pair_views(next@),
                (depth_left - 1) as nat,
                fuel as nat,
            );
            assert(level.1 =~= pair_views(next@));
            assert(change_views(found@) =~= change_views(so_far) + level.0);
            assert(levels_changes(store@, pair_views(current@), depth_left as nat, fuel as nat)
                == changes_then(level.0, after));
            lemma_changes_then_twice(change_views(so_far), level.0, after);
        }
        depth_left = depth_left - 1;
        current = next;
    }
    proof {
        assert(change_views(found@) + Seq::<ChangeView>::empty() =~= change_views(found@));
    }
    Ok(cancel_movements(&found))
}

/// Between a snapshot and itself there is no change, whatever the store holds.
pub proof fn lemma_diff_identity(store: Map<Seq<char>, Seq<u8>>, blobs: nat, hash: Seq<char>)
    ensures
        tree_diff(store, blobs, hash, hash) == Ok::<Seq<ChangeView>, FileParseError>(seq![]),
{
}

/// `changes` holds the change `c`.
pub open spec fn has_change(changes: Seq<ChangeView>, c: ChangeView) -> bool {
    exists|i: int| 0 <= i < changes.len() && changes[i] == c
}

/// What is left after cancelling are exactly the changes that were there and
/// do not cancel.
pub proof fn lemma_uncancelled_members(changes: Seq<ChangeView>, all: Seq<ChangeView>, c: ChangeView)
    ensures
        has_change(uncancelled(changes, all), c) <==> has_change(changes, c) && !cancels(all, c),
    decreases changes.len(),
{
    let out = uncancelled(changes, all);
    if changes.len() > 0 {
        let front = changes.drop_last();
        let last = changes.last();
        let before = uncancelled(front, all);
        lemma_uncancelled_members(front, all, c);
        if has_change(out, c) {
            let i = choose|i: int| 0 <= i < out.len() && out[i] == c;
            if !cancels(all, last) && i == before.len() {
                assert(changes[changes.len() - 1] == c);
            } else {
                assert(before[i] == c);
                let j = choose|j: int| 0 <= j < front.len() && front[j] == c;
                assert(changes[j] == c);
            }
        }
        if has_change(changes, c) && !cancels(all, c) {
            let j = choose|j: int| 0 <= j < changes.len() && changes[j] == c;
            if j == changes.len() - 1 {
                assert(out[out.len() - 1] == c);
            } else {
                assert(front[j] == c);
                let i = choose|i: int| 0 <= i < before.len() && before[i] == c;
                assert(out[i] == c);
            }
        }
    }
}

/// A blob that the changes found both add and delete is, after cancelling,
/// neither added nor deleted: it has only moved. And no blob is both added
/// and deleted by what is left.
pub proof fn lemma_moved_blob_cancels(changes: Seq<ChangeView>, kind: DiffFileType, value: Seq<char>)
    ensures
        has_add(changes, kind, value) && has_delete(changes, kind, value) ==> !has_add(
            uncancelled(changes, changes),
            kind,
            value,
        ) && !has_delete(uncancelled(changes, changes), kind, value),
        !(has_add(uncancelled(changes, changes), kind, value) && has_delete(
            uncancelled(changes, changes),
            kind,
            value,
        )),
{
    let out = uncancelled(changes, changes);
    let add = ChangeView::Add { kind, value };
    let delete = ChangeView::Delete { kind, value };
    lemma_uncancelled_members(changes, changes, add);
    lemma_uncancelled_members(changes, changes, delete);
    if has_add(out, kind, value) {
        let i = choose|i: int| 0 <= i < out.len() && out[i] == add;
        assert(has_change(out, add));
        assert(!has_delete(changes, kind, value));
        if has_delete(out, kind, value) {
            let j = choose|j: int| 0 <= j < out.len() && out[j] == delete;
            assert(has_change(out, delete));
            let k = choose|k: int| 0 <= k < changes.len() && changes[k] == delete;
            assert(has_delete(changes, kind, value));
        }
    }
    if has_delete(out, kind, value) {
        let j = choose|j: int| 0 <= j < out.len() && out[j] == delete;
        assert(has_change(out, delete));
        assert(!has_add(changes, kind, value));
    }
}

/// Cancelling never drops a modification.
pub proof fn lemma_modifications_stay(changes: Seq<ChangeView>, c: ChangeView)
    requires
        c is Modify,
        has_change(changes, c),
    ensures
        has_change(uncancelled(changes, changes), c),
{
    lemma_uncancelled_members(changes, changes, c);
}

/// What is left after cancelling is in the order in which it was found: a
/// change that does not cancel stays in front of everything behind it.
pub proof fn lemma_uncancelled_keeps_the_first(changes: Seq<ChangeView>, all: Seq<ChangeView>)
    requires
        changes.len() > 0,
        !cancels(all, changes[0]),
    ensures
        uncancelled(changes, all).len() > 0,
        uncancelled(changes, all)[0] == changes[0],
    decreases changes.len(),
{
    if changes.len() == 1 {
        assert(changes.drop_last() =~= Seq::<ChangeView>::empty());
        assert(uncancelled(Seq::<ChangeView>::empty(), all) =~= Seq::<ChangeView>::empty());
    } else {
        assert(changes.drop_last()[0] == changes[0]);
        lemma_uncancelled_keeps_the_first(changes.drop_last(), all);
    }
}

/// Where two roots differ and the comparison succeeds, the first change is the
/// modification of the root directory: a directory's own change comes before
/// the changes of what is in it.
pub proof fn lemma_diff_begins_with_the_root(
    store: Map<Seq<char>, Seq<u8>>,
    blobs: nat,
    old: Seq<char>,
    new: Seq<char>,
)
    requires
        old != new,
        tree_diff(store, blobs, old, new) is Ok,
    ensures
        (tree_diff(store, blobs, old, new)->Ok_0).len() > 0,
        (tree_diff(store, blobs, old, new)->Ok_0)[0] == (ChangeView::Modify {
            kind: DiffFileType::Directory,
            old,
            new,
        }),
{
    reveal(level_findings);
    reveal(pair_findings);
    let pairs = seq![(old, new)];
    let root = ChangeView::Modify { kind: DiffFileType::Directory, old, new };
    let changes = levels_changes(store, pairs, blobs, blobs)->Ok_0;
    let level = level_findings(store, pairs, blobs, blobs)->Ok_0;
    let first = pair_findings(store, pairs[0], blobs, blobs)->Ok_0;
    assert(pairs.drop_first() =~= Seq::<HashPair>::empty());
    assert(level_findings(store, Seq::<HashPair>::empty(), blobs, blobs) == Ok::<
        Findings,
        FileParseError,
    >((seq![], seq![])));
    assert(first.0[0] == root);
    assert(level.0 =~= first.0);
    assert(changes[0] == root);
    lemma_uncancelled_keeps_the_first(changes, changes);
}

} // verus!
