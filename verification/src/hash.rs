//! Snapshots: a directory tree written into the store, blob by blob, and
//! named by the hash of its root manifest.
//!
//! A file is stored as it is, under the hash of its bytes. A directory is
//! stored as a manifest: one line for each entry, in the order of the entries'
//! names, byte by byte. The manifest's hash is the hash of its lines. An entry
//! named `.DS_Store` is passed over, and a directory without entries leaves no
//! trace: no manifest, and no line in the directory above it.

use crate::common::{line_text, DiffBlob, DiffBlobType, RecordView};
use crate::digest::{bytes_hash, hash_text, xxh64_digest};
use crate::store::{record_views, str_eq, BlobStore};
use vstd::prelude::*;
use vstd::slice::slice_to_vec;
use vstd::string::StringExecFns;
use vstd::string::StringSliceAdditionalSpecFns;
use vstd::utf8::{encode_utf8, is_char_boundary};

verus! {

/// The hash can be cut behind its first character: it has one, and that one
/// takes a single byte.
pub open spec fn can_be_sharded(hash: Seq<char>) -> bool {
    hash.len() > 0 && hash[0] <= '\u{7f}'
}

/// A character below 128 is written as one byte.
proof fn lemma_low_char_has_width_1(c: char)
    requires
        c <= '\u{7f}',
    ensures
        vstd::utf8::has_width_1_encoding(c as u32),
{
}

/// The bytes of a text that begins with a one-byte character are that
/// character's byte and then the bytes of the rest.
pub proof fn lemma_first_char_one_byte(text: Seq<char>)
    requires
        can_be_sharded(text),
    ensures
        encode_utf8(text).len() >= 1,
        is_char_boundary(encode_utf8(text), 1),
        encode_utf8(text).subrange(0, 1) == encode_utf8(text.subrange(0, 1)),
        encode_utf8(text).subrange(1, encode_utf8(text).len() as int) == encode_utf8(
            text.subrange(1, text.len() as int),
        ),
{
    let first = text.subrange(0, 1);
    let rest = text.subrange(1, text.len() as int);
    let bytes = encode_utf8(text);
    assert(text =~= first + rest);
    crate::common::lemma_encode_concat(first, rest);
    let fb = encode_utf8(first);
    assert(fb.len() == 1) by {
        assert(first[0] == text[0]);
        lemma_low_char_has_width_1(first[0]);
        assert(first.drop_first() =~= Seq::<char>::empty());
        assert(encode_utf8(Seq::<char>::empty()) =~= Seq::<u8>::empty());
        assert(fb =~= vstd::utf8::encode_scalar(first[0] as u32) + encode_utf8(first.drop_first()));
    }
    let rb = encode_utf8(rest);
    assert(bytes =~= fb + rb);
    assert(bytes.subrange(0, 1) =~= fb);
    assert(bytes.subrange(1, bytes.len() as int) =~= rb);
    vstd::utf8::encode_utf8_valid_utf8(text);
    if rb.len() == 0 {
        vstd::utf8::is_char_boundary_start_end_of_seq(bytes);
    } else {
        vstd::utf8::encode_utf8_valid_utf8(rest);
        vstd::utf8::is_char_boundary_start_end_of_seq(rb);
        vstd::utf8::is_char_boundary_iff_not_is_continuation_byte(rb, 0);
        assert(bytes[1] == rb[0]);
        vstd::utf8::is_char_boundary_iff_not_is_continuation_byte(bytes, 1);
    }
}

/// Cuts a hash into the name of its shard, which is the first character, and
/// the name of the blob within the shard, which is the rest.
pub fn split_dir_and_name(hash: &str) -> (parts: (&str, &str))
    requires
        can_be_sharded(hash@),
    ensures
        parts.0@ == hash@.subrange(0, 1),
        parts.1@ == hash@.subrange(1, hash@.len() as int),
{
    proof {
        lemma_first_char_one_byte(hash@);
    }
    let parts = hash.split_at(1);
    proof {
        vstd::utf8::encode_utf8_decode_utf8(hash@.subrange(0, 1));
        vstd::utf8::encode_utf8_decode_utf8(hash@.subrange(1, hash@.len() as int));
        vstd::utf8::encode_utf8_decode_utf8(parts.0@);
        vstd::utf8::encode_utf8_decode_utf8(parts.1@);
    }
    parts
}

/// Where the blob with the given hash lies below `base`.
pub open spec fn sharded_path(hash: Seq<char>, base: Seq<char>) -> Seq<char> {
    base + seq!['/'] + hash.subrange(0, 1) + seq!['/'] + hash.subrange(1, hash.len() as int)
}

/// Where the blob with the given hash lies below `base`: in the shard named by
/// the hash's first character, under the rest of the hash.
pub fn path_from_hash(hash: &str, base: &str) -> (path: String)
    requires
        can_be_sharded(hash@),
    ensures
        path@ == sharded_path(hash@, base@),
{
    let (dir, name) = split_dir_and_name(hash);
    let mut path = String::from_str(base);
    path.push('/');
    path.append(dir);
    path.push('/');
    path.append(name);
    path
}

/// The hash of a file's bytes, as it is written everywhere.
pub open spec fn file_hash(content: Seq<u8>) -> Seq<char> {
    hash_text(xxh64_digest(content))
}

/// The hash of a file with the given bytes.
pub fn calculate_file_hash(content: &[u8]) -> (hash: String)
    ensures
        hash@ == file_hash(content@),
{
    bytes_hash(content)
}

/// `a` comes before `b`, or is `b`, where byte strings are ordered by their
/// first byte that differs and a string comes before those that it begins.
pub open spec fn bytes_le(a: Seq<u8>, b: Seq<u8>) -> bool
    decreases a.len(),
{
    if a.len() == 0 {
        true
    } else if b.len() == 0 {
        false
    } else if a[0] != b[0] {
        a[0] < b[0]
    } else {
        bytes_le(a.drop_first(), b.drop_first())
    }
}

/// The order of the names: that of their bytes.
pub open spec fn name_le(a: Seq<char>, b: Seq<char>) -> bool {
    bytes_le(encode_utf8(a), encode_utf8(b))
}

/// Every byte string comes before itself or is itself.
pub proof fn lemma_bytes_le_refl(a: Seq<u8>)
    ensures
        bytes_le(a, a),
    decreases a.len(),
{
    if a.len() > 0 {
        lemma_bytes_le_refl(a.drop_first());
    }
}

/// Of two byte strings one comes before the other or is the other.
pub proof fn lemma_bytes_le_total(a: Seq<u8>, b: Seq<u8>)
    ensures
        bytes_le(a, b) || bytes_le(b, a),
    decreases a.len(),
{
    if a.len() > 0 && b.len() > 0 && a[0] == b[0] {
        lemma_bytes_le_total(a.drop_first(), b.drop_first());
    }
}

/// The order of the byte strings carries over.
pub proof fn lemma_bytes_le_trans(a: Seq<u8>, b: Seq<u8>, c: Seq<u8>)
    requires
        bytes_le(a, b),
        bytes_le(b, c),
    ensures
        bytes_le(a, c),
    decreases a.len(),
{
    if a.len() > 0 && b.len() > 0 && c.len() > 0 && a[0] == b[0] && b[0] == c[0] {
        lemma_bytes_le_trans(a.drop_first(), b.drop_first(), c.drop_first());
    }
}

/// Two byte strings of which each comes before the other or is the other are
/// the same.
pub proof fn lemma_bytes_le_antisym(a: Seq<u8>, b: Seq<u8>)
    requires
        bytes_le(a, b),
        bytes_le(b, a),
    ensures
        a == b,
    decreases a.len(),
{
    if a.len() > 0 && b.len() > 0 {
        lemma_bytes_le_antisym(a.drop_first(), b.drop_first());
        assert(a =~= seq![a[0]] + a.drop_first());
        assert(b =~= seq![b[0]] + b.drop_first());
    } else {
        assert(a =~= b);
    }
}

/// Whether the name `a` comes before the name `b` or is `b`.
pub fn names_in_order(a: &str, b: &str) -> (yes: bool)
    ensures
        yes == name_le(a@, b@),
{
    let x = a.as_bytes();
    let y = b.as_bytes();
    let mut i: usize = 0;
    assert(x@.subrange(0, x.len() as int) =~= x@);
    assert(y@.subrange(0, y.len() as int) =~= y@);
    while i < x.len() && i < y.len()
        invariant
            i <= x.len(),
            i <= y.len(),
            x@ == encode_utf8(a@),
            y@ == encode_utf8(b@),
            bytes_le(x@, y@) == bytes_le(
                x@.subrange(i as int, x.len() as int),
                y@.subrange(i as int, y.len() as int),
            ),
        decreases x.len() - i,
    {
        let ghost xs = x@.subrange(i as int, x.len() as int);
        let ghost ys = y@.subrange(i as int, y.len() as int);
        assert(xs[0] == x@[i as int] && ys[0] == y@[i as int]);
        if x[i] != y[i] {
            assert(bytes_le(xs, ys) == (xs[0] < ys[0]));
            return x[i] < y[i];
        }
        assert(xs.drop_first() =~= x@.subrange(i + 1, x.len() as int));
        assert(ys.drop_first() =~= y@.subrange(i + 1, y.len() as int));
        i = i + 1;
    }
    i >= x.len()
}

/// The records are in the order of their names.
pub open spec fn ordered_by_name(records: Seq<RecordView>) -> bool {
    forall|i: int, j: int|
        0 <= i <= j < records.len() ==> name_le(
            (#[trigger] records[i]).name,
            (#[trigger] records[j]).name,
        )
}

/// Where a record with the given name goes into `records`: behind the last
/// one whose name does not come after it.
pub open spec fn name_slot(records: Seq<RecordView>, name: Seq<char>) -> int
    decreases records.len(),
{
    if records.len() == 0 {
        0
    } else if name_le(records.last().name, name) {
        records.len() as int
    } else {
        name_slot(records.drop_last(), name)
    }
}

/// `records` in the order of their names; those with the same name keep the
/// order they came in.
pub open spec fn sort_by_name(records: Seq<RecordView>) -> Seq<RecordView>
    decreases records.len(),
{
    if records.len() == 0 {
        seq![]
    } else {
        let sorted = sort_by_name(records.drop_last());
        sorted.insert(name_slot(sorted, records.last().name), records.last())
    }
}

/// Sorting keeps the number of records.
pub proof fn lemma_sort_by_name_len(records: Seq<RecordView>)
    ensures
        sort_by_name(records).len() == records.len(),
    decreases records.len(),
{
    if records.len() > 0 {
        lemma_sort_by_name_len(records.drop_last());
        lemma_name_slot_in_range(sort_by_name(records.drop_last()), records.last().name);
    }
}

proof fn lemma_name_slot_in_range(records: Seq<RecordView>, name: Seq<char>)
    ensures
        0 <= name_slot(records, name) <= records.len(),
    decreases records.len(),
{
    if records.len() > 0 && !name_le(records.last().name, name) {
        lemma_name_slot_in_range(records.drop_last(), name);
    }
}

/// Puts `records` in the order of their names. Those with the same name keep
/// the order they came in.
pub fn sort_records(records: Vec<DiffBlob>) -> (sorted: Vec<DiffBlob>)
    ensures
        record_views(sorted@) == sort_by_name(record_views(records@)),
{
    let ghost all = record_views(records@);
    let mut input = records;
    let mut sorted: Vec<DiffBlob> = Vec::new();
    let ghost mut done: int = 0;
    assert(all.subrange(0, 0) =~= Seq::<RecordView>::empty());
    assert(all.subrange(0, all.len() as int) =~= all);
    while input.len() > 0
        invariant
            0 <= done <= all.len(),
            record_views(input@) =~= all.subrange(done, all.len() as int),
            record_views(sorted@) =~= sort_by_name(all.subrange(0, done)),
        decreases input.len(),
    {
        let ghost before = record_views(sorted@);
        let ghost rest = record_views(input@);
        let ghost taken = input@;
        let record = input.remove(0);
        proof {
            assert(rest.len() == taken.len());
            assert(record@ == rest[0]);
            assert(rest[0] == all[done]);
            assert(input@ =~= taken.remove(0));
            assert(record_views(input@) =~= rest.remove(0));
            assert(rest.remove(0) =~= all.subrange(done + 1, all.len() as int));
        }
        let mut slot: usize = sorted.len();
        assert(before.subrange(0, slot as int) =~= before);
        while slot > 0 && !names_in_order(sorted[slot - 1].name.as_str(), record.name.as_str())
            invariant
                slot <= sorted.len(),
                before == record_views(sorted@),
                name_slot(before, record@.name) == name_slot(
                    before.subrange(0, slot as int),
                    record@.name,
                ),
            decreases slot,
        {
            assert(before.subrange(0, slot as int).drop_last() =~= before.subrange(0, slot - 1));
            assert(before.subrange(0, slot as int).last() == sorted@[slot - 1]@);
            slot = slot - 1;
        }
        proof {
            if slot > 0 {
                assert(before.subrange(0, slot as int).last() == sorted@[slot - 1]@);
            }
            assert(name_slot(before, record@.name) == slot);
        }
        sorted.insert(slot, record);
        proof {
            assert(record_views(sorted@) =~= before.insert(slot as int, all[done]));
            assert(all.subrange(0, done + 1).drop_last() =~= all.subrange(0, done));
            assert(all.subrange(0, done + 1).last() == all[done]);
            done = done + 1;
        }
    }
    sorted
}

/// The bytes of a manifest: the lines of its records, one behind the other.
pub open spec fn manifest_bytes(records: Seq<RecordView>) -> Seq<u8>
    decreases records.len(),
{
    if records.len() == 0 {
        seq![]
    } else {
        manifest_bytes(records.drop_last()) + encode_utf8(line_text(records.last()))
    }
}

/// The hash of the manifest with the given records.
pub open spec fn manifest_hash(records: Seq<RecordView>) -> Seq<char> {
    file_hash(manifest_bytes(records))
}

/// The bytes of the manifest with the given records.
pub fn manifest_of(records: &Vec<DiffBlob>) -> (bytes: Vec<u8>)
    ensures
        bytes@ == manifest_bytes(record_views(records@)),
{
    let ghost all = record_views(records@);
    let mut bytes: Vec<u8> = Vec::new();
    let mut i: usize = 0;
    assert(all.subrange(0, 0) =~= Seq::<RecordView>::empty());
    while i < records.len()
        invariant
            i <= records.len(),
            all == record_views(records@),
            bytes@ == manifest_bytes(all.subrange(0, i as int)),
        decreases records.len() - i,
    {
        let ghost before = bytes@;
        proof {
            assert(all.subrange(0, i + 1).drop_last() =~= all.subrange(0, i as int));
            assert(all.subrange(0, i + 1).last() == records@[i as int]@);
        }
        let line = records[i].to_string();
        let mut line_bytes = slice_to_vec(line.as_str().as_bytes());
        bytes.append(&mut line_bytes);
        assert(bytes@ =~= before + encode_utf8(line_text(records@[i as int]@)));
        i = i + 1;
    }
    assert(all.subrange(0, records.len() as int) =~= all);
    bytes
}

/// Writes the manifest of a directory with the given lines into the store,
/// unless the store holds a blob under its hash already, and returns its hash.
/// The lines are put in the order of their names first, so that every
/// manifest in the store is in that order.
pub fn write_directory_blob(store: &mut BlobStore, blobs: Vec<DiffBlob>) -> (hash: String)
    ensures
        hash@ == manifest_hash(sort_by_name(record_views(blobs@))),
        final(store)@ == put_blob(
            old(store)@,
            (hash@, manifest_bytes(sort_by_name(record_views(blobs@)))),
        ),
{
    let sorted = sort_records(blobs);
    let bytes = manifest_of(&sorted);
    let hash = bytes_hash(bytes.as_slice());
    store.put_if_absent(hash.clone(), bytes);
    hash
}

/// Writes a file's bytes into the store, unless the store holds a blob under
/// their hash already, and puts the file's record behind what `entries` holds.
pub fn write_file_blob(store: &mut BlobStore, entries: &mut Vec<DiffBlob>, name: &str, content: &[u8])
    ensures
        final(store)@ == put_blob(old(store)@, (file_hash(content@), content@)),
        record_views(final(entries)@) == record_views(old(entries)@).push(
            RecordView { name: name@, hash: file_hash(content@), kind: DiffBlobType::File },
        ),
{
    let hash = calculate_file_hash(content);
    store.put_if_absent(hash.clone(), slice_to_vec(content));
    let ghost before = record_views(entries@);
    let record = DiffBlob { name: String::from_str(name), hash, blob_type: DiffBlobType::File };
    let ghost pushed = record@;
    entries.push(record);
    assert(record_views(entries@) =~= before.push(pushed));
}

/// A blob on its way into the store: its hash and its bytes.
pub type Blob = (Seq<char>, Seq<u8>);

/// The store after one blob has been written: the blob is there under its
/// hash, unless the store held a blob under that hash already.
pub open spec fn put_blob(store: Map<Seq<char>, Seq<u8>>, blob: Blob) -> Map<Seq<char>, Seq<u8>> {
    if store.contains_key(blob.0) {
        store
    } else {
        store.insert(blob.0, blob.1)
    }
}

/// The store after several blobs have been written, one after the other.
pub open spec fn put_all(store: Map<Seq<char>, Seq<u8>>, blobs: Seq<Blob>) -> Map<
    Seq<char>,
    Seq<u8>,
>
    decreases blobs.len(),
{
    if blobs.len() == 0 {
        store
    } else {
        put_blob(put_all(store, blobs.drop_last()), blobs.last())
    }
}

/// Writing two lists of blobs one after the other is writing the two lists
/// laid end to end.
pub proof fn lemma_put_all_concat(store: Map<Seq<char>, Seq<u8>>, a: Seq<Blob>, b: Seq<Blob>)
    ensures
        put_all(store, a + b) == put_all(put_all(store, a), b),
    decreases b.len(),
{
    if b.len() == 0 {
        assert(a + b =~= a);
    } else {
        assert((a + b).drop_last() =~= a + b.drop_last());
        assert((a + b).last() == b.last());
        lemma_put_all_concat(store, a, b.drop_last());
    }
}

/// One entry of a directory that is to be stored: a file with its bytes, or a
/// directory with its entries, in the order in which they were listed.
#[derive(Debug)]
pub enum SourceEntry {
    File { name: String, content: Vec<u8> },
    Directory { name: String, entries: Vec<SourceEntry> },
}

/// The name that is passed over wherever it occurs.
pub open spec fn hidden_name() -> Seq<char> {
    seq!['.', 'D', 'S', '_', 'S', 't', 'o', 'r', 'e']
}

/// Whether an entry of this name is passed over.
pub fn is_hidden(name: &str) -> (yes: bool)
    ensures
        yes == (name@ == hidden_name()),
{
    proof {
        reveal_strlit(".DS_Store");
    }
    let hidden = ".DS_Store";
    assert(hidden@ =~= hidden_name());
    str_eq(name, hidden)
}

/// The line that an entry gets in the manifest of its directory: none for an
/// entry that is passed over, and none for a directory that holds nothing.
pub open spec fn entry_record(entry: SourceEntry) -> Option<RecordView>
    decreases entry, 0nat,
{
    match entry {
        SourceEntry::File { name, content } => if name@ == hidden_name() {
            None
        } else {
            Some(RecordView { name: name@, hash: file_hash(content@), kind: DiffBlobType::File })
        },
        SourceEntry::Directory { name, entries } => if name@ == hidden_name() {
            None
        } else {
            match directory_hash(entries@) {
                Some(hash) => Some(RecordView { name: name@, hash, kind: DiffBlobType::Directory }),
                None => None,
            }
        },
    }
}

/// The lines of the entries, in the order in which the entries were listed.
pub open spec fn entry_records(entries: Seq<SourceEntry>) -> Seq<RecordView>
    decreases entries, 1nat,
{
    if entries.len() == 0 {
        seq![]
    } else {
        let before = entry_records(entries.drop_last());
        match entry_record(entries.last()) {
            Some(r) => before.push(r),
            None => before,
        }
    }
}

/// The hash of the manifest of a directory with the given entries; none where
/// the directory holds nothing that gets a line.
pub open spec fn directory_hash(entries: Seq<SourceEntry>) -> Option<Seq<char>>
    decreases entries, 2nat,
{
    let records = sort_by_name(entry_records(entries));
    if records.len() == 0 {
        None
    } else {
        Some(manifest_hash(records))
    }
}

/// The blobs that storing an entry writes, in the order in which they are
/// written: what is below a directory first, the directory's manifest last.
pub open spec fn entry_blobs(entry: SourceEntry) -> Seq<Blob>
    decreases entry, 0nat,
{
    match entry {
        SourceEntry::File { name, content } => if name@ == hidden_name() {
            seq![]
        } else {
            seq![(file_hash(content@), content@)]
        },
        SourceEntry::Directory { name, entries } => if name@ == hidden_name() {
            seq![]
        } else {
            directory_blobs(entries@)
        },
    }
}

/// The blobs that storing several entries writes.
pub open spec fn entries_blobs(entries: Seq<SourceEntry>) -> Seq<Blob>
    decreases entries, 1nat,
{
    if entries.len() == 0 {
        seq![]
    } else {
        entries_blobs(entries.drop_last()) + entry_blobs(entries.last())
    }
}

/// The blobs that storing a directory with the given entries writes.
pub open spec fn directory_blobs(entries: Seq<SourceEntry>) -> Seq<Blob>
    decreases entries, 2nat,
{
    let records = sort_by_name(entry_records(entries));
    if records.len() == 0 {
        entries_blobs(entries)
    } else {
        entries_blobs(entries).push((manifest_hash(records), manifest_bytes(records)))
    }
}

/// Stores one entry and puts its line, if it gets one, behind what `records`
/// holds.
pub fn store_entry(store: &mut BlobStore, entry: &SourceEntry, records: &mut Vec<DiffBlob>)
    ensures
        final(store)@ == put_all(old(store)@, entry_blobs(*entry)),
        record_views(final(records)@) == match entry_record(*entry) {
            Some(r) => record_views(old(records)@).push(r),
            None => record_views(old(records)@),
        },
    decreases entry, 0nat,
{
    let ghost before = record_views(records@);
    match entry {
        SourceEntry::File { name, content } => {
            if is_hidden(name.as_str()) {
                return ;
            }
            write_file_blob(store, records, name.as_str(), content.as_slice());
            proof {
                let blob = (file_hash(content@), content@);
                assert(seq![blob].drop_last() =~= Seq::<Blob>::empty());
                assert(seq![blob].last() == blob);
                assert(put_all(old(store)@, Seq::<Blob>::empty()) == old(store)@);
                assert(put_all(old(store)@, seq![blob]) == put_blob(old(store)@, blob));
            }
        },
        SourceEntry::Directory { name, entries } => {
            if is_hidden(name.as_str()) {
                return ;
            }
            match create_directory_blob_file_rec(store, entries) {
                Some(hash) => {
                    let record = DiffBlob {
                        name: name.clone(),
                        hash,
                        blob_type: DiffBlobType::Directory,
                    };
                    let ghost pushed = record@;
                    records.push(record);
                    assert(record_views(records@) =~= before.push(pushed));
                },
                None => {},
            }
        },
    }
}

/// Stores the given entries, one after the other, and returns their lines in
/// the order in which the entries were listed.
pub fn store_entries(store: &mut BlobStore, entries: &Vec<SourceEntry>) -> (records: Vec<DiffBlob>)
    ensures
        final(store)@ == put_all(old(store)@, entries_blobs(entries@)),
        record_views(records@) == entry_records(entries@),
    decreases entries, 1nat,
{
    let mut records: Vec<DiffBlob> = Vec::new();
    let mut i: usize = 0;
    assert(entries@.subrange(0, 0) =~= Seq::<SourceEntry>::empty());
    assert(record_views(records@) =~= Seq::<RecordView>::empty());
    while i < entries.len()
        invariant
            i <= entries.len(),
            store@ == put_all(old(store)@, entries_blobs(entries@.subrange(0, i as int))),
            record_views(records@) == entry_records(entries@.subrange(0, i as int)),
        decreases entries.len() - i,
    {
        proof {
            let upto = entries@.subrange(0, i + 1);
            assert(upto.drop_last() =~= entries@.subrange(0, i as int));
            assert(upto.last() == entries@[i as int]);
            lemma_put_all_concat(
                old(store)@,
                entries_blobs(entries@.subrange(0, i as int)),
                entry_blobs(entries@[i as int]),
            );
        }
        store_entry(store, &entries[i], &mut records);
        i = i + 1;
    }
    assert(entries@.subrange(0, entries.len() as int) =~= entries@);
    records
}

/// Stores a directory with the given entries: everything below it, and then
/// its manifest, whose lines are in the order of the names. Returns the
/// manifest's hash. A directory that holds nothing which gets a line leaves
/// nothing in the store and has no hash.
pub fn create_directory_blob_file_rec(store: &mut BlobStore, entries: &Vec<SourceEntry>) -> (hash:
    Option<String>)
    ensures
        final(store)@ == put_all(old(store)@, directory_blobs(entries@)),
        match hash {
            Some(text) => directory_hash(entries@) == Some(text@),
            None => directory_hash(entries@) is None,
        },
    decreases entries, 2nat,
{
    let records = store_entries(store, entries);
    if records.len() == 0 {
        proof {
            assert(sort_by_name(entry_records(entries@)) =~= Seq::<RecordView>::empty());
        }
        return None;
    }
    proof {
        lemma_sort_by_name_len(record_views(records@));
    }
    let hash = write_directory_blob(store, records);
    proof {
        let views = sort_by_name(entry_records(entries@));
        let blob = (manifest_hash(views), manifest_bytes(views));
        assert(entries_blobs(entries@).push(blob).drop_last() =~= entries_blobs(entries@));
    }
    Some(hash)
}

/// A directory on which work has begun: its name, its entries, how many of
/// them have been looked at, and the lines that these have given.
struct Frame<'a> {
    name: &'a String,
    entries: &'a Vec<SourceEntry>,
    next: usize,
    records: Vec<DiffBlob>,
}

/// How much work an entry stands for: one step for a file; for a directory
/// one step to go into it, one to come back, and the steps of what it holds.
spec fn entry_weight(entry: SourceEntry) -> nat
    decreases entry, 0nat,
{
    match entry {
        SourceEntry::File { .. } => 1,
        SourceEntry::Directory { entries, .. } => 2 + entries_weight(entries@),
    }
}

/// How much work several entries stand for.
spec fn entries_weight(entries: Seq<SourceEntry>) -> nat
    decreases entries, 1nat,
{
    if entries.len() == 0 {
        0
    } else {
        entry_weight(entries[0]) + entries_weight(entries.drop_first())
    }
}

/// The directory `f` waits for the directory with the given name and entries,
/// which is the last of its entries that it has looked at; its lines are those
/// of the entries before that one.
spec fn waits_for(f: Frame, name: String, entries: Vec<SourceEntry>) -> bool {
    &&& 1 <= f.next <= f.entries@.len()
    &&& f.entries@[f.next - 1] == (SourceEntry::Directory { name, entries })
    &&& name@ != hidden_name()
    &&& record_views(f.records@) == entry_records(f.entries@.subrange(0, f.next - 1))
}

/// Each directory of `waiting` waits for the one behind it, and the last one
/// for the directory with the given name and entries.
spec fn waiting_chain(waiting: Seq<Frame>, name: String, entries: Vec<SourceEntry>) -> bool
    decreases waiting.len(),
{
    if waiting.len() == 0 {
        true
    } else {
        waits_for(waiting.last(), name, entries) && waiting_chain(
            waiting.drop_last(),
            *waiting.last().name,
            *waiting.last().entries,
        )
    }
}

/// The blobs that have been written for the directories that wait: for each,
/// those of its entries before the one it waits for.
spec fn waiting_blobs(waiting: Seq<Frame>) -> Seq<Blob>
    decreases waiting.len(),
{
    if waiting.len() == 0 {
        seq![]
    } else {
        waiting_blobs(waiting.drop_last()) + entries_blobs(
            waiting.last().entries@.subrange(0, waiting.last().next - 1),
        )
    }
}

/// The work that is left in the directories that wait.
spec fn waiting_weight(waiting: Seq<Frame>) -> nat
    decreases waiting.len(),
{
    if waiting.len() == 0 {
        0
    } else {
        waiting_weight(waiting.drop_last()) + 1 + entries_weight(
            waiting.last().entries@.subrange(
                waiting.last().next as int,
                waiting.last().entries@.len() as int,
            ),
        )
    }
}

/// The work that is left in the directory at hand.
spec fn frame_weight(f: Frame) -> nat {
    entries_weight(f.entries@.subrange(f.next as int, f.entries@.len() as int))
}

/// What holds between two steps of `create_directory_blob_file`: the lines of
/// the directory at hand are those of the entries looked at, the directories
/// that wait form a chain down to it from the directory that was asked for,
/// and the store holds what `start` held and the blobs written so far.
#[verifier::opaque]
spec fn builder_state(
    root: Vec<SourceEntry>,
    start: Map<Seq<char>, Seq<u8>>,
    store: Map<Seq<char>, Seq<u8>>,
    waiting: Seq<Frame>,
    top: Frame,
) -> bool {
    &&& top.next <= top.entries@.len()
    &&& record_views(top.records@) == entry_records(top.entries@.subrange(0, top.next as int))
    &&& waiting_chain(waiting, *top.name, *top.entries)
    &&& store == put_all(
        start,
        waiting_blobs(waiting) + entries_blobs(top.entries@.subrange(0, top.next as int)),
    )
    &&& (waiting.len() == 0 ==> *top.entries == root)
    &&& (waiting.len() > 0 ==> *waiting[0].entries == root)
}

proof fn lemma_builder_begins(root: Vec<SourceEntry>, start: Map<Seq<char>, Seq<u8>>, top: Frame)
    requires
        *top.entries == root,
        top.next == 0,
        top.records@.len() == 0,
    ensures
        builder_state(root, start, start, Seq::<Frame>::empty(), top),
{
    reveal(builder_state);
    assert(top.entries@.subrange(0, 0) =~= Seq::<SourceEntry>::empty());
    assert(record_views(top.records@) =~= Seq::<RecordView>::empty());
    assert(waiting_blobs(Seq::<Frame>::empty()) + entries_blobs(Seq::<SourceEntry>::empty())
        =~= Seq::<Blob>::empty());
}

/// One entry of the directory at hand has been dealt with on the spot.
proof fn lemma_builder_steps(
    root: Vec<SourceEntry>,
    start: Map<Seq<char>, Seq<u8>>,
    store: Map<Seq<char>, Seq<u8>>,
    after: Map<Seq<char>, Seq<u8>>,
    waiting: Seq<Frame>,
    top: Frame,
    next: Frame,
)
    requires
        builder_state(root, start, store, waiting, top),
        top.next < top.entries@.len(),
        next.name == top.name,
        next.entries == top.entries,
        next.next == top.next + 1,
        record_views(next.records@) == match entry_record(top.entries@[top.next as int]) {
            Some(r) => record_views(top.records@).push(r),
            None => record_views(top.records@),
        },
        after == put_all(store, entry_blobs(top.entries@[top.next as int])),
    ensures
        builder_state(root, start, after, waiting, next),
        frame_weight(next) < frame_weight(top),
{
    reveal(builder_state);
    let entry = top.entries@[top.next as int];
    let done = top.entries@.subrange(0, top.next as int);
    let upto = top.entries@.subrange(0, top.next + 1);
    let left = top.entries@.subrange(top.next as int, top.entries@.len() as int);
    assert(upto.drop_last() =~= done);
    assert(upto.last() == entry);
    assert(left[0] == entry);
    assert(left.drop_first() =~= top.entries@.subrange(top.next + 1, top.entries@.len() as int));
    let written = waiting_blobs(waiting) + entries_blobs(done);
    assert(waiting_blobs(waiting) + entries_blobs(upto) =~= written + entry_blobs(entry));
    lemma_put_all_concat(start, written, entry_blobs(entry));
    assert(entries_weight(left) == entry_weight(entry) + entries_weight(left.drop_first()));
    assert(entry_weight(entry) >= 1) by {
        match entry {
            SourceEntry::File { .. } => {},
            SourceEntry::Directory { .. } => {},
        }
    }
}

/// Work begins on a directory that the directory at hand holds.
proof fn lemma_builder_enters(
    root: Vec<SourceEntry>,
    start: Map<Seq<char>, Seq<u8>>,
    store: Map<Seq<char>, Seq<u8>>,
    waiting: Seq<Frame>,
    top: Frame,
    parent: Frame,
    child: Frame,
)
    requires
        builder_state(root, start, store, waiting, top),
        top.next < top.entries@.len(),
        top.entries@[top.next as int] == (SourceEntry::Directory {
            name: *child.name,
            entries: *child.entries,
        }),
        child.name@ != hidden_name(),
        child.next == 0,
        child.records@.len() == 0,
        parent.name == top.name,
        parent.entries == top.entries,
        parent.next == top.next + 1,
        parent.records == top.records,
    ensures
        builder_state(root, start, store, waiting.push(parent), child),
        waiting_weight(waiting.push(parent)) + frame_weight(child) < waiting_weight(waiting)
            + frame_weight(top),
{
    reveal(builder_state);
    let grown = waiting.push(parent);
    let left = top.entries@.subrange(top.next as int, top.entries@.len() as int);
    assert(grown.drop_last() =~= waiting);
    assert(grown.last() == parent);
    assert(left[0] == top.entries@[top.next as int]);
    assert(left.drop_first() =~= top.entries@.subrange(top.next + 1, top.entries@.len() as int));
    assert(child.entries@.subrange(0, 0) =~= Seq::<SourceEntry>::empty());
    assert(child.entries@.subrange(0, child.entries@.len() as int) =~= child.entries@);
    assert(record_views(child.records@) =~= Seq::<RecordView>::empty());
    assert(waiting_blobs(grown) + entries_blobs(child.entries@.subrange(0, 0)) =~= waiting_blobs(
        waiting,
    ) + entries_blobs(top.entries@.subrange(0, top.next as int)));
    if waiting.len() > 0 {
        assert(grown[0] == waiting[0]);
    }
    let entry = top.entries@[top.next as int];
    assert(entries_weight(left) == entry_weight(entry) + entries_weight(left.drop_first()));
    assert(entry_weight(entry) == 2 + entries_weight(child.entries@));
    assert(waiting_weight(grown) == waiting_weight(waiting) + 1 + frame_weight(parent));
}

/// The directory at hand is done, and the work goes back to the directory
/// that waited for it.
proof fn lemma_builder_leaves(
    root: Vec<SourceEntry>,
    start: Map<Seq<char>, Seq<u8>>,
    store: Map<Seq<char>, Seq<u8>>,
    after: Map<Seq<char>, Seq<u8>>,
    waiting: Seq<Frame>,
    top: Frame,
    parent: Frame,
)
    requires
        builder_state(root, start, store, waiting, top),
        top.next == top.entries@.len(),
        waiting.len() > 0,
        after == put_all(start, waiting_blobs(waiting) + directory_blobs(top.entries@)),
        parent.name == waiting.last().name,
        parent.entries == waiting.last().entries,
        parent.next == waiting.last().next,
        record_views(parent.records@) == match directory_hash(top.entries@) {
            Some(hash) => record_views(waiting.last().records@).push(
                RecordView { name: top.name@, hash, kind: DiffBlobType::Directory },
            ),
            None => record_views(waiting.last().records@),
        },
    ensures
        builder_state(root, start, after, waiting.drop_last(), parent),
        waiting_weight(waiting.drop_last()) + frame_weight(parent) < waiting_weight(waiting)
            + frame_weight(top),
{
    reveal(builder_state);
    let rest = waiting.drop_last();
    let held = waiting.last();
    assert(waits_for(held, *top.name, *top.entries));
    let below = held.entries@[held.next - 1];
    assert(below == (SourceEntry::Directory { name: *top.name, entries: *top.entries }));
    assert(entry_blobs(below) == directory_blobs(top.entries@));
    assert(entry_record(below) == match directory_hash(top.entries@) {
        Some(hash) => Some(RecordView { name: top.name@, hash, kind: DiffBlobType::Directory }),
        None => None::<RecordView>,
    });
    let upto = parent.entries@.subrange(0, parent.next as int);
    let before = parent.entries@.subrange(0, parent.next - 1);
    assert(upto.drop_last() =~= before);
    assert(upto.last() == below);
    assert(waiting_blobs(rest) + entries_blobs(upto) =~= waiting_blobs(waiting) + directory_blobs(
        top.entries@,
    ));
    if rest.len() > 0 {
        assert(rest[0] == waiting[0]);
    }
}

/// The directory that was asked for is done.
proof fn lemma_builder_ends(
    root: Vec<SourceEntry>,
    start: Map<Seq<char>, Seq<u8>>,
    store: Map<Seq<char>, Seq<u8>>,
    top: Frame,
)
    requires
        builder_state(root, start, store, Seq::<Frame>::empty(), top),
    ensures
        *top.entries == root,
        waiting_blobs(Seq::<Frame>::empty()) + directory_blobs(top.entries@) == directory_blobs(
            root@,
        ),
{
    reveal(builder_state);
    assert(waiting_blobs(Seq::<Frame>::empty()) + directory_blobs(top.entries@) =~= directory_blobs(
        root@,
    ));
}

/// When the last entry of the directory at hand has been looked at, its lines
/// are those of all its entries, and what has been written so far is what was
/// written for the directories that wait and for all its entries.
proof fn lemma_builder_at_end(
    root: Vec<SourceEntry>,
    start: Map<Seq<char>, Seq<u8>>,
    store: Map<Seq<char>, Seq<u8>>,
    waiting: Seq<Frame>,
    top: Frame,
)
    requires
        builder_state(root, start, store, waiting, top),
        top.next == top.entries@.len(),
    ensures
        record_views(top.records@) == entry_records(top.entries@),
        store == put_all(start, waiting_blobs(waiting) + entries_blobs(top.entries@)),
{
    reveal(builder_state);
    assert(top.entries@.subrange(0, top.next as int) =~= top.entries@);
}

/// Stores a directory with the given entries, as `create_directory_blob_file_rec`
/// does and in the same order, without calling itself: the directories on
/// which work has begun are kept in a list.
pub fn create_directory_blob_file(store: &mut BlobStore, entries: &Vec<SourceEntry>) -> (hash: Option<
    String,
>)
    ensures
        final(store)@ == put_all(old(store)@, directory_blobs(entries@)),
        match hash {
            Some(text) => directory_hash(entries@) == Some(text@),
            None => directory_hash(entries@) is None,
        },
{
    let root_name = String::new();
    let mut waiting: Vec<Frame> = Vec::new();
    let mut top = Frame { name: &root_name, entries, next: 0, records: Vec::new() };
    proof {
        lemma_builder_begins(*entries, store@, top);
    }
    loop
        invariant
            top.next <= top.entries@.len(),
            builder_state(*entries, old(store)@, store@, waiting@, top),
        decreases waiting_weight(waiting@) + frame_weight(top),
    {
        let ghost before = top;
        let ghost stored = store@;
        let ghost suspended = waiting@;
        if top.next < top.entries.len() {
            let entry = &top.entries[top.next];
            match entry {
                SourceEntry::File { name, content } => {
                    if !is_hidden(name.as_str()) {
                        write_file_blob(store, &mut top.records, name.as_str(), content.as_slice());
                        proof {
                            let blob = (file_hash(content@), content@);
                            assert(seq![blob].drop_last() =~= Seq::<Blob>::empty());
                            assert(seq![blob].last() == blob);
                            assert(put_all(stored, Seq::<Blob>::empty()) == stored);
                        }
                    } else {
                        assert(put_all(stored, Seq::<Blob>::empty()) == stored);
                    }
                    top.next = top.next + 1;
                    proof {
                        lemma_builder_steps(
                            *entries,
                            old(store)@,
                            stored,
                            store@,
                            suspended,
                            before,
                            top,
                        );
                    }
                },
                SourceEntry::Directory { name, entries: below } => {
                    top.next = top.next + 1;
                    if !is_hidden(name.as_str()) {
                        let ghost parent = top;
                        waiting.push(top);
                        top = Frame { name, entries: below, next: 0, records: Vec::new() };
                        proof {
                            lemma_builder_enters(
                                *entries,
                                old(store)@,
                                stored,
                                suspended,
                                before,
                                parent,
                                top,
                            );
                        }
                    } else {
                        proof {
                            assert(put_all(stored, Seq::<Blob>::empty()) == stored);
                            lemma_builder_steps(
                                *entries,
                                old(store)@,
                                stored,
                                store@,
                                suspended,
                                before,
                                top,
                            );
                        }
                    }
                },
            }
        } else {
            proof {
                lemma_builder_at_end(*entries, old(store)@, stored, suspended, before);
            }
            let finished_name = top.name;
            let records = top.records;
            let ghost written = waiting_blobs(suspended) + entries_blobs(before.entries@);
            proof {
                lemma_sort_by_name_len(record_views(records@));
            }
            let hash = if records.len() == 0 {
                assert(waiting_blobs(suspended) + directory_blobs(before.entries@) =~= written);
                None
            } else {
                let hash = write_directory_blob(store, records);
                proof {
                    let views = sort_by_name(entry_records(before.entries@));
                    let blob = (manifest_hash(views), manifest_bytes(views));
                    assert((written.push(blob)).drop_last() =~= written);
                    assert(waiting_blobs(suspended) + directory_blobs(before.entries@)
                        =~= written.push(blob));
                }
                Some(hash)
            };
            match waiting.pop() {
                None => {
                    proof {
                        assert(suspended =~= Seq::<Frame>::empty());
                        lemma_builder_ends(*entries, old(store)@, stored, before);
                    }
                    return hash;
                },
                Some(parent) => {
                    top = parent;
                    let ghost held = record_views(top.records@);
                    match hash {
                        Some(hash) => {
                            let record = DiffBlob {
                                name: finished_name.clone(),
                                hash,
                                blob_type: DiffBlobType::Directory,
                            };
                            let ghost pushed = record@;
                            top.records.push(record);
                            assert(record_views(top.records@) =~= held.push(pushed));
                        },
                        None => {},
                    }
                    proof {
                        assert(waiting@ =~= suspended.drop_last());
                        lemma_builder_leaves(
                            *entries,
                            old(store)@,
                            stored,
                            store@,
                            suspended,
                            before,
                            top,
                        );
                        reveal(builder_state);
                    }
                },
            }
        }
    }
}

/// Every hash that this library computes can be cut into shard and name.
pub proof fn lemma_file_hash_can_be_sharded(content: Seq<u8>)
    ensures
        can_be_sharded(file_hash(content)),
        file_hash(content).len() == 16,
{
    crate::digest::lemma_hash_text_shape(xxh64_digest(content));
    assert(crate::digest::is_lower_hex(file_hash(content)[0]));
}

/// The two parts into which a hash is cut make up the hash again: nothing
/// of it is lost, and the shard's name is its first character alone.
pub proof fn lemma_shard_keeps_hash(hash: Seq<char>)
    requires
        hash.len() > 0,
    ensures
        hash.subrange(0, 1) + hash.subrange(1, hash.len() as int) == hash,
        hash.subrange(0, 1).len() == 1,
{
    assert(hash.subrange(0, 1) + hash.subrange(1, hash.len() as int) =~= hash);
}

/// The store holds every blob that has been written into it.
pub proof fn lemma_put_all_holds(store: Map<Seq<char>, Seq<u8>>, blobs: Seq<Blob>, i: int)
    requires
        0 <= i < blobs.len(),
    ensures
        put_all(store, blobs).contains_key(blobs[i].0),
    decreases blobs.len(),
{
    if i < blobs.len() - 1 {
        lemma_put_all_holds(store, blobs.drop_last(), i);
        assert(blobs.drop_last()[i] == blobs[i]);
    }
}

/// Writing blobs into a store leaves what the store held as it was.
pub proof fn lemma_put_all_keeps(store: Map<Seq<char>, Seq<u8>>, blobs: Seq<Blob>)
    ensures
        forall|k: Seq<char>| #[trigger]
            store.dom().contains(k) ==> put_all(store, blobs).dom().contains(k) && put_all(
                store,
                blobs,
            )[k] == store[k],
        store.submap_of(put_all(store, blobs)),
    decreases blobs.len(),
{
    if blobs.len() > 0 {
        lemma_put_all_keeps(store, blobs.drop_last());
    }
}

/// Writing blobs that the store holds already changes nothing.
pub proof fn lemma_put_all_of_held(store: Map<Seq<char>, Seq<u8>>, blobs: Seq<Blob>)
    requires
        forall|i: int| 0 <= i < blobs.len() ==> store.contains_key((#[trigger] blobs[i]).0),
    ensures
        put_all(store, blobs) == store,
    decreases blobs.len(),
{
    if blobs.len() > 0 {
        assert forall|i: int| 0 <= i < blobs.drop_last().len() implies store.contains_key(
            (#[trigger] blobs.drop_last()[i]).0,
        ) by {
            assert(blobs.drop_last()[i] == blobs[i]);
        }
        lemma_put_all_of_held(store, blobs.drop_last());
        assert(store.contains_key(blobs[blobs.len() - 1].0));
    }
}

/// Storing the same blobs a second time changes nothing: the store after the
/// second run is the store after the first.
pub proof fn lemma_put_all_twice(store: Map<Seq<char>, Seq<u8>>, blobs: Seq<Blob>)
    ensures
        put_all(put_all(store, blobs), blobs) == put_all(store, blobs),
{
    let once = put_all(store, blobs);
    assert forall|i: int| 0 <= i < blobs.len() implies once.contains_key((#[trigger] blobs[i]).0) by {
        lemma_put_all_holds(store, blobs, i);
    }
    lemma_put_all_of_held(once, blobs);
}

/// A snapshot taken twice into the same store gives the same root hash, and
/// the second run leaves the store as the first one left it.
pub proof fn lemma_snapshot_twice(store: Map<Seq<char>, Seq<u8>>, entries: Seq<SourceEntry>)
    ensures
        put_all(put_all(store, directory_blobs(entries)), directory_blobs(entries)) == put_all(
            store,
            directory_blobs(entries),
        ),
{
    lemma_put_all_twice(store, directory_blobs(entries));
}

/// Two snapshots of the same tree into two stores that hold the same give the
/// same root hash and leave the two stores holding the same.
pub proof fn lemma_snapshot_is_determined(
    first: Map<Seq<char>, Seq<u8>>,
    second: Map<Seq<char>, Seq<u8>>,
    entries: Seq<SourceEntry>,
)
    requires
        first =~= second,
    ensures
        put_all(first, directory_blobs(entries)) == put_all(second, directory_blobs(entries)),
{
}

/// The lines of two lists of entries laid end to end are the lines of the one
/// and then those of the other.
pub proof fn lemma_entry_records_concat(a: Seq<SourceEntry>, b: Seq<SourceEntry>)
    ensures
        entry_records(a + b) == entry_records(a) + entry_records(b),
    decreases b.len(),
{
    if b.len() == 0 {
        assert(a + b =~= a);
        assert(entry_records(a) + entry_records(b) =~= entry_records(a));
    } else {
        assert((a + b).drop_last() =~= a + b.drop_last());
        assert((a + b).last() == b.last());
        lemma_entry_records_concat(a, b.drop_last());
        match entry_record(b.last()) {
            Some(r) => {
                assert(entry_records(a + b) =~= entry_records(a) + entry_records(b));
            },
            None => {},
        }
    }
}

/// The blobs of two lists of entries laid end to end are the blobs of the one
/// and then those of the other.
pub proof fn lemma_entries_blobs_concat(a: Seq<SourceEntry>, b: Seq<SourceEntry>)
    ensures
        entries_blobs(a + b) == entries_blobs(a) + entries_blobs(b),
    decreases b.len(),
{
    if b.len() == 0 {
        assert(a + b =~= a);
        assert(entries_blobs(a) + entries_blobs(b) =~= entries_blobs(a));
    } else {
        assert((a + b).drop_last() =~= a + b.drop_last());
        assert((a + b).last() == b.last());
        lemma_entries_blobs_concat(a, b.drop_last());
        assert(entries_blobs(a + b) =~= entries_blobs(a) + entries_blobs(b));
    }
}

/// The entry is named `.DS_Store`.
pub open spec fn entry_is_hidden(entry: SourceEntry) -> bool {
    match entry {
        SourceEntry::File { name, .. } => name@ == hidden_name(),
        SourceEntry::Directory { name, .. } => name@ == hidden_name(),
    }
}

/// An entry named `.DS_Store`, put into a directory at any place, changes
/// neither the directory's hash nor what is written into the store.
pub proof fn lemma_hidden_entry_leaves_no_trace(
    entries: Seq<SourceEntry>,
    at: int,
    hidden: SourceEntry,
)
    requires
        0 <= at <= entries.len(),
        entry_is_hidden(hidden),
    ensures
        entry_record(hidden) is None,
        entry_blobs(hidden) == Seq::<Blob>::empty(),
        directory_hash(entries.insert(at, hidden)) == directory_hash(entries),
        directory_blobs(entries.insert(at, hidden)) == directory_blobs(entries),
{
    let front = entries.subrange(0, at);
    let back = entries.subrange(at, entries.len() as int);
    let one = seq![hidden];
    assert(entries =~= front + back);
    assert(entries.insert(at, hidden) =~= front + one + back);
    assert(one.drop_last() =~= Seq::<SourceEntry>::empty());
    assert(entry_records(Seq::<SourceEntry>::empty()) =~= Seq::<RecordView>::empty());
    assert(entries_blobs(Seq::<SourceEntry>::empty()) =~= Seq::<Blob>::empty());
    assert(one.last() == hidden);
    assert(entry_blobs(hidden) =~= Seq::<Blob>::empty());
    assert(entry_records(one) =~= Seq::<RecordView>::empty());
    assert(entries_blobs(one) =~= Seq::<Blob>::empty());
    lemma_entry_records_concat(front, one);
    lemma_entry_records_concat(front + one, back);
    lemma_entry_records_concat(front, back);
    lemma_entries_blobs_concat(front, one);
    lemma_entries_blobs_concat(front + one, back);
    lemma_entries_blobs_concat(front, back);
    assert(entry_records(front) + entry_records(one) =~= entry_records(front));
    assert(entries_blobs(front) + entries_blobs(one) =~= entries_blobs(front));
}

/// A directory that holds nothing which gets a line leaves no trace: it has no
/// hash, gets no line in the directory above it, and no manifest is written
/// for it.
pub proof fn lemma_empty_directory_leaves_no_trace(name: String, entries: Vec<SourceEntry>)
    requires
        entry_records(entries@).len() == 0,
    ensures
        directory_hash(entries@) is None,
        entry_record(SourceEntry::Directory { name, entries }) is None,
        directory_blobs(entries@) == entries_blobs(entries@),
{
    assert(sort_by_name(entry_records(entries@)) =~= Seq::<RecordView>::empty());
}

/// A directory's hash depends on its entries only through their lines: an
/// entry may be put in the place of another that gets the same line, and the
/// hash stays. So whatever is changed further down without changing the hash
/// of the directory it is in, changes no hash further up.
pub proof fn lemma_same_line_same_hash(entries: Seq<SourceEntry>, at: int, other: SourceEntry)
    requires
        0 <= at < entries.len(),
        entry_record(other) == entry_record(entries[at]),
    ensures
        entry_records(entries.update(at, other)) == entry_records(entries),
        directory_hash(entries.update(at, other)) == directory_hash(entries),
{
    let front = entries.subrange(0, at);
    let back = entries.subrange(at + 1, entries.len() as int);
    let was = seq![entries[at]];
    let is = seq![other];
    assert(entries =~= front + was + back);
    assert(entries.update(at, other) =~= front + is + back);
    assert(was.drop_last() =~= Seq::<SourceEntry>::empty());
    assert(is.drop_last() =~= Seq::<SourceEntry>::empty());
    assert(was.last() == entries[at]);
    assert(is.last() == other);
    assert(entry_records(was) == entry_records(is));
    lemma_entry_records_concat(front, was);
    lemma_entry_records_concat(front + was, back);
    lemma_entry_records_concat(front, is);
    lemma_entry_records_concat(front + is, back);
}

/// Every blob of the list lies under the hash of its own bytes.
pub open spec fn named_by_content(blobs: Seq<Blob>) -> bool {
    forall|i: int| 0 <= i < blobs.len() ==> (#[trigger] blobs[i]).0 == file_hash(blobs[i].1)
}

proof fn lemma_named_by_content_concat(a: Seq<Blob>, b: Seq<Blob>)
    requires
        named_by_content(a),
        named_by_content(b),
    ensures
        named_by_content(a + b),
{
    assert forall|i: int| 0 <= i < (a + b).len() implies (#[trigger] (a + b)[i]).0 == file_hash(
        (a + b)[i].1,
    ) by {
        if i < a.len() {
            assert((a + b)[i] == a[i]);
        } else {
            assert((a + b)[i] == b[i - a.len()]);
        }
    }
}

/// Every blob that storing an entry writes lies under the hash of its own
/// bytes.
pub proof fn lemma_entry_blobs_named_by_content(entry: SourceEntry)
    ensures
        named_by_content(entry_blobs(entry)),
    decreases entry, 0nat,
{
    match entry {
        SourceEntry::File { .. } => {},
        SourceEntry::Directory { name, entries } => {
            if name@ != hidden_name() {
                lemma_directory_blobs_named_by_content(entries@);
            }
        },
    }
}

/// Every blob that storing several entries writes lies under the hash of its
/// own bytes.
pub proof fn lemma_entries_blobs_named_by_content(entries: Seq<SourceEntry>)
    ensures
        named_by_content(entries_blobs(entries)),
    decreases entries, 1nat,
{
    if entries.len() > 0 {
        lemma_entries_blobs_named_by_content(entries.drop_last());
        lemma_entry_blobs_named_by_content(entries.last());
        lemma_named_by_content_concat(
            entries_blobs(entries.drop_last()),
            entry_blobs(entries.last()),
        );
    }
}

/// Every blob that a snapshot writes, file or manifest, lies under the hash of
/// its own bytes, and so at the one sharded path that its bytes decide.
pub proof fn lemma_directory_blobs_named_by_content(entries: Seq<SourceEntry>)
    ensures
        named_by_content(directory_blobs(entries)),
    decreases entries, 2nat,
{
    lemma_entries_blobs_named_by_content(entries);
    let records = sort_by_name(entry_records(entries));
    if records.len() > 0 {
        let blob = (manifest_hash(records), manifest_bytes(records));
        lemma_named_by_content_concat(entries_blobs(entries), seq![blob]);
        assert(entries_blobs(entries).push(blob) =~= entries_blobs(entries) + seq![blob]);
    }
}

} // verus!
