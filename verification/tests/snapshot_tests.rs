use ditiear::common::{DiffBlob, DiffBlobType};
use ditiear::digest::{bytes_hash, digest_of, push_hex, ContentHasher};
use ditiear::hash::{
    calculate_file_hash, create_directory_blob_file, create_directory_blob_file_rec, is_hidden,
    manifest_of, names_in_order, path_from_hash, sort_records, split_dir_and_name,
    write_directory_blob, write_file_blob, SourceEntry,
};
use ditiear::store::{read_manifest, BlobStore};

fn file(name: &str, content: &str) -> SourceEntry {
    SourceEntry::File { name: name.to_string(), content: content.as_bytes().to_vec() }
}

fn dir(name: &str, entries: Vec<SourceEntry>) -> SourceEntry {
    SourceEntry::Directory { name: name.to_string(), entries }
}

fn record(name: &str, hash: &str, kind: DiffBlobType) -> DiffBlob {
    DiffBlob::new(name.to_string(), hash.to_string(), kind)
}

#[test]
fn digests_match_the_reference_values() {
    assert_eq!(digest_of(&[]), 0xef46_db37_51d8_e999);
    assert_eq!(digest_of(&[42]), 0x0a9e_dece_beb0_3ae4);
    assert_eq!(digest_of(b"Hello, world!\0"), 0x7b06_c531_ea43_e89f);
    let bytes: Vec<u8> = (0..100).collect();
    assert_eq!(digest_of(&bytes), 0x6ac1_e580_3216_6597);
}

#[test]
fn hashes_are_sixteen_lower_case_hex_digits() {
    assert_eq!(calculate_file_hash(&[]), "ef46db3751d8e999");
    assert_eq!(calculate_file_hash(&[42]), "0a9edecebeb03ae4");
    assert_eq!(bytes_hash(b"Hello, world!\0"), "7b06c531ea43e89f");
}

#[test]
fn the_cut_of_the_pieces_does_not_show_in_the_hash() {
    let bytes: Vec<u8> = (0..100).collect();
    let mut hasher = ContentHasher::new();
    assert_eq!(hasher.finish(), "ef46db3751d8e999");
    hasher.update(&bytes[..1]);
    hasher.update(&bytes[1..33]);
    hasher.update(&[]);
    hasher.update(&bytes[33..]);
    assert_eq!(hasher.finish(), "6ac1e58032166597");
    assert_eq!(hasher.finish(), bytes_hash(&bytes));
}

#[test]
fn hex_is_padded_and_never_cut() {
    let mut out = String::from("x");
    push_hex(&mut out, 0, 2);
    push_hex(&mut out, 0xab, 2);
    push_hex(&mut out, 0x100, 2);
    push_hex(&mut out, 7, 0);
    push_hex(&mut out, u64::MAX, 16);
    assert_eq!(out, "x00ab1007ffffffffffffffff");
}

#[test]
fn hash_is_cut_behind_its_first_character() {
    assert_eq!(split_dir_and_name("19127e790ea4e3ea"), ("1", "9127e790ea4e3ea"));
    assert_eq!(split_dir_and_name("a"), ("a", ""));
    assert_eq!(path_from_hash("19127e790ea4e3ea", "blobs"), "blobs/1/9127e790ea4e3ea");
    assert_eq!(path_from_hash("0a9edecebeb03ae4", ""), "/0/a9edecebeb03ae4");
}

#[test]
fn names_are_ordered_by_their_bytes() {
    assert!(names_in_order("a", "b"));
    assert!(!names_in_order("b", "a"));
    assert!(names_in_order("a", "a"));
    assert!(names_in_order("", "a"));
    assert!(names_in_order("a", "ab"));
    assert!(!names_in_order("ab", "a"));
    assert!(names_in_order("Z", "a"));
    assert!(names_in_order("z", "\u{e9}"));
    assert!(names_in_order("a10", "a2"));
}

#[test]
fn records_are_sorted_by_name() {
    let sorted = sort_records(vec![
        record("b", "1", DiffBlobType::File),
        record("a", "2", DiffBlobType::Directory),
        record("c", "3", DiffBlobType::File),
        record("a", "4", DiffBlobType::File),
    ]);
    let names: Vec<(&str, &str)> = sorted.iter().map(|r| (r.name(), r.hash())).collect();
    assert_eq!(names, vec![("a", "2"), ("a", "4"), ("b", "1"), ("c", "3")]);
}

#[test]
fn only_the_one_name_is_hidden() {
    assert!(is_hidden(".DS_Store"));
    assert!(!is_hidden(".ds_store"));
    assert!(!is_hidden(".DS_Store "));
    assert!(!is_hidden(""));
}

#[test]
fn a_file_is_stored_under_the_hash_of_its_bytes() {
    let mut store = BlobStore::new();
    let mut entries = Vec::new();
    write_file_blob(&mut store, &mut entries, "answer", &[42]);
    assert_eq!(entries.len(), 1);
    assert_eq!(entries[0].name(), "answer");
    assert_eq!(entries[0].hash(), "0a9edecebeb03ae4");
    assert_eq!(entries[0].blob_type(), DiffBlobType::File);
    assert_eq!(store.get("0a9edecebeb03ae4"), Some(&[42u8][..]));
    assert_eq!(store.len(), 1);
    write_file_blob(&mut store, &mut entries, "again", &[42]);
    assert_eq!(store.len(), 1);
    assert_eq!(entries.len(), 2);
}

#[test]
fn a_blob_is_never_overwritten() {
    let mut store = BlobStore::new();
    assert!(store.put_if_absent("abc".to_string(), vec![1, 2, 3]));
    assert!(!store.put_if_absent("abc".to_string(), vec![9]));
    assert_eq!(store.get("abc"), Some(&[1u8, 2, 3][..]));
    assert_eq!(store.get("abd"), None);
    assert!(store.contains("abc"));
    assert_eq!(store.len(), 1);
    assert_eq!(store.blob_at(0).0, "abc");
}

#[test]
fn a_manifest_is_its_lines_one_behind_the_other() {
    let records = vec![record("a", "1", DiffBlobType::File), record("b", "2", DiffBlobType::Directory)];
    let bytes = manifest_of(&records);
    assert_eq!(bytes, b"a 1 file 010104\nb 2 directory 010109\n".to_vec());
    let mut store = BlobStore::new();
    let hash = write_directory_blob(&mut store, records);
    assert_eq!(hash, bytes_hash(&bytes));
    assert_eq!(store.get(&hash), Some(&bytes[..]));
}

#[test]
fn a_manifest_is_written_in_the_order_of_the_names() {
    let mut store = BlobStore::new();
    let shuffled = vec![
        record("b", "2", DiffBlobType::Directory),
        record("c", "3", DiffBlobType::File),
        record("a", "1", DiffBlobType::File),
    ];
    let hash = write_directory_blob(&mut store, shuffled);
    let expected = b"a 1 file 010104\nb 2 directory 010109\nc 3 file 010104\n";
    assert_eq!(store.get(&hash), Some(&expected[..]));
    assert_eq!(hash, bytes_hash(expected));
}

fn sample_tree() -> Vec<SourceEntry> {
    vec![
        file("b.txt", "bee"),
        dir("sub", vec![file("z", "last"), file("y", "first")]),
        file("a.txt", "ay"),
    ]
}

#[test]
fn a_snapshot_writes_files_and_sorted_manifests() {
    let mut store = BlobStore::new();
    let root = create_directory_blob_file_rec(&mut store, &sample_tree()).unwrap();
    let sub_manifest = format!(
        "y {} file 011004\nz {} file 011004\n",
        bytes_hash(b"first"),
        bytes_hash(b"last")
    );
    let sub_hash = bytes_hash(sub_manifest.as_bytes());
    let root_manifest = format!(
        "a.txt {} file 051004\nb.txt {} file 051004\nsub {} directory 031009\n",
        bytes_hash(b"ay"),
        bytes_hash(b"bee"),
        sub_hash
    );
    assert_eq!(root, bytes_hash(root_manifest.as_bytes()));
    assert_eq!(store.get(&root), Some(root_manifest.as_bytes()));
    assert_eq!(store.get(&sub_hash), Some(sub_manifest.as_bytes()));
    assert_eq!(store.get(&bytes_hash(b"bee")), Some(&b"bee"[..]));
    assert_eq!(store.len(), 6);
}

#[test]
fn the_two_builders_agree() {
    let mut first = BlobStore::new();
    let mut second = BlobStore::new();
    let nested = vec![
        dir("x", vec![dir("y", vec![dir("z", vec![file("deep", "1")]), file("w", "2")])]),
        dir("hollow", vec![dir("hollower", vec![])]),
        file("top", "3"),
        dir(".DS_Store", vec![file("unseen", "4")]),
    ];
    let a = create_directory_blob_file_rec(&mut first, &nested);
    let b = create_directory_blob_file(&mut second, &nested);
    assert!(a.is_some());
    assert_eq!(a, b);
    assert_eq!(first.len(), second.len());
    for i in 0..first.len() {
        let (hash, bytes) = first.blob_at(i);
        assert_eq!(second.get(hash), Some(bytes));
    }
    let a = create_directory_blob_file_rec(&mut first, &sample_tree());
    let b = create_directory_blob_file(&mut second, &sample_tree());
    assert_eq!(a, b);
}

#[test]
fn the_same_tree_gives_the_same_hash_in_any_store() {
    let mut first = BlobStore::new();
    let mut second = BlobStore::new();
    second.put_if_absent("something".to_string(), vec![1]);
    let a = create_directory_blob_file_rec(&mut first, &sample_tree());
    let b = create_directory_blob_file_rec(&mut second, &sample_tree());
    assert_eq!(a, b);
}

#[test]
fn a_second_snapshot_writes_nothing() {
    let mut store = BlobStore::new();
    let first = create_directory_blob_file_rec(&mut store, &sample_tree());
    let count = store.len();
    let second = create_directory_blob_file_rec(&mut store, &sample_tree());
    assert_eq!(first, second);
    assert_eq!(store.len(), count);
}

#[test]
fn the_hidden_name_changes_nothing() {
    let mut plain = BlobStore::new();
    let mut noisy = BlobStore::new();
    let with_hidden = vec![
        file(".DS_Store", "finder"),
        file("b.txt", "bee"),
        dir("sub", vec![file("z", "last"), file(".DS_Store", "more"), file("y", "first")]),
        dir(".DS_Store", vec![file("inside", "x")]),
        file("a.txt", "ay"),
    ];
    let a = create_directory_blob_file_rec(&mut plain, &sample_tree());
    let b = create_directory_blob_file_rec(&mut noisy, &with_hidden);
    assert_eq!(a, b);
    assert_eq!(plain.len(), noisy.len());
    assert!(!noisy.contains(&bytes_hash(b"finder")));
}

#[test]
fn the_order_of_listing_changes_nothing() {
    let mut first = BlobStore::new();
    let mut second = BlobStore::new();
    let shuffled = vec![
        dir("sub", vec![file("y", "first"), file("z", "last")]),
        file("a.txt", "ay"),
        file("b.txt", "bee"),
    ];
    let a = create_directory_blob_file_rec(&mut first, &sample_tree());
    let b = create_directory_blob_file_rec(&mut second, &shuffled);
    assert_eq!(a, b);
}

#[test]
fn an_empty_directory_leaves_no_trace() {
    let mut store = BlobStore::new();
    assert_eq!(create_directory_blob_file_rec(&mut store, &vec![]), None);
    assert_eq!(create_directory_blob_file_rec(&mut store, &vec![dir("e", vec![dir("f", vec![])])]), None);
    assert_eq!(create_directory_blob_file_rec(&mut store, &vec![file(".DS_Store", "x")]), None);
    assert_eq!(store.len(), 0);
    let mut with = BlobStore::new();
    let mut without = BlobStore::new();
    let a = create_directory_blob_file_rec(&mut with, &vec![file("f", "1"), dir("empty", vec![])]);
    let b = create_directory_blob_file_rec(&mut without, &vec![file("f", "1")]);
    assert_eq!(a, b);
    assert_eq!(with.len(), 2);
}

#[test]
fn a_file_and_a_directory_of_one_name_are_two_lines() {
    let mut store = BlobStore::new();
    let root = create_directory_blob_file_rec(
        &mut store,
        &vec![dir("same", vec![file("in", "1")]), file("same", "2")],
    )
    .unwrap();
    let text = String::from_utf8(store.get(&root).unwrap().to_vec()).unwrap();
    assert_eq!(text.lines().count(), 2);
    assert!(text.lines().next().unwrap().contains(" directory "));
}

#[test]
fn a_manifest_is_read_back_as_it_was_written() {
    let records = vec![
        record("a b", "0a9edecebeb03ae4", DiffBlobType::File),
        record("caf\u{e9}", "ef46db3751d8e999", DiffBlobType::Directory),
        record("", "", DiffBlobType::File),
    ];
    let back = read_manifest(&manifest_of(&records)).unwrap();
    assert_eq!(back.len(), 3);
    for (written, read) in records.iter().zip(back.iter()) {
        assert_eq!(written.name(), read.name());
        assert_eq!(written.hash(), read.hash());
        assert_eq!(written.blob_type(), read.blob_type());
    }
}
