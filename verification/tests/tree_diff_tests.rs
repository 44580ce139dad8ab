use ditiear::common::{DiffBlob, DiffBlobType};
use ditiear::diff::{
    cancel_movements, compare_blob_files, compare_pair, find_record, keyed_records, walk_dir,
    DiffCollectionType, DiffFileType,
};
use ditiear::digest::bytes_hash;
use ditiear::hash::{create_directory_blob_file, create_directory_blob_file_rec, SourceEntry};
use ditiear::store::{BlobStore, FileParseError, StoreFailure};
use ditiear::common::DeserializeError;

fn file(name: &str, content: &str) -> SourceEntry {
    SourceEntry::File { name: name.to_string(), content: content.as_bytes().to_vec() }
}

fn dir(name: &str, entries: Vec<SourceEntry>) -> SourceEntry {
    SourceEntry::Directory { name: name.to_string(), entries }
}

fn add(kind: DiffFileType, value: &str) -> DiffCollectionType {
    DiffCollectionType::Add { kind, value: value.to_string() }
}

fn delete(kind: DiffFileType, value: &str) -> DiffCollectionType {
    DiffCollectionType::Delete { kind, value: value.to_string() }
}

fn modify(kind: DiffFileType, old: &str, new: &str) -> DiffCollectionType {
    DiffCollectionType::Modify { kind, old: old.to_string(), new: new.to_string() }
}

fn h(content: &str) -> String {
    bytes_hash(content.as_bytes())
}

fn snapshot(store: &mut BlobStore, entries: Vec<SourceEntry>) -> String {
    create_directory_blob_file_rec(store, &entries).unwrap()
}

#[test]
fn a_snapshot_does_not_differ_from_itself() {
    let mut store = BlobStore::new();
    let root = snapshot(&mut store, vec![file("a", "1")]);
    assert_eq!(compare_blob_files(&root, &root, &store), Ok(vec![]));
    assert_eq!(compare_blob_files("nowhere", "nowhere", &BlobStore::new()), Ok(vec![]));
}

#[test]
fn every_kind_of_change_is_found_in_order() {
    let mut store = BlobStore::new();
    let old = snapshot(
        &mut store,
        vec![
            file("a", "1"),
            file("b", "2"),
            dir("sub", vec![file("x", "x1"), file("y", "y1")]),
            dir("gone", vec![file("g", "g")]),
        ],
    );
    let new = snapshot(
        &mut store,
        vec![
            file("a", "1"),
            file("b", "2b"),
            dir("sub", vec![file("x", "x2"), file("y", "y1"), file("z", "z")]),
            dir("fresh", vec![file("f", "f"), dir("deep", vec![file("d", "d")])]),
            file("c", "c"),
        ],
    );
    let mut scratch = BlobStore::new();
    let gone = snapshot(&mut scratch, vec![file("g", "g")]);
    let sub_old = snapshot(&mut scratch, vec![file("x", "x1"), file("y", "y1")]);
    let sub_new = snapshot(&mut scratch, vec![file("x", "x2"), file("y", "y1"), file("z", "z")]);
    let deep = snapshot(&mut scratch, vec![file("d", "d")]);
    let fresh = snapshot(&mut scratch, vec![file("f", "f"), dir("deep", vec![file("d", "d")])]);
    let found = compare_blob_files(&old, &new, &store).unwrap();
    assert_eq!(
        found,
        vec![
            modify(DiffFileType::Directory, &old, &new),
            modify(DiffFileType::File, &h("2"), &h("2b")),
            delete(DiffFileType::Directory, &gone),
            delete(DiffFileType::File, &h("g")),
            add(DiffFileType::File, &h("c")),
            add(DiffFileType::Directory, &fresh),
            add(DiffFileType::File, &h("f")),
            add(DiffFileType::Directory, &deep),
            add(DiffFileType::File, &h("d")),
            modify(DiffFileType::Directory, &sub_old, &sub_new),
            modify(DiffFileType::File, &h("x1"), &h("x2")),
            add(DiffFileType::File, &h("z")),
        ]
    );
}

#[test]
fn a_moved_file_is_neither_added_nor_deleted() {
    let mut store = BlobStore::new();
    let old = snapshot(
        &mut store,
        vec![dir("a", vec![file("m", "B"), file("o", "1")]), dir("b", vec![file("q", "2")])],
    );
    let new = snapshot(
        &mut store,
        vec![dir("a", vec![file("o", "1")]), dir("b", vec![file("q", "2"), file("m", "B")])],
    );
    let found = compare_blob_files(&old, &new, &store).unwrap();
    assert_eq!(found.len(), 3);
    for change in &found {
        assert!(matches!(change, DiffCollectionType::Modify { kind: DiffFileType::Directory, .. }));
    }
    assert!(!found.contains(&add(DiffFileType::File, &h("B"))));
    assert!(!found.contains(&delete(DiffFileType::File, &h("B"))));
}

#[test]
fn a_renamed_directory_leaves_only_the_root_modified() {
    let mut store = BlobStore::new();
    let old = snapshot(&mut store, vec![dir("here", vec![file("m", "B")]), file("k", "k")]);
    let new = snapshot(&mut store, vec![dir("there", vec![file("m", "B")]), file("k", "k")]);
    assert_eq!(
        compare_blob_files(&old, &new, &store),
        Ok(vec![modify(DiffFileType::Directory, &old, &new)])
    );
}

#[test]
fn a_file_and_a_directory_of_one_name_are_two_entries() {
    let mut store = BlobStore::new();
    let old = snapshot(&mut store, vec![file("same", "f")]);
    let new = snapshot(&mut store, vec![dir("same", vec![file("in", "i")])]);
    let mut scratch = BlobStore::new();
    let inner = snapshot(&mut scratch, vec![file("in", "i")]);
    assert_eq!(
        compare_blob_files(&old, &new, &store),
        Ok(vec![
            modify(DiffFileType::Directory, &old, &new),
            delete(DiffFileType::File, &h("f")),
            add(DiffFileType::Directory, &inner),
            add(DiffFileType::File, &h("i")),
        ])
    );
}

#[test]
fn cancelling_drops_both_sides_and_keeps_the_rest() {
    let changes = vec![
        modify(DiffFileType::File, "x", "y"),
        add(DiffFileType::File, "moved"),
        add(DiffFileType::Directory, "moved"),
        delete(DiffFileType::File, "gone"),
        delete(DiffFileType::File, "moved"),
        add(DiffFileType::File, "moved"),
        modify(DiffFileType::File, "moved", "moved"),
    ];
    assert_eq!(
        cancel_movements(&changes),
        vec![
            modify(DiffFileType::File, "x", "y"),
            add(DiffFileType::Directory, "moved"),
            delete(DiffFileType::File, "gone"),
            modify(DiffFileType::File, "moved", "moved"),
        ]
    );
}

#[test]
fn movement_keys() {
    assert_eq!(add(DiffFileType::File, "abc").movement_unique_hash(), Some("abcFile".to_string()));
    assert_eq!(
        delete(DiffFileType::Directory, "abc").movement_unique_hash(),
        Some("abcDirectory".to_string())
    );
    assert_eq!(modify(DiffFileType::File, "a", "b").movement_unique_hash(), None);
    assert_eq!(DiffFileType::Directory.to_string(), "Directory");
    assert_eq!(DiffFileType::File.to_string(), "File");
}

#[test]
fn a_missing_blob_makes_the_comparison_fail() {
    let mut store = BlobStore::new();
    let root = snapshot(&mut store, vec![file("a", "1")]);
    assert_eq!(
        compare_blob_files(&root, "0000000000000000", &store),
        Err(FileParseError::Io(StoreFailure::Missing))
    );
    assert_eq!(
        compare_blob_files("0000000000000000", &root, &store),
        Err(FileParseError::Io(StoreFailure::Missing))
    );
    assert_eq!(
        compare_blob_files("a", "b", &BlobStore::new()),
        Err(FileParseError::Io(StoreFailure::Missing))
    );
}

#[test]
fn a_manifest_that_cannot_be_read_makes_the_comparison_fail() {
    let mut store = BlobStore::new();
    store.put_if_absent("old".to_string(), b"a 1 file 010104\n".to_vec());
    store.put_if_absent("bad".to_string(), b"a 1 file 090909\n".to_vec());
    store.put_if_absent("raw".to_string(), vec![0xff, 0xfe]);
    assert_eq!(
        compare_blob_files("old", "bad", &store),
        Err(FileParseError::Parse(DeserializeError::InvalidTotalLength))
    );
    assert_eq!(compare_blob_files("raw", "old", &store), Err(FileParseError::Io(StoreFailure::NotText)));
}

#[test]
fn manifests_that_lead_back_to_themselves_are_given_up() {
    let mut store = BlobStore::new();
    store.put_if_absent("o1".to_string(), b"d o1 directory 010209\n".to_vec());
    store.put_if_absent("n1".to_string(), b"d n1 directory 010209\n".to_vec());
    assert_eq!(compare_blob_files("o1", "n1", &store), Err(FileParseError::Io(StoreFailure::TooDeep)));
    let mut store = BlobStore::new();
    store.put_if_absent("o".to_string(), b"d w directory 010109\n".to_vec());
    store.put_if_absent("n".to_string(), Vec::new());
    store.put_if_absent("w".to_string(), b"s w directory 010109\n".to_vec());
    assert_eq!(compare_blob_files("o", "n", &store), Err(FileParseError::Io(StoreFailure::TooDeep)));
}

#[test]
fn a_walk_marks_the_directory_its_files_and_what_is_below() {
    let mut store = BlobStore::new();
    let root = snapshot(
        &mut store,
        vec![dir("one", vec![file("i", "i")]), file("f", "f"), dir("two", vec![file("j", "j")])],
    );
    let mut scratch = BlobStore::new();
    let one = snapshot(&mut scratch, vec![file("i", "i")]);
    let two = snapshot(&mut scratch, vec![file("j", "j")]);
    let mut out = vec![modify(DiffFileType::File, "kept", "kept")];
    assert_eq!(walk_dir(&store, &root, false, store.len(), &mut out), Ok(()));
    assert_eq!(
        out,
        vec![
            modify(DiffFileType::File, "kept", "kept"),
            delete(DiffFileType::Directory, &root),
            delete(DiffFileType::File, &h("f")),
            delete(DiffFileType::Directory, &two),
            delete(DiffFileType::File, &h("j")),
            delete(DiffFileType::Directory, &one),
            delete(DiffFileType::File, &h("i")),
        ]
    );
    let mut out = Vec::new();
    assert_eq!(
        walk_dir(&store, &root, true, 1, &mut out),
        Err(FileParseError::Io(StoreFailure::TooDeep))
    );
    assert_eq!(
        walk_dir(&store, "missing", true, 9, &mut out),
        Err(FileParseError::Io(StoreFailure::Missing))
    );
}

#[test]
fn a_later_record_takes_the_place_of_an_earlier_one_with_its_key() {
    let records = vec![
        DiffBlob::new("a".to_string(), "1".to_string(), DiffBlobType::File),
        DiffBlob::new("b".to_string(), "2".to_string(), DiffBlobType::File),
        DiffBlob::new("a".to_string(), "3".to_string(), DiffBlobType::File),
        DiffBlob::new("a".to_string(), "4".to_string(), DiffBlobType::Directory),
    ];
    let keyed = keyed_records(records);
    let seen: Vec<(&str, &str)> = keyed.iter().map(|r| (r.name(), r.hash())).collect();
    assert_eq!(seen, vec![("a", "3"), ("b", "2"), ("a", "4")]);
    assert_eq!(find_record(&keyed, "a", DiffBlobType::Directory), Some(2));
    assert_eq!(find_record(&keyed, "b", DiffBlobType::File), Some(1));
    assert_eq!(find_record(&keyed, "b", DiffBlobType::Directory), None);
}

#[test]
fn a_pair_gives_its_changes_and_the_pairs_to_look_into() {
    let mut store = BlobStore::new();
    let old = snapshot(&mut store, vec![dir("d", vec![file("x", "1")]), file("f", "a")]);
    let new = snapshot(&mut store, vec![dir("d", vec![file("x", "2")]), file("f", "b")]);
    let mut scratch = BlobStore::new();
    let d_old = snapshot(&mut scratch, vec![file("x", "1")]);
    let d_new = snapshot(&mut scratch, vec![file("x", "2")]);
    let mut out = Vec::new();
    let mut next = Vec::new();
    assert_eq!(compare_pair(&store, &old, &new, 1, store.len(), &mut out, &mut next), Ok(()));
    assert_eq!(
        out,
        vec![modify(DiffFileType::Directory, &old, &new), modify(DiffFileType::File, &h("a"), &h("b"))]
    );
    assert_eq!(next, vec![(d_old, d_new)]);
    assert_eq!(
        compare_pair(&store, &old, &new, 0, store.len(), &mut out, &mut next),
        Err(FileParseError::Io(StoreFailure::TooDeep))
    );
}

fn assets() -> Vec<SourceEntry> {
    vec![
        file("choose.webp", "RIFF....WEBPVP8 "),
        dir("css", vec![file("main.css", "body { margin: 0 }"), file("print.css", "")]),
        dir("js", vec![dir("vendor", vec![file("lib.js", "export {}")]), file("app.js", "run()")]),
        file("index.html", "<html></html>"),
    ]
}

fn assets2() -> Vec<SourceEntry> {
    vec![
        file("choose.webp", "RIFF....WEBPVP8X"),
        dir("css", vec![file("main.css", "body { margin: 0 }")]),
        dir("js", vec![dir("vendor", vec![file("lib.js", "export {}")]), file("app.js", "run(1)")]),
        dir("fonts", vec![file("a.woff", "wOFF")]),
        file("index.html", "<html></html>"),
    ]
}

#[test]
fn test_create_directory_blob_file() {
    let mut store = BlobStore::new();
    match create_directory_blob_file(&mut store, &assets()) {
        Some(h) => println!("{}", h),
        None => panic!("no entries"),
    }
}

#[test]
fn test_create_directory_blob_file2() {
    let mut store = BlobStore::new();
    match create_directory_blob_file(&mut store, &assets2()) {
        Some(h) => println!("{}", h),
        None => panic!("no entries"),
    }
}

#[test]
fn test_compare_blob_files() {
    let mut store = BlobStore::new();
    let old = create_directory_blob_file(&mut store, &assets()).unwrap();
    let new = create_directory_blob_file(&mut store, &assets2()).unwrap();
    match compare_blob_files(&old, &new, &store) {
        Ok(h) => {
            println!("{:?}", h);
            assert_eq!(h.len(), 8);
            assert_eq!(h[0], modify(DiffFileType::Directory, &old, &new));
            assert!(h.contains(&modify(DiffFileType::File, &h_of("RIFF....WEBPVP8 "), &h_of("RIFF....WEBPVP8X"))));
            assert!(h.contains(&delete(DiffFileType::File, &h_of(""))));
            assert!(h.contains(&add(DiffFileType::File, &h_of("wOFF"))));
            assert!(h.contains(&modify(DiffFileType::File, &h_of("run()"), &h_of("run(1)"))));
        }
        Err(e) => panic!("{:?}", e),
    }
}

fn h_of(content: &str) -> String {
    bytes_hash(content.as_bytes())
}
