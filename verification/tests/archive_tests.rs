use ditiear::archive::{
    apply_patchs, create_zip_patch, unpack_patch, ArchiveEntry, ArchiveFailure, BlobPatch,
    CodecFailure, ZipFileError,
};
use ditiear::common::DeserializeError;
use ditiear::diff::{DiffCollectionType, DiffFileType};
use ditiear::digest::bytes_hash;
use ditiear::frame::{frame_records, unframe_records};
use ditiear::hash::{create_directory_blob_file_rec, SourceEntry};
use ditiear::patch::BytesPatch;
use ditiear::prelude::create_diff_patch;
use ditiear::store::{BlobStore, FileParseError, StoreFailure};
use std::io::{Cursor, Read, Write};

fn file(name: &str, content: &str) -> SourceEntry {
    SourceEntry::File { name: name.to_string(), content: content.as_bytes().to_vec() }
}

fn dir(name: &str, entries: Vec<SourceEntry>) -> SourceEntry {
    SourceEntry::Directory { name: name.to_string(), entries }
}

fn h(content: &str) -> String {
    bytes_hash(content.as_bytes())
}

fn entry(name: &str, data: &[u8]) -> ArchiveEntry {
    ArchiveEntry { name: name.to_string(), data: data.to_vec() }
}

#[test]
fn records_are_framed_by_their_lengths() {
    let records = vec![vec![1u8, 2, 3], vec![], vec![9]];
    let bytes = frame_records(&records);
    assert_eq!(
        bytes,
        vec![3, 0, 0, 0, 0, 0, 0, 0, 1, 2, 3, 0, 0, 0, 0, 0, 0, 0, 0, 1, 0, 0, 0, 0, 0, 0, 0, 9]
    );
    assert_eq!(unframe_records(&bytes), Some(records));
    assert_eq!(frame_records(&vec![]), Vec::<u8>::new());
    assert_eq!(unframe_records(&[]), Some(vec![]));
}

#[test]
fn a_cut_patch_list_is_refused() {
    assert_eq!(unframe_records(&[3, 0, 0, 0]), None);
    assert_eq!(unframe_records(&[3, 0, 0, 0, 0, 0, 0, 0, 1, 2]), None);
    assert_eq!(unframe_records(&[255, 255, 255, 255, 255, 255, 255, 255, 1]), None);
    assert_eq!(unframe_records(&[0, 0, 0, 0, 0, 0, 0, 0, 1]), None);
}

#[test]
fn changes_become_patches() {
    let mut store = BlobStore::new();
    store.put_if_absent("old".to_string(), vec![1, 2, 3, 4, 5]);
    store.put_if_absent("new".to_string(), vec![1, 2, 3, 4, 6]);
    let changes = vec![
        DiffCollectionType::Add { kind: DiffFileType::File, value: "a".to_string() },
        DiffCollectionType::Delete { kind: DiffFileType::Directory, value: "d".to_string() },
        DiffCollectionType::Modify {
            kind: DiffFileType::File,
            old: "old".to_string(),
            new: "new".to_string(),
        },
        DiffCollectionType::Modify {
            kind: DiffFileType::Directory,
            old: "old".to_string(),
            new: "new".to_string(),
        },
    ];
    assert_eq!(
        BlobPatch::from(&changes, &store),
        Ok(vec![
            BlobPatch::Add { new_file: "a".to_string() },
            BlobPatch::Delete { old_file: "d".to_string() },
            BlobPatch::Replace {
                old_file: "old".to_string(),
                new_file: "new".to_string(),
                patch: vec![BytesPatch::Replace {
                    old_index: 4,
                    new_index: 4,
                    old_value: vec![5],
                    new_value: vec![6],
                }],
            },
            BlobPatch::Replace {
                old_file: "old".to_string(),
                new_file: "new".to_string(),
                patch: vec![],
            },
        ])
    );
    let missing = vec![DiffCollectionType::Modify {
        kind: DiffFileType::File,
        old: "old".to_string(),
        new: "lost".to_string(),
    }];
    assert_eq!(BlobPatch::from(&missing, &store), Err(FileParseError::Io(StoreFailure::Missing)));
}

#[test]
fn an_archive_holds_the_patch_list_and_the_added_blobs() {
    let mut store = BlobStore::new();
    store.put_if_absent("a1".to_string(), b"first".to_vec());
    store.put_if_absent("a2".to_string(), b"second".to_vec());
    let patches = vec![
        BlobPatch::Add { new_file: "a2".to_string() },
        BlobPatch::Delete { old_file: "zz".to_string() },
        BlobPatch::Add { new_file: "a1".to_string() },
    ];
    let records = vec![vec![1u8], vec![2, 2], vec![3, 3, 3]];
    let entries = create_zip_patch(&patches, &records, &store).unwrap();
    assert_eq!(
        entries,
        vec![
            entry("ditiear.patch", &frame_records(&records)),
            entry("a2", b"second"),
            entry("a1", b"first"),
        ]
    );
}

#[test]
fn an_empty_patch_list_gives_no_archive() {
    assert_eq!(create_zip_patch(&vec![], &vec![], &BlobStore::new()), Ok(vec![]));
    assert_eq!(create_zip_patch(&vec![], &vec![vec![1]], &BlobStore::new()), Ok(vec![]));
}

#[test]
fn an_archive_cannot_be_laid_out_without_its_records_and_blobs() {
    let store = BlobStore::new();
    let patches = vec![BlobPatch::Add { new_file: "a".to_string() }];
    assert_eq!(
        create_zip_patch(&patches, &vec![], &store),
        Err(ZipFileError::Serialize(CodecFailure::RecordCount))
    );
    assert_eq!(
        create_zip_patch(&patches, &vec![vec![1]], &store),
        Err(ZipFileError::Io(StoreFailure::Missing))
    );
}

#[test]
fn unpacking_writes_the_blobs_and_returns_the_records() {
    let mut store = BlobStore::new();
    store.put_if_absent("kept".to_string(), b"mine".to_vec());
    let records = vec![vec![7u8, 7], vec![8]];
    let entries = vec![
        entry("ditiear.patch", &frame_records(&records)),
        entry("kept", b"theirs"),
        entry("new", b"blob"),
    ];
    assert_eq!(unpack_patch(&entries, &mut store), Ok(records));
    assert_eq!(store.get("kept"), Some(&b"mine"[..]));
    assert_eq!(store.get("new"), Some(&b"blob"[..]));
    assert!(!store.contains("ditiear.patch"));
    assert_eq!(store.len(), 2);
}

#[test]
fn an_archive_without_a_patch_list_is_refused_after_its_blobs_are_written() {
    let mut store = BlobStore::new();
    assert_eq!(
        unpack_patch(&vec![entry("b", b"1")], &mut store),
        Err(ZipFileError::Zip(ArchiveFailure::MissingPatchList))
    );
    assert!(store.contains("b"));
    assert_eq!(
        unpack_patch(&vec![], &mut store),
        Err(ZipFileError::Zip(ArchiveFailure::MissingPatchList))
    );
    assert_eq!(
        unpack_patch(&vec![entry("c", b"2"), entry("ditiear.patch", &[1, 2, 3])], &mut store),
        Err(ZipFileError::Serialize(CodecFailure::Truncated))
    );
    assert!(store.contains("c"));
    assert_eq!(unpack_patch(&vec![entry("ditiear.patch", &[])], &mut store), Ok(vec![]));
}

#[test]
fn a_replacement_rebuilds_the_new_blob() {
    let mut store = BlobStore::new();
    store.put_if_absent("old".to_string(), b"hello world".to_vec());
    store.put_if_absent("added".to_string(), b"x".to_vec());
    let patches = vec![
        BlobPatch::Add { new_file: "added".to_string() },
        BlobPatch::Delete { old_file: "old".to_string() },
        BlobPatch::Replace {
            old_file: "old".to_string(),
            new_file: "new".to_string(),
            patch: vec![
                BytesPatch::Add { old_index: 11, new_index: 11, new_value: b"!".to_vec() },
                BytesPatch::Replace {
                    old_index: 0,
                    new_index: 0,
                    old_value: b"h".to_vec(),
                    new_value: b"H".to_vec(),
                },
            ],
        },
    ];
    assert_eq!(apply_patchs(&patches, &mut store), Ok(()));
    assert_eq!(store.get("new"), Some(&b"Hello world!"[..]));
    assert_eq!(store.get("old"), Some(&b"hello world"[..]));
    assert_eq!(store.len(), 3);
}

#[test]
fn a_patch_list_that_cannot_be_applied_is_refused() {
    let mut store = BlobStore::new();
    store.put_if_absent("old".to_string(), b"abc".to_vec());
    assert_eq!(
        apply_patchs(&vec![BlobPatch::Add { new_file: "absent".to_string() }], &mut store),
        Err(ZipFileError::Io(StoreFailure::Missing))
    );
    let replace = |old: &str, patch: Vec<BytesPatch>| BlobPatch::Replace {
        old_file: old.to_string(),
        new_file: "new".to_string(),
        patch,
    };
    assert_eq!(
        apply_patchs(&vec![replace("absent", vec![])], &mut store),
        Err(ZipFileError::Io(StoreFailure::Missing))
    );
    let beyond = vec![BytesPatch::Delete { old_index: 2, new_index: 2, old_value: vec![0, 0] }];
    assert_eq!(
        apply_patchs(&vec![replace("old", beyond)], &mut store),
        Err(ZipFileError::Serialize(CodecFailure::PatchOutOfRange))
    );
    assert_eq!(store.len(), 1);
}

#[test]
fn errors_of_the_walk_become_errors_of_the_archive() {
    assert_eq!(
        ZipFileError::from(FileParseError::Io(StoreFailure::NotText)),
        ZipFileError::Io(StoreFailure::NotText)
    );
    assert_eq!(
        ZipFileError::from(FileParseError::Parse(DeserializeError::InvalidType)),
        ZipFileError::Parse(DeserializeError::InvalidType)
    );
}

fn old_tree() -> Vec<SourceEntry> {
    vec![
        file("readme", "first version of the text"),
        file("same", "unchanged"),
        dir("img", vec![file("a.png", "AAAA"), file("b.png", "BBBB")]),
    ]
}

fn new_tree() -> Vec<SourceEntry> {
    vec![
        file("readme", "second version of the text, longer"),
        file("same", "unchanged"),
        dir("img", vec![file("a.png", "AAAA"), file("c.png", "CCCC")]),
        dir("doc", vec![file("intro", "hello")]),
    ]
}

#[test]
fn test_zip_patch() {
    let mut source = BlobStore::new();
    let old = create_directory_blob_file_rec(&mut source, &old_tree()).unwrap();
    let new = create_directory_blob_file_rec(&mut source, &new_tree()).unwrap();
    let patches = create_diff_patch(&old, &new, &source).unwrap();
    assert!(!patches.is_empty());
    let records: Vec<Vec<u8>> = patches.iter().map(|p| encoded(p)).collect();
    let entries = create_zip_patch(&patches, &records, &source).unwrap();
    assert_eq!(entries[0].name, "ditiear.patch");
    let zipped = zip_of(&entries);
    let unzipped = entries_of(&zipped);
    assert_eq!(unzipped, entries);

    let mut target = BlobStore::new();
    assert_eq!(create_directory_blob_file_rec(&mut target, &old_tree()), Some(old.clone()));
    let received = unpack_patch(&unzipped, &mut target).unwrap();
    assert_eq!(received, records);
    assert_eq!(apply_patchs(&patches, &mut target), Ok(()));
    for patch in &patches {
        match patch {
            BlobPatch::Add { new_file } => assert_eq!(target.get(new_file), source.get(new_file)),
            BlobPatch::Replace { new_file, .. } => assert!(target.contains(new_file)),
            BlobPatch::Delete { old_file } => assert!(target.contains(old_file)),
        }
    }
    assert_eq!(
        target.get(&h("second version of the text, longer")),
        Some(&b"second version of the text, longer"[..])
    );
    assert_eq!(target.get(&h("CCCC")), Some(&b"CCCC"[..]));
    assert_eq!(target.get(&h("hello")), Some(&b"hello"[..]));
    assert!(target.contains(&new));
}

#[test]
fn equal_roots_give_an_empty_patch_list() {
    let mut store = BlobStore::new();
    let root = create_directory_blob_file_rec(&mut store, &old_tree()).unwrap();
    assert_eq!(create_diff_patch(&root, &root, &store), Ok(vec![]));
    assert_eq!(
        create_diff_patch(&root, "0000000000000000", &store),
        Err(ZipFileError::Io(StoreFailure::Missing))
    );
}

fn encoded(patch: &BlobPatch) -> Vec<u8> {
    match patch {
        BlobPatch::Add { new_file } => bincode::serialize(&(0u32, new_file)).unwrap(),
        BlobPatch::Delete { old_file } => bincode::serialize(&(1u32, old_file)).unwrap(),
        BlobPatch::Replace { old_file, new_file, patch } => {
            let mut bytes = bincode::serialize(&(2u32, old_file, new_file, patch.len() as u64)).unwrap();
            for p in patch {
                let part = match p {
                    BytesPatch::Add { old_index, new_index, new_value } => bincode::serialize(&(
                        0u32,
                        *old_index as u64,
                        *new_index as u64,
                        serde_bytes::Bytes::new(new_value),
                    )),
                    BytesPatch::Delete { old_index, new_index, old_value } => bincode::serialize(&(
                        1u32,
                        *old_index as u64,
                        *new_index as u64,
                        serde_bytes::Bytes::new(old_value),
                    )),
                    BytesPatch::Replace { old_index, new_index, old_value, new_value } => {
                        bincode::serialize(&(
                            2u32,
                            *old_index as u64,
                            *new_index as u64,
                            serde_bytes::Bytes::new(old_value),
                            serde_bytes::Bytes::new(new_value),
                        ))
                    }
                };
                bytes.extend(part.unwrap());
            }
            bytes
        }
    }
}

fn zip_of(entries: &[ArchiveEntry]) -> Vec<u8> {
    let mut zip = zip::ZipWriter::new(Cursor::new(Vec::new()));
    for entry in entries {
        zip.start_file(
            entry.name.as_str(),
            zip::write::FileOptions::default().compression_method(zip::CompressionMethod::Deflated),
        )
        .unwrap();
        zip.write_all(&entry.data).unwrap();
    }
    zip.finish().unwrap().into_inner()
}

fn entries_of(zipped: &[u8]) -> Vec<ArchiveEntry> {
    let mut archive = zip::ZipArchive::new(Cursor::new(zipped.to_vec())).unwrap();
    let mut entries = Vec::new();
    for i in 0..archive.len() {
        let mut file = archive.by_index(i).unwrap();
        let mut data = Vec::new();
        file.read_to_end(&mut data).unwrap();
        entries.push(ArchiveEntry { name: file.name().to_string(), data });
    }
    entries
}
