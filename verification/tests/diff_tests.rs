use ditiear::archive::BlobPatch;
use ditiear::edit::{is_edit_script, EditOp};
use ditiear::patch::patches_from_ops;
use ditiear::prelude::{calculate_binary_diff, BytesPatch};
use ditiear::replay::{
    apply_patches, apply_replacements, replacements_from, sort_replacements, Replacement,
};

#[test]
fn test_calculate_binary_diff() {
    let v1: Vec<u8> = vec![1, 2, 3, 4, 5];
    let v2: Vec<u8> = vec![1, 2, 3, 4, 6];
    let ops = calculate_binary_diff(v1.clone(), v2.clone());
    assert_eq!(ops.len(), 1);
    assert_eq!(
        ops[0],
        BytesPatch::Replace {
            old_index: 4,
            new_index: 4,
            old_value: v1[4..5].to_vec(),
            new_value: v2[4..5].to_vec(),
        }
    );
}

#[test]
fn test_blob_patch() {
    let old = "hello world".as_bytes().to_vec();
    let new = "hello world!".as_bytes().to_vec();
    let mut ops = calculate_binary_diff(old, new);
    assert_eq!(
        ops,
        vec![BytesPatch::Add { old_index: 11, new_index: 11, new_value: "!".as_bytes().to_vec() }]
    );
    let old2 = "你好，世界".as_bytes().to_vec();
    let new2 = "你好，世界！".as_bytes().to_vec();
    let ops2 = calculate_binary_diff(old2, new2);
    ops.extend(ops2);
    let patch = BlobPatch::Replace {
        old_file: "hello.txt".to_string(),
        new_file: "hello.txt".to_string(),
        patch: ops,
    };
    match patch {
        BlobPatch::Replace { old_file, new_file, patch } => {
            assert_eq!(old_file, "hello.txt");
            assert_eq!(new_file, "hello.txt");
            assert_eq!(patch.len(), 2);
        }
        _ => unreachable!(),
    }
}

#[test]
fn equal_bytes_give_no_patch() {
    assert_eq!(calculate_binary_diff(vec![7, 8, 9], vec![7, 8, 9]), vec![]);
    assert_eq!(calculate_binary_diff(vec![], vec![]), vec![]);
}

#[test]
fn deletion_and_addition() {
    assert_eq!(
        calculate_binary_diff(vec![1, 2, 3, 4], vec![1, 4]),
        vec![BytesPatch::Delete { old_index: 1, new_index: 1, old_value: vec![2, 3] }]
    );
    assert_eq!(
        calculate_binary_diff(vec![], vec![5, 6]),
        vec![BytesPatch::Add { old_index: 0, new_index: 0, new_value: vec![5, 6] }]
    );
}

fn replayed(old: &[u8], new: &[u8]) -> Option<Vec<u8>> {
    let patches = calculate_binary_diff(old.to_vec(), new.to_vec());
    apply_patches(old, &patches)
}

#[test]
fn replaying_a_diff_gives_the_new_bytes() {
    let cases: Vec<(&str, &str)> = vec![
        ("", ""),
        ("", "abc"),
        ("abc", ""),
        ("hello world", "hello world!"),
        ("the quick brown fox", "the quiet brown box jumps"),
        ("aaaaaaaaaa", "aaabaaacaa"),
        ("0123456789", "9876543210"),
        ("name hash file 040404\n", "name hsah directory 040409\nother x file 050104\n"),
    ];
    for (old, new) in cases {
        assert_eq!(replayed(old.as_bytes(), new.as_bytes()), Some(new.as_bytes().to_vec()));
    }
}

#[test]
fn a_script_is_checked_before_it_is_used() {
    let old = [1u8, 2, 3];
    let new = [1u8, 9, 3];
    let good = vec![
        EditOp::Equal { old_index: 0, new_index: 0, len: 1 },
        EditOp::Replace { old_index: 1, old_len: 1, new_index: 1, new_len: 1 },
        EditOp::Equal { old_index: 2, new_index: 2, len: 1 },
    ];
    assert!(is_edit_script(&good, &old, &new));
    assert_eq!(
        patches_from_ops(&good, &old, &new),
        vec![BytesPatch::Replace { old_index: 1, new_index: 1, old_value: vec![2], new_value: vec![9] }]
    );
    let gap = vec![
        EditOp::Equal { old_index: 0, new_index: 0, len: 1 },
        EditOp::Equal { old_index: 2, new_index: 2, len: 1 },
    ];
    assert!(!is_edit_script(&gap, &old, &new));
    let lie = vec![EditOp::Equal { old_index: 0, new_index: 0, len: 3 }];
    assert!(!is_edit_script(&lie, &old, &new));
    let beyond = vec![EditOp::Delete { old_index: 0, old_len: usize::MAX, new_index: 0 }];
    assert!(!is_edit_script(&beyond, &old, &new));
    let short = vec![EditOp::Equal { old_index: 0, new_index: 0, len: 1 }];
    assert!(!is_edit_script(&short, &old, &new));
}

fn replacement(start: usize, length: usize, content: &[u8]) -> Replacement {
    Replacement { start, length, content: content.to_vec() }
}

#[test]
fn replacements_are_put_in_order_and_ties_keep_theirs() {
    let sorted = sort_replacements(vec![
        replacement(5, 0, b"c"),
        replacement(2, 1, b"a"),
        replacement(5, 1, b"d"),
        replacement(2, 0, b"b"),
    ]);
    assert_eq!(
        sorted,
        vec![
            replacement(2, 1, b"a"),
            replacement(2, 0, b"b"),
            replacement(5, 0, b"c"),
            replacement(5, 1, b"d"),
        ]
    );
}

#[test]
fn replacements_are_applied_from_left_to_right() {
    let base = b"0123456789";
    let reps = vec![replacement(2, 3, b"xy"), replacement(5, 0, b"+"), replacement(9, 1, b"")];
    assert_eq!(apply_replacements(base, &reps), Some(b"01xy+5678".to_vec()));
    assert_eq!(apply_replacements(base, &vec![]), Some(base.to_vec()));
}

#[test]
fn replacements_that_do_not_fit_are_refused() {
    let base = b"0123456789";
    assert_eq!(apply_replacements(base, &vec![replacement(8, 3, b"")]), None);
    assert_eq!(apply_replacements(base, &vec![replacement(11, 0, b"x")]), None);
    assert_eq!(
        apply_replacements(base, &vec![replacement(2, 3, b""), replacement(4, 1, b"")]),
        None
    );
    assert_eq!(apply_replacements(base, &vec![replacement(1, usize::MAX, b"")]), None);
    assert_eq!(apply_replacements(base, &vec![replacement(10, 0, b"!")]), Some(b"0123456789!".to_vec()));
}

#[test]
fn patches_become_replacements() {
    let patches = vec![
        BytesPatch::Add { old_index: 3, new_index: 70, new_value: vec![1] },
        BytesPatch::Delete { old_index: 4, new_index: 80, old_value: vec![2, 3] },
        BytesPatch::Replace { old_index: 8, new_index: 90, old_value: vec![4], new_value: vec![5, 6] },
    ];
    assert_eq!(
        replacements_from(&patches),
        vec![replacement(3, 0, &[1]), replacement(4, 2, &[]), replacement(8, 1, &[5, 6])]
    );
    let base = [0u8, 0, 0, 0, 2, 3, 0, 0, 4, 0];
    assert_eq!(apply_patches(&base, &patches), Some(vec![0, 0, 0, 1, 0, 0, 0, 5, 6, 0]));
}
