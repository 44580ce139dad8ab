//! A file that has only moved is neither added nor deleted.
//!
//! The comparison goes from the pair of roots to pairs of directories that
//! both snapshots have under one name with different hashes. Whatever is found
//! for a pair that is reached this way is among the changes before cancelling.
//! So a file that leaves one such directory and turns up in another, or in the
//! same one under another name, is found once as deleted and once as added,
//! and both cancel.

use crate::common::{DiffBlobType, RecordView};
use crate::diff::{
    file_marks, find_entry, has_add, has_delete, keyed, lemma_moved_blob_cancels, level_findings,
    levels_changes, mark, new_entry_changes, new_side_changes, old_entry_findings,
    old_side_findings, pair_findings, sub_directories, tree_diff, walk, walk_all, ChangeView,
    DiffFileType, HashPair,
};
use crate::store::manifest_records;
use vstd::prelude::*;

verus! {

/// `x` is one of `s`.
pub open spec fn among<T>(s: Seq<T>, x: T) -> bool {
    exists|i: int| 0 <= i < s.len() && s[i] == x
}

proof fn lemma_among_concat<T>(a: Seq<T>, b: Seq<T>, x: T)
    ensures
        among(a + b, x) <==> among(a, x) || among(b, x),
{
    if among(a, x) {
        let i = choose|i: int| 0 <= i < a.len() && a[i] == x;
        assert((a + b)[i] == x);
    }
    if among(b, x) {
        let i = choose|i: int| 0 <= i < b.len() && b[i] == x;
        assert((a + b)[a.len() + i] == x);
    }
    if among(a + b, x) {
        let i = choose|i: int| 0 <= i < (a + b).len() && (a + b)[i] == x;
        if i < a.len() {
            assert(a[i] == x);
        } else {
            assert(b[i - a.len()] == x);
        }
    }
}

/// What is found for one entry of the old directory is among what is found
/// for all of them.
proof fn lemma_old_entry_is_looked_at(
    store: Map<Seq<char>, Seq<u8>>,
    old_entries: Seq<RecordView>,
    new_entries: Seq<RecordView>,
    fuel: nat,
    e: RecordView,
    c: ChangeView,
)
    requires
        old_side_findings(store, old_entries, new_entries, fuel) is Ok,
        among(old_entries, e),
        old_entry_findings(store, e, new_entries, fuel) is Ok ==> among(
            (old_entry_findings(store, e, new_entries, fuel)->Ok_0).0,
            c,
        ),
    ensures
        among((old_side_findings(store, old_entries, new_entries, fuel)->Ok_0).0, c),
    decreases old_entries.len(),
{
    let all = old_side_findings(store, old_entries, new_entries, fuel)->Ok_0;
    let first = old_entry_findings(store, old_entries[0], new_entries, fuel)->Ok_0;
    let rest = old_side_findings(store, old_entries.drop_first(), new_entries, fuel)->Ok_0;
    assert(all.0 == first.0 + rest.0);
    lemma_among_concat(first.0, rest.0, c);
    if old_entries[0] != e {
        let i = choose|i: int| 0 <= i < old_entries.len() && old_entries[i] == e;
        assert(old_entries.drop_first()[i - 1] == e);
        lemma_old_entry_is_looked_at(store, old_entries.drop_first(), new_entries, fuel, e, c);
    }
}

/// The pairs to look into that one entry of the old directory gives are among
/// those that all of them give.
proof fn lemma_old_entry_pairs_are_kept(
    store: Map<Seq<char>, Seq<u8>>,
    old_entries: Seq<RecordView>,
    new_entries: Seq<RecordView>,
    fuel: nat,
    e: RecordView,
    p: HashPair,
)
    requires
        old_side_findings(store, old_entries, new_entries, fuel) is Ok,
        among(old_entries, e),
        old_entry_findings(store, e, new_entries, fuel) is Ok ==> among(
            (old_entry_findings(store, e, new_entries, fuel)->Ok_0).1,
            p,
        ),
    ensures
        among((old_side_findings(store, old_entries, new_entries, fuel)->Ok_0).1, p),
    decreases old_entries.len(),
{
    let all = old_side_findings(store, old_entries, new_entries, fuel)->Ok_0;
    let first = old_entry_findings(store, old_entries[0], new_entries, fuel)->Ok_0;
    let rest = old_side_findings(store, old_entries.drop_first(), new_entries, fuel)->Ok_0;
    assert(all.1 == first.1 + rest.1);
    lemma_among_concat(first.1, rest.1, p);
    if old_entries[0] != e {
        let i = choose|i: int| 0 <= i < old_entries.len() && old_entries[i] == e;
        assert(old_entries.drop_first()[i - 1] == e);
        lemma_old_entry_pairs_are_kept(store, old_entries.drop_first(), new_entries, fuel, e, p);
    }
}

/// What is found for one entry of the new directory is among what is found
/// for all of them.
proof fn lemma_new_entry_is_looked_at(
    store: Map<Seq<char>, Seq<u8>>,
    new_entries: Seq<RecordView>,
    old_entries: Seq<RecordView>,
    fuel: nat,
    e: RecordView,
    c: ChangeView,
)
    requires
        new_side_changes(store, new_entries, old_entries, fuel) is Ok,
        among(new_entries, e),
        new_entry_changes(store, e, old_entries, fuel) is Ok ==> among(
            new_entry_changes(store, e, old_entries, fuel)->Ok_0,
            c,
        ),
    ensures
        among(new_side_changes(store, new_entries, old_entries, fuel)->Ok_0, c),
    decreases new_entries.len(),
{
    let all = new_side_changes(store, new_entries, old_entries, fuel)->Ok_0;
    let first = new_entry_changes(store, new_entries[0], old_entries, fuel)->Ok_0;
    let rest = new_side_changes(store, new_entries.drop_first(), old_entries, fuel)->Ok_0;
    assert(all == first + rest);
    lemma_among_concat(first, rest, c);
    if new_entries[0] != e {
        let i = choose|i: int| 0 <= i < new_entries.len() && new_entries[i] == e;
        assert(new_entries.drop_first()[i - 1] == e);
        lemma_new_entry_is_looked_at(store, new_entries.drop_first(), old_entries, fuel, e, c);
    }
}

/// The entries of the two directories of a pair, as the comparison sees them.
pub open spec fn entries_of(store: Map<Seq<char>, Seq<u8>>, hash: Seq<char>) -> Seq<RecordView> {
    if store.contains_key(hash) {
        match manifest_records(store[hash]) {
            Ok(records) => keyed(records),
            Err(_) => seq![],
        }
    } else {
        seq![]
    }
}

/// The old directory of the pair holds a file with hash `hash` under a name
/// under which the new directory holds no file.
pub open spec fn loses_file(store: Map<Seq<char>, Seq<u8>>, pair: HashPair, hash: Seq<char>) -> bool {
    exists|e: RecordView|
        among(entries_of(store, pair.0), e) && e.kind == DiffBlobType::File && e.hash == hash
            && find_entry(entries_of(store, pair.1), e.name, e.kind) is None
}

/// The new directory of the pair holds a file with hash `hash` under a name
/// under which the old directory holds no file.
pub open spec fn gains_file(store: Map<Seq<char>, Seq<u8>>, pair: HashPair, hash: Seq<char>) -> bool {
    exists|e: RecordView|
        among(entries_of(store, pair.1), e) && e.kind == DiffBlobType::File && e.hash == hash
            && find_entry(entries_of(store, pair.0), e.name, e.kind) is None
}

/// Both snapshots have a directory of one name in the two directories of the
/// pair, with the hashes of `below`, which differ.
pub open spec fn leads_to(store: Map<Seq<char>, Seq<u8>>, pair: HashPair, below: HashPair) -> bool {
    exists|e: RecordView|
        among(entries_of(store, pair.0), e) && e.kind == DiffBlobType::Directory && e.hash
            == below.0 && below.0 != below.1 && (find_entry(
            entries_of(store, pair.1),
            e.name,
            e.kind,
        ) matches Some(i) && entries_of(store, pair.1)[i].hash == below.1)
}

/// A file that the old directory of a pair loses is found as deleted.
proof fn lemma_lost_file_is_deleted(
    store: Map<Seq<char>, Seq<u8>>,
    pair: HashPair,
    depth_left: nat,
    fuel: nat,
    hash: Seq<char>,
)
    requires
        pair_findings(store, pair, depth_left, fuel) is Ok,
        loses_file(store, pair, hash),
    ensures
        among(
            (pair_findings(store, pair, depth_left, fuel)->Ok_0).0,
            mark(false, DiffFileType::File, hash),
        ),
{
    reveal(pair_findings);
    let old_entries = entries_of(store, pair.0);
    let new_entries = entries_of(store, pair.1);
    let e = choose|e: RecordView|
        among(old_entries, e) && e.kind == DiffBlobType::File && e.hash == hash && find_entry(
            new_entries,
            e.name,
            e.kind,
        ) is None;
    let c = mark(false, DiffFileType::File, hash);
    let found = old_side_findings(store, old_entries, new_entries, fuel)->Ok_0;
    let added = new_side_changes(store, new_entries, old_entries, fuel)->Ok_0;
    let own = (old_entry_findings(store, e, new_entries, fuel)->Ok_0).0;
    assert(own[0] == c);
    lemma_old_entry_is_looked_at(store, old_entries, new_entries, fuel, e, c);
    let head = seq![
        ChangeView::Modify { kind: DiffFileType::Directory, old: pair.0, new: pair.1 },
    ];
    lemma_among_concat(head, found.0, c);
    lemma_among_concat(head + found.0, added, c);
}

/// A file that the new directory of a pair gains is found as added.
proof fn lemma_gained_file_is_added(
    store: Map<Seq<char>, Seq<u8>>,
    pair: HashPair,
    depth_left: nat,
    fuel: nat,
    hash: Seq<char>,
)
    requires
        pair_findings(store, pair, depth_left, fuel) is Ok,
        gains_file(store, pair, hash),
    ensures
        among(
            (pair_findings(store, pair, depth_left, fuel)->Ok_0).0,
            mark(true, DiffFileType::File, hash),
        ),
{
    reveal(pair_findings);
    let old_entries = entries_of(store, pair.0);
    let new_entries = entries_of(store, pair.1);
    let e = choose|e: RecordView|
        among(new_entries, e) && e.kind == DiffBlobType::File && e.hash == hash && find_entry(
            old_entries,
            e.name,
            e.kind,
        ) is None;
    let c = mark(true, DiffFileType::File, hash);
    let found = old_side_findings(store, old_entries, new_entries, fuel)->Ok_0;
    let added = new_side_changes(store, new_entries, old_entries, fuel)->Ok_0;
    let own = new_entry_changes(store, e, old_entries, fuel)->Ok_0;
    assert(own[0] == c);
    lemma_new_entry_is_looked_at(store, new_entries, old_entries, fuel, e, c);
    let head = seq![
        ChangeView::Modify { kind: DiffFileType::Directory, old: pair.0, new: pair.1 },
    ];
    lemma_among_concat(head + found.0, added, c);
}

/// A pair of directories that a pair leads to is put down to be looked into.
proof fn lemma_led_to_pair_is_kept(
    store: Map<Seq<char>, Seq<u8>>,
    pair: HashPair,
    depth_left: nat,
    fuel: nat,
    below: HashPair,
)
    requires
        pair_findings(store, pair, depth_left, fuel) is Ok,
        leads_to(store, pair, below),
    ensures
        among((pair_findings(store, pair, depth_left, fuel)->Ok_0).1, below),
{
    reveal(pair_findings);
    let old_entries = entries_of(store, pair.0);
    let new_entries = entries_of(store, pair.1);
    let e = choose|e: RecordView|
        among(old_entries, e) && e.kind == DiffBlobType::Directory && e.hash == below.0 && below.0
            != below.1 && (find_entry(new_entries, e.name, e.kind) matches Some(i)
            && new_entries[i].hash == below.1);
    let own = (old_entry_findings(store, e, new_entries, fuel)->Ok_0).1;
    assert(own[0] == below);
    lemma_old_entry_pairs_are_kept(store, old_entries, new_entries, fuel, e, below);
}

/// What is found for one pair of a level is among what is found for the
/// level, and so are the pairs that it gives.
proof fn lemma_pair_is_looked_at(
    store: Map<Seq<char>, Seq<u8>>,
    pairs: Seq<HashPair>,
    depth_left: nat,
    fuel: nat,
    p: HashPair,
)
    requires
        level_findings(store, pairs, depth_left, fuel) is Ok,
        among(pairs, p),
    ensures
        pair_findings(store, p, depth_left, fuel) is Ok,
        forall|c: ChangeView|
            among((pair_findings(store, p, depth_left, fuel)->Ok_0).0, c) ==> among(
                (level_findings(store, pairs, depth_left, fuel)->Ok_0).0,
                c,
            ),
        forall|q: HashPair|
            among((pair_findings(store, p, depth_left, fuel)->Ok_0).1, q) ==> among(
                (level_findings(store, pairs, depth_left, fuel)->Ok_0).1,
                q,
            ),
    decreases pairs.len(),
{
    reveal(level_findings);
    let all = level_findings(store, pairs, depth_left, fuel)->Ok_0;
    let first = pair_findings(store, pairs[0], depth_left, fuel)->Ok_0;
    let rest = level_findings(store, pairs.drop_first(), depth_left, fuel)->Ok_0;
    assert(all.0 == first.0 + rest.0);
    assert(all.1 == first.1 + rest.1);
    if pairs[0] != p {
        let i = choose|i: int| 0 <= i < pairs.len() && pairs[i] == p;
        assert(pairs.drop_first()[i - 1] == p);
        lemma_pair_is_looked_at(store, pairs.drop_first(), depth_left, fuel, p);
    }
    let own = pair_findings(store, p, depth_left, fuel)->Ok_0;
    assert forall|c: ChangeView| among(own.0, c) implies among(all.0, c) by {
        lemma_among_concat(first.0, rest.0, c);
    }
    assert forall|q: HashPair| among(own.1, q) implies among(all.1, q) by {
        lemma_among_concat(first.1, rest.1, q);
    }
}

/// From the first pair of `path` each pair leads to the next.
pub open spec fn leads_along(store: Map<Seq<char>, Seq<u8>>, path: Seq<HashPair>) -> bool {
    forall|i: int| 0 <= i < path.len() - 1 ==> leads_to(store, #[trigger] path[i], path[i + 1])
}

/// What is found for the pair at the end of a path that begins at one of the
/// pairs of a level is among the changes of that level and the levels below.
proof fn lemma_path_is_followed(
    store: Map<Seq<char>, Seq<u8>>,
    pairs: Seq<HashPair>,
    depth_left: nat,
    fuel: nat,
    path: Seq<HashPair>,
)
    requires
        levels_changes(store, pairs, depth_left, fuel) is Ok,
        path.len() > 0,
        among(pairs, path[0]),
        leads_along(store, path),
    ensures
        depth_left >= path.len(),
        pair_findings(store, path.last(), (depth_left - (path.len() - 1)) as nat, fuel) is Ok,
        forall|c: ChangeView|
            among(
                (pair_findings(
                    store,
                    path.last(),
                    (depth_left - (path.len() - 1)) as nat,
                    fuel,
                )->Ok_0).0,
                c,
            ) ==> among(levels_changes(store, pairs, depth_left, fuel)->Ok_0, c),
    decreases path.len(),
{
    let all = levels_changes(store, pairs, depth_left, fuel)->Ok_0;
    let level = level_findings(store, pairs, depth_left, fuel)->Ok_0;
    let rest = levels_changes(store, level.1, (depth_left - 1) as nat, fuel)->Ok_0;
    assert(all == level.0 + rest);
    lemma_pair_is_looked_at(store, pairs, depth_left, fuel, path[0]);
    if path.len() == 1 {
        let own = pair_findings(store, path[0], depth_left, fuel)->Ok_0;
        assert forall|c: ChangeView| among(own.0, c) implies among(all, c) by {
            lemma_among_concat(level.0, rest, c);
        }
    } else {
        let below = path.drop_first();
        lemma_led_to_pair_is_kept(store, path[0], depth_left, fuel, path[1]);
        assert(below[0] == path[1]);
        assert forall|i: int| 0 <= i < below.len() - 1 implies leads_to(
            store,
            #[trigger] below[i],
            below[i + 1],
        ) by {
            assert(below[i] == path[i + 1]);
            assert(below[i + 1] == path[i + 2]);
        }
        lemma_path_is_followed(store, level.1, (depth_left - 1) as nat, fuel, below);
        assert(below.last() == path.last());
        let own = pair_findings(
            store,
            path.last(),
            (depth_left - (path.len() - 1)) as nat,
            fuel,
        )->Ok_0;
        assert forall|c: ChangeView| among(own.0, c) implies among(all, c) by {
            lemma_among_concat(level.0, rest, c);
        }
    }
}

/// The records of the manifest under `hash`, as a walk sees them.
pub open spec fn records_of(store: Map<Seq<char>, Seq<u8>>, hash: Seq<char>) -> Seq<RecordView> {
    if store.contains_key(hash) {
        match manifest_records(store[hash]) {
            Ok(records) => records,
            Err(_) => seq![],
        }
    } else {
        seq![]
    }
}

/// The manifest under `dir` has a line for a directory with hash `below`.
pub open spec fn holds_directory(
    store: Map<Seq<char>, Seq<u8>>,
    dir: Seq<char>,
    below: Seq<char>,
) -> bool {
    exists|e: RecordView|
        among(records_of(store, dir), e) && e.kind == DiffBlobType::Directory && e.hash == below
}

/// The manifest under `dir` has a line for a file with hash `hash`.
pub open spec fn holds_file(store: Map<Seq<char>, Seq<u8>>, dir: Seq<char>, hash: Seq<char>) -> bool {
    exists|e: RecordView|
        among(records_of(store, dir), e) && e.kind == DiffBlobType::File && e.hash == hash
}

/// Each directory of `dirs` holds the next.
pub open spec fn goes_down(store: Map<Seq<char>, Seq<u8>>, dirs: Seq<Seq<char>>) -> bool {
    forall|i: int| 0 <= i < dirs.len() - 1 ==> holds_directory(store, #[trigger] dirs[i], dirs[i + 1])
}

proof fn lemma_file_is_marked(records: Seq<RecordView>, add: bool, e: RecordView)
    requires
        among(records, e),
        e.kind == DiffBlobType::File,
    ensures
        among(file_marks(records, add), mark(add, DiffFileType::File, e.hash)),
    decreases records.len(),
{
    let c = mark(add, DiffFileType::File, e.hash);
    let before = file_marks(records.drop_last(), add);
    if records.last() == e {
        assert(before.push(c)[before.len() as int] == c);
    } else {
        let i = choose|i: int| 0 <= i < records.len() && records[i] == e;
        assert(records.drop_last()[i] == e);
        lemma_file_is_marked(records.drop_last(), add, e);
        let j = choose|j: int| 0 <= j < before.len() && before[j] == c;
        assert(file_marks(records, add)[j] == c);
    }
}

proof fn lemma_directory_is_walked(records: Seq<RecordView>, e: RecordView)
    requires
        among(records, e),
        e.kind == DiffBlobType::Directory,
    ensures
        among(sub_directories(records), e.hash),
    decreases records.len(),
{
    let rest = sub_directories(records.drop_last());
    if records.last() == e {
        assert(sub_directories(records)[0] == e.hash);
    } else {
        let i = choose|i: int| 0 <= i < records.len() && records[i] == e;
        assert(records.drop_last()[i] == e);
        lemma_directory_is_walked(records.drop_last(), e);
        let j = choose|j: int| 0 <= j < rest.len() && rest[j] == e.hash;
        if records.last().kind == DiffBlobType::Directory {
            assert(sub_directories(records)[j + 1] == e.hash);
        }
    }
}

proof fn lemma_walk_of_one_is_among(
    store: Map<Seq<char>, Seq<u8>>,
    hashes: Seq<Seq<char>>,
    add: bool,
    fuel: nat,
    hash: Seq<char>,
    c: ChangeView,
)
    requires
        walk_all(store, hashes, add, fuel) is Ok,
        among(hashes, hash),
        walk(store, hash, add, fuel) is Ok ==> among(walk(store, hash, add, fuel)->Ok_0, c),
    ensures
        among(walk_all(store, hashes, add, fuel)->Ok_0, c),
    decreases hashes.len(),
{
    let first = walk(store, hashes[0], add, fuel)->Ok_0;
    let rest = walk_all(store, hashes.drop_first(), add, fuel)->Ok_0;
    assert(walk_all(store, hashes, add, fuel)->Ok_0 == first + rest);
    lemma_among_concat(first, rest, c);
    if hashes[0] != hash {
        let i = choose|i: int| 0 <= i < hashes.len() && hashes[i] == hash;
        assert(hashes.drop_first()[i - 1] == hash);
        lemma_walk_of_one_is_among(store, hashes.drop_first(), add, fuel, hash, c);
    }
}

/// A walk marks every file that is reached from where it begins.
proof fn lemma_walk_marks_what_is_below(
    store: Map<Seq<char>, Seq<u8>>,
    dirs: Seq<Seq<char>>,
    add: bool,
    fuel: nat,
    hash: Seq<char>,
)
    requires
        dirs.len() > 0,
        walk(store, dirs[0], add, fuel) is Ok,
        goes_down(store, dirs),
        holds_file(store, dirs.last(), hash),
    ensures
        among(walk(store, dirs[0], add, fuel)->Ok_0, mark(add, DiffFileType::File, hash)),
    decreases dirs.len(),
{
    let c = mark(add, DiffFileType::File, hash);
    let records = records_of(store, dirs[0]);
    let own = seq![mark(add, DiffFileType::Directory, dirs[0])] + file_marks(records, add);
    let below = walk_all(store, sub_directories(records), add, (fuel - 1) as nat)->Ok_0;
    assert(walk(store, dirs[0], add, fuel)->Ok_0 == own + below);
    lemma_among_concat(own, below, c);
    if dirs.len() == 1 {
        let e = choose|e: RecordView|
            among(records, e) && e.kind == DiffBlobType::File && e.hash == hash;
        lemma_file_is_marked(records, add, e);
        lemma_among_concat(
            seq![mark(add, DiffFileType::Directory, dirs[0])],
            file_marks(records, add),
            c,
        );
    } else {
        let e = choose|e: RecordView|
            among(records, e) && e.kind == DiffBlobType::Directory && e.hash == dirs[1];
        lemma_directory_is_walked(records, e);
        let rest = dirs.drop_first();
        assert(rest[0] == dirs[1]);
        assert(rest.last() == dirs.last());
        assert forall|i: int| 0 <= i < rest.len() - 1 implies holds_directory(
            store,
            #[trigger] rest[i],
            rest[i + 1],
        ) by {
            assert(rest[i] == dirs[i + 1]);
            assert(rest[i + 1] == dirs[i + 2]);
        }
        if walk(store, dirs[1], add, (fuel - 1) as nat) is Ok {
            lemma_walk_marks_what_is_below(store, rest, add, (fuel - 1) as nat, hash);
        }
        lemma_walk_of_one_is_among(
            store,
            sub_directories(records),
            add,
            (fuel - 1) as nat,
            dirs[1],
            c,
        );
    }
}

/// The old directory of the pair holds a directory under a name under which
/// the new directory holds none, and a file with hash `hash` is reached from
/// it along `dirs`.
pub open spec fn loses_file_below(
    store: Map<Seq<char>, Seq<u8>>,
    pair: HashPair,
    dirs: Seq<Seq<char>>,
    hash: Seq<char>,
) -> bool {
    &&& dirs.len() > 0
    &&& goes_down(store, dirs)
    &&& holds_file(store, dirs.last(), hash)
    &&& exists|e: RecordView|
        among(entries_of(store, pair.0), e) && e.kind == DiffBlobType::Directory && e.hash
            == dirs[0] && find_entry(entries_of(store, pair.1), e.name, e.kind) is None
}

/// The new directory of the pair holds a directory under a name under which
/// the old directory holds none, and a file with hash `hash` is reached from
/// it along `dirs`.
pub open spec fn gains_file_below(
    store: Map<Seq<char>, Seq<u8>>,
    pair: HashPair,
    dirs: Seq<Seq<char>>,
    hash: Seq<char>,
) -> bool {
    &&& dirs.len() > 0
    &&& goes_down(store, dirs)
    &&& holds_file(store, dirs.last(), hash)
    &&& exists|e: RecordView|
        among(entries_of(store, pair.1), e) && e.kind == DiffBlobType::Directory && e.hash
            == dirs[0] && find_entry(entries_of(store, pair.0), e.name, e.kind) is None
}

/// A file below a directory that the old side of a pair loses is found as
/// deleted.
proof fn lemma_lost_directory_is_walked(
    store: Map<Seq<char>, Seq<u8>>,
    pair: HashPair,
    depth_left: nat,
    fuel: nat,
    dirs: Seq<Seq<char>>,
    hash: Seq<char>,
)
    requires
        pair_findings(store, pair, depth_left, fuel) is Ok,
        loses_file_below(store, pair, dirs, hash),
    ensures
        among(
            (pair_findings(store, pair, depth_left, fuel)->Ok_0).0,
            mark(false, DiffFileType::File, hash),
        ),
{
    reveal(pair_findings);
    let old_entries = entries_of(store, pair.0);
    let new_entries = entries_of(store, pair.1);
    let e = choose|e: RecordView|
        among(old_entries, e) && e.kind == DiffBlobType::Directory && e.hash == dirs[0]
            && find_entry(new_entries, e.name, e.kind) is None;
    let c = mark(false, DiffFileType::File, hash);
    let found = old_side_findings(store, old_entries, new_entries, fuel)->Ok_0;
    let added = new_side_changes(store, new_entries, old_entries, fuel)->Ok_0;
    if old_entry_findings(store, e, new_entries, fuel) is Ok {
        lemma_walk_marks_what_is_below(store, dirs, false, fuel, hash);
    }
    lemma_old_entry_is_looked_at(store, old_entries, new_entries, fuel, e, c);
    let head = seq![
        ChangeView::Modify { kind: DiffFileType::Directory, old: pair.0, new: pair.1 },
    ];
    lemma_among_concat(head, found.0, c);
    lemma_among_concat(head + found.0, added, c);
}

/// A file below a directory that the new side of a pair gains is found as
/// added.
proof fn lemma_gained_directory_is_walked(
    store: Map<Seq<char>, Seq<u8>>,
    pair: HashPair,
    depth_left: nat,
    fuel: nat,
    dirs: Seq<Seq<char>>,
    hash: Seq<char>,
)
    requires
        pair_findings(store, pair, depth_left, fuel) is Ok,
        gains_file_below(store, pair, dirs, hash),
    ensures
        among(
            (pair_findings(store, pair, depth_left, fuel)->Ok_0).0,
            mark(true, DiffFileType::File, hash),
        ),
{
    reveal(pair_findings);
    let old_entries = entries_of(store, pair.0);
    let new_entries = entries_of(store, pair.1);
    let e = choose|e: RecordView|
        among(new_entries, e) && e.kind == DiffBlobType::Directory && e.hash == dirs[0]
            && find_entry(old_entries, e.name, e.kind) is None;
    let c = mark(true, DiffFileType::File, hash);
    let found = old_side_findings(store, old_entries, new_entries, fuel)->Ok_0;
    let added = new_side_changes(store, new_entries, old_entries, fuel)->Ok_0;
    if new_entry_changes(store, e, old_entries, fuel) is Ok {
        lemma_walk_marks_what_is_below(store, dirs, true, fuel, hash);
    }
    lemma_new_entry_is_looked_at(store, new_entries, old_entries, fuel, e, c);
    let head = seq![
        ChangeView::Modify { kind: DiffFileType::Directory, old: pair.0, new: pair.1 },
    ];
    lemma_among_concat(head + found.0, added, c);
}

/// The old side of the pair has a file with hash `hash` that the new side has
/// not at that place: as an entry of its own, or below a directory of which
/// the new side has none.
pub open spec fn file_leaves(store: Map<Seq<char>, Seq<u8>>, pair: HashPair, hash: Seq<char>) -> bool {
    loses_file(store, pair, hash) || exists|dirs: Seq<Seq<char>>|
        loses_file_below(store, pair, dirs, hash)
}

/// The new side of the pair has a file with hash `hash` that the old side has
/// not at that place: as an entry of its own, or below a directory of which
/// the old side has none.
pub open spec fn file_arrives(store: Map<Seq<char>, Seq<u8>>, pair: HashPair, hash: Seq<char>) -> bool {
    gains_file(store, pair, hash) || exists|dirs: Seq<Seq<char>>|
        gains_file_below(store, pair, dirs, hash)
}

/// A file that has only moved is neither added nor deleted.
///
/// Let the comparison of two snapshots succeed. Let a file with hash `hash`
/// leave a directory that is reached from the roots through directories which
/// both snapshots have, each with another hash on the two sides: the old side
/// has the file, or a directory that holds it somewhere below, under a name
/// under which the new side has nothing of that kind. And let a file with
/// that hash arrive in a directory that is reached in the same way. Then the
/// changes hold neither an addition nor a deletion of a file with that hash.
pub proof fn lemma_moved_file_is_neither_added_nor_deleted(
    store: Map<Seq<char>, Seq<u8>>,
    blobs: nat,
    old: Seq<char>,
    new: Seq<char>,
    from: Seq<HashPair>,
    to: Seq<HashPair>,
    hash: Seq<char>,
)
    requires
        old != new,
        tree_diff(store, blobs, old, new) is Ok,
        from.len() > 0,
        from[0] == (old, new),
        leads_along(store, from),
        file_leaves(store, from.last(), hash),
        to.len() > 0,
        to[0] == (old, new),
        leads_along(store, to),
        file_arrives(store, to.last(), hash),
    ensures
        !has_add(tree_diff(store, blobs, old, new)->Ok_0, DiffFileType::File, hash),
        !has_delete(tree_diff(store, blobs, old, new)->Ok_0, DiffFileType::File, hash),
{
    let roots = seq![(old, new)];
    let found = levels_changes(store, roots, blobs, blobs)->Ok_0;
    assert(roots[0] == (old, new));
    lemma_path_is_followed(store, roots, blobs, blobs, from);
    lemma_path_is_followed(store, roots, blobs, blobs, to);
    if loses_file(store, from.last(), hash) {
        lemma_lost_file_is_deleted(
            store,
            from.last(),
            (blobs - (from.len() - 1)) as nat,
            blobs,
            hash,
        );
    } else {
        let dirs = choose|dirs: Seq<Seq<char>>| loses_file_below(store, from.last(), dirs, hash);
        lemma_lost_directory_is_walked(
            store,
            from.last(),
            (blobs - (from.len() - 1)) as nat,
            blobs,
            dirs,
            hash,
        );
    }
    if gains_file(store, to.last(), hash) {
        lemma_gained_file_is_added(
            store,
            to.last(),
            (blobs - (to.len() - 1)) as nat,
            blobs,
            hash,
        );
    } else {
        let dirs = choose|dirs: Seq<Seq<char>>| gains_file_below(store, to.last(), dirs, hash);
        lemma_gained_directory_is_walked(
            store,
            to.last(),
            (blobs - (to.len() - 1)) as nat,
            blobs,
            dirs,
            hash,
        );
    }
    let deleted = mark(false, DiffFileType::File, hash);
    let added = mark(true, DiffFileType::File, hash);
    assert(among(found, deleted));
    assert(among(found, added));
    let i = choose|i: int| 0 <= i < found.len() && found[i] == deleted;
    let j = choose|j: int| 0 <= j < found.len() && found[j] == added;
    assert(has_delete(found, DiffFileType::File, hash));
    assert(has_add(found, DiffFileType::File, hash));
    lemma_moved_blob_cancels(found, DiffFileType::File, hash);
}

} // verus!
