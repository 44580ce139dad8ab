//! The order in which a directory is listed does not show in its snapshot.
//!
//! The lines of a manifest are put in the order of their names before the
//! manifest is hashed. Two lists of lines that hold the same lines, with no
//! name twice, come out of that in the same order.

use crate::common::RecordView;
use crate::hash::{
    directory_hash, entry_record, entry_records, lemma_bytes_le_antisym,
    lemma_bytes_le_total, lemma_bytes_le_trans, lemma_entry_records_concat, name_le, name_slot,
    ordered_by_name, sort_by_name, SourceEntry,
};
use vstd::prelude::*;
use vstd::seq_lib::{
    lemma_multiset_commutative, to_multiset_build, to_multiset_contains, to_multiset_len,
    to_multiset_remove,
};
use vstd::utf8::encode_utf8;

verus! {

/// No two of the records have the same name.
pub open spec fn distinct_names(records: Seq<RecordView>) -> bool {
    forall|i: int, j: int|
        0 <= i < records.len() && 0 <= j < records.len() && i != j ==> (#[trigger] records[i]).name
            != (#[trigger] records[j]).name
}

proof fn lemma_name_slot_bounds(records: Seq<RecordView>, name: Seq<char>)
    ensures
        0 <= name_slot(records, name) <= records.len(),
        forall|i: int|
            name_slot(records, name) <= i < records.len() ==> !name_le(
                (#[trigger] records[i]).name,
                name,
            ),
        name_slot(records, name) > 0 ==> name_le(records[name_slot(records, name) - 1].name, name),
    decreases records.len(),
{
    if records.len() > 0 && !name_le(records.last().name, name) {
        lemma_name_slot_bounds(records.drop_last(), name);
        assert forall|i: int| name_slot(records, name) <= i < records.len() implies !name_le(
            (#[trigger] records[i]).name,
            name,
        ) by {
            if i < records.len() - 1 {
                assert(records[i] == records.drop_last()[i]);
            }
        }
    }
}

/// What comes out of the sort is in the order of the names.
pub proof fn lemma_sort_by_name_orders(records: Seq<RecordView>)
    ensures
        ordered_by_name(sort_by_name(records)),
    decreases records.len(),
{
    if records.len() > 0 {
        let sorted = sort_by_name(records.drop_last());
        let x = records.last();
        let k = name_slot(sorted, x.name);
        lemma_sort_by_name_orders(records.drop_last());
        lemma_name_slot_bounds(sorted, x.name);
        let out = sorted.insert(k, x);
        assert forall|i: int, j: int| 0 <= i <= j < out.len() implies name_le(
            (#[trigger] out[i]).name,
            (#[trigger] out[j]).name,
        ) by {
            let a = encode_utf8(out[i].name);
            let b = encode_utf8(out[j].name);
            if i == j {
                crate::hash::lemma_bytes_le_refl(a);
            } else if j < k {
                assert(out[i] == sorted[i] && out[j] == sorted[j]);
            } else if i > k {
                assert(out[i] == sorted[i - 1] && out[j] == sorted[j - 1]);
            } else if i < k && j == k {
                assert(out[i] == sorted[i]);
                assert(name_le(sorted[i].name, sorted[k - 1].name));
                lemma_bytes_le_trans(a, encode_utf8(sorted[k - 1].name), b);
            } else if i == k && j > k {
                assert(out[j] == sorted[j - 1]);
                assert(!name_le(sorted[j - 1].name, x.name));
                lemma_bytes_le_total(a, b);
            } else {
                assert(out[i] == sorted[i] && out[j] == sorted[j - 1]);
            }
        }
    }
}

/// The sort neither drops nor adds a record.
pub proof fn lemma_sort_by_name_permutes(records: Seq<RecordView>)
    ensures
        sort_by_name(records).to_multiset() == records.to_multiset(),
    decreases records.len(),
{
    broadcast use vstd::seq_lib::to_multiset_insert, vstd::seq_lib::to_multiset_build;

    if records.len() == 0 {
        assert(sort_by_name(records) =~= records);
    } else {
        let sorted = sort_by_name(records.drop_last());
        let x = records.last();
        lemma_sort_by_name_permutes(records.drop_last());
        lemma_name_slot_bounds(sorted, x.name);
        assert(records =~= records.drop_last().push(x));
        assert(sorted.insert(name_slot(sorted, x.name), x).to_multiset()
            =~= sorted.to_multiset().insert(x));
        assert(records.drop_last().push(x).to_multiset()
            =~= records.drop_last().to_multiset().insert(x));
    }
}

proof fn lemma_name_decides(a: RecordView, b: RecordView)
    requires
        name_le(a.name, b.name),
        name_le(b.name, a.name),
    ensures
        a.name == b.name,
{
    lemma_bytes_le_antisym(encode_utf8(a.name), encode_utf8(b.name));
    vstd::utf8::encode_utf8_decode_utf8(a.name);
    vstd::utf8::encode_utf8_decode_utf8(b.name);
}

proof fn lemma_same_records_without_last(a: Seq<RecordView>, b: Seq<RecordView>)
    requires
        a.len() > 0,
        b.len() > 0,
        a.last() == b.last(),
        a.to_multiset() == b.to_multiset(),
    ensures
        a.drop_last().to_multiset() == b.drop_last().to_multiset(),
{
    to_multiset_remove(a, a.len() - 1);
    to_multiset_remove(b, b.len() - 1);
    assert(a.remove(a.len() - 1) =~= a.drop_last());
    assert(b.remove(b.len() - 1) =~= b.drop_last());
}

/// Two lists of records that are both in the order of their names and hold
/// the same records, none of them a name twice, are the same list.
pub proof fn lemma_ordered_records_are_unique(a: Seq<RecordView>, b: Seq<RecordView>)
    requires
        ordered_by_name(a),
        ordered_by_name(b),
        distinct_names(a),
        a.to_multiset() == b.to_multiset(),
    ensures
        a == b,
    decreases a.len(),
{
    to_multiset_len(a);
    to_multiset_len(b);
    if a.len() == 0 {
        assert(a =~= b);
    } else {
        let n = a.len() as int;
        let m = a.last();
        to_multiset_contains(a, m);
        to_multiset_contains(b, m);
        assert(a.contains(m)) by {
            assert(a[n - 1] == m);
        }
        let k = choose|k: int| 0 <= k < b.len() && b[k] == m;
        let z = b.last();
        to_multiset_contains(a, z);
        to_multiset_contains(b, z);
        assert(b.contains(z)) by {
            assert(b[n - 1] == z);
        }
        let j = choose|j: int| 0 <= j < a.len() && a[j] == z;
        assert(name_le(b[k].name, b[n - 1].name));
        assert(name_le(a[j].name, a[n - 1].name));
        lemma_name_decides(m, z);
        if j != n - 1 {
            assert(a[j].name != a[n - 1].name);
        }
        assert(z == m);
        lemma_same_records_without_last(a, b);
        let af = a.drop_last();
        let bf = b.drop_last();
        assert forall|i: int, j: int| 0 <= i <= j < af.len() implies name_le(
            (#[trigger] af[i]).name,
            (#[trigger] af[j]).name,
        ) by {
            assert(af[i] == a[i] && af[j] == a[j]);
        }
        assert forall|i: int, j: int| 0 <= i <= j < bf.len() implies name_le(
            (#[trigger] bf[i]).name,
            (#[trigger] bf[j]).name,
        ) by {
            assert(bf[i] == b[i] && bf[j] == b[j]);
        }
        assert forall|i: int, j: int|
            0 <= i < af.len() && 0 <= j < af.len() && i != j implies (#[trigger] af[i]).name != (
        #[trigger] af[j]).name by {
            assert(af[i] == a[i] && af[j] == a[j]);
        }
        lemma_ordered_records_are_unique(af, bf);
        assert(a =~= af.push(m));
        assert(b =~= bf.push(z));
    }
}

/// Where no two records of a list have the same name, no two records of a
/// list that holds the same records have.
pub proof fn lemma_distinct_names_permuted(a: Seq<RecordView>, b: Seq<RecordView>)
    requires
        distinct_names(a),
        a.to_multiset() == b.to_multiset(),
    ensures
        distinct_names(b),
{
    broadcast use vstd::multiset::group_multiset_axioms;

    assert(a.no_duplicates());
    a.lemma_multiset_has_no_duplicates();
    assert forall|i: int, j: int| 0 <= i < b.len() && 0 <= j < b.len() && i != j implies (
    #[trigger] b[i]).name != (#[trigger] b[j]).name by {
        if b[i].name == b[j].name {
            to_multiset_contains(a, b[i]);
            to_multiset_contains(b, b[i]);
            to_multiset_contains(a, b[j]);
            to_multiset_contains(b, b[j]);
            assert(b.contains(b[i]) && b.contains(b[j]));
            let p = choose|p: int| 0 <= p < a.len() && a[p] == b[i];
            let q = choose|q: int| 0 <= q < a.len() && a[q] == b[j];
            if p != q {
                assert(a[p].name != a[q].name);
            }
            let r = b[i];
            assert(b[j] == r);
            let without = b.remove(i);
            to_multiset_remove(b, i);
            to_multiset_contains(without, r);
            if j < i {
                assert(without[j] == r);
            } else {
                assert(without[j - 1] == r);
            }
            assert(without.contains(r));
            assert(b.to_multiset().count(r) >= 2);
        }
    }
}

/// Sorting two lists that hold the same records, none of them a name twice,
/// gives the same list.
pub proof fn lemma_sort_by_name_forgets_order(a: Seq<RecordView>, b: Seq<RecordView>)
    requires
        distinct_names(a),
        a.to_multiset() == b.to_multiset(),
    ensures
        sort_by_name(a) == sort_by_name(b),
{
    lemma_sort_by_name_permutes(a);
    lemma_distinct_names_permuted(a, sort_by_name(a));
    lemma_sort_by_name_orders(a);
    lemma_sort_by_name_orders(b);
    lemma_sort_by_name_permutes(a);
    lemma_sort_by_name_permutes(b);
    lemma_ordered_records_are_unique(sort_by_name(a), sort_by_name(b));
}

/// The lines of one entry: one line, or none.
pub open spec fn lines_of(entry: SourceEntry) -> Seq<RecordView> {
    match entry_record(entry) {
        Some(r) => seq![r],
        None => seq![],
    }
}

proof fn lemma_entry_records_of_one(entry: SourceEntry)
    ensures
        entry_records(seq![entry]) == lines_of(entry),
{
    let one = seq![entry];
    assert(one.drop_last() =~= Seq::<SourceEntry>::empty());
    assert(one.last() == entry);
    assert(entry_records(Seq::<SourceEntry>::empty()) =~= Seq::<RecordView>::empty());
    assert(entry_records(one) =~= lines_of(entry));
}

/// Two listings that hold the same entries give the same lines, though not in
/// the same order.
pub proof fn lemma_same_entries_same_lines(x: Seq<SourceEntry>, y: Seq<SourceEntry>)
    requires
        x.to_multiset() == y.to_multiset(),
    ensures
        entry_records(x).to_multiset() == entry_records(y).to_multiset(),
    decreases x.len(),
{
    to_multiset_len(x);
    to_multiset_len(y);
    if x.len() == 0 {
        assert(x =~= y);
    } else {
        let e = x.last();
        to_multiset_contains(x, e);
        to_multiset_contains(y, e);
        assert(x.contains(e)) by {
            assert(x[x.len() - 1] == e);
        }
        let k = choose|k: int| 0 <= k < y.len() && y[k] == e;
        let head = y.subrange(0, k);
        let tail = y.subrange(k + 1, y.len() as int);
        let rest = y.remove(k);
        to_multiset_remove(x, x.len() - 1);
        to_multiset_remove(y, k);
        assert(x.remove(x.len() - 1) =~= x.drop_last());
        lemma_same_entries_same_lines(x.drop_last(), rest);
        assert(rest =~= head + tail);
        assert(y =~= head + seq![e] + tail);
        assert(x =~= x.drop_last() + seq![e]);
        lemma_entry_records_of_one(e);
        lemma_entry_records_concat(head, tail);
        lemma_entry_records_concat(head, seq![e]);
        lemma_entry_records_concat(head + seq![e], tail);
        lemma_entry_records_concat(x.drop_last(), seq![e]);
        let h = entry_records(head);
        let t = entry_records(tail);
        let l = lines_of(e);
        let f = entry_records(x.drop_last());
        lemma_multiset_commutative(h, t);
        lemma_multiset_commutative(h, l);
        lemma_multiset_commutative(h + l, t);
        lemma_multiset_commutative(f, l);
        assert(entry_records(y).to_multiset() =~= h.to_multiset().add(l.to_multiset()).add(
            t.to_multiset(),
        ));
        assert(entry_records(x).to_multiset() =~= h.to_multiset().add(t.to_multiset()).add(
            l.to_multiset(),
        ));
        assert(entry_records(x).to_multiset() =~= entry_records(y).to_multiset());
    }
}

/// The order in which the entries of a directory are listed does not change
/// the directory's hash, provided no two lines of the directory have the same
/// name.
pub proof fn lemma_listing_order_does_not_matter(x: Seq<SourceEntry>, y: Seq<SourceEntry>)
    requires
        x.to_multiset() == y.to_multiset(),
        distinct_names(entry_records(x)),
    ensures
        directory_hash(x) == directory_hash(y),
{
    lemma_same_entries_same_lines(x, y);
    lemma_sort_by_name_forgets_order(entry_records(x), entry_records(y));
}

} // verus!
