//! Replaying a patch list on the bytes it was made for.
//!
//! Each patch becomes a replacement: so many bytes of the base, from a
//! given offset, give way to a given content. An addition replaces nothing by
//! its bytes, a deletion replaces its bytes by nothing. The replacements are
//! put in the order of their offsets, keeping the order of those that share
//! one, and the base is copied through from left to right.

use crate::edit::{edit_script, edit_script_from, EditOp};
use crate::patch::{
    diff_of_script, patch_of, patch_views, patches_of, whole_replacement, BytesPatch, PatchView,
};
use vstd::prelude::*;
use vstd::slice::{slice_subrange, slice_to_vec};

verus! {

/// `length` bytes of the base, from offset `start`, give way to `content`.
#[derive(Debug, PartialEq, Eq)]
pub struct Replacement {
    pub start: usize,
    pub length: usize,
    pub content: Vec<u8>,
}

/// A `Replacement` as a mathematical value.
#[verifier::ext_equal]
pub ghost struct ReplacementView {
    pub start: int,
    pub length: int,
    pub content: Seq<u8>,
}

impl View for Replacement {
    type V = ReplacementView;

    open spec fn view(&self) -> ReplacementView {
        ReplacementView {
            start: self.start as int,
            length: self.length as int,
            content: self.content@,
        }
    }
}

/// The views of a list of replacements, in order.
pub open spec fn replacement_views(reps: Seq<Replacement>) -> Seq<ReplacementView> {
    reps.map_values(|r: Replacement| r@)
}

/// The replacement that stands for one patch. The patch's offset into the new
/// bytes plays no part.
pub open spec fn replacement_of(p: PatchView) -> ReplacementView {
    match p {
        PatchView::Add { old_index, new_value, .. } => ReplacementView {
            start: old_index,
            length: 0,
            content: new_value,
        },
        PatchView::Delete { old_index, old_value, .. } => ReplacementView {
            start: old_index,
            length: old_value.len() as int,
            content: seq![],
        },
        PatchView::Replace { old_index, old_value, new_value, .. } => ReplacementView {
            start: old_index,
            length: old_value.len() as int,
            content: new_value,
        },
    }
}

/// The replacements that stand for a patch list, in the list's order.
pub open spec fn replacements_of(patches: Seq<PatchView>) -> Seq<ReplacementView> {
    patches.map_values(|p: PatchView| replacement_of(p))
}

/// The offsets never go down from one replacement to the next.
pub open spec fn ordered_by_start(reps: Seq<ReplacementView>) -> bool {
    forall|i: int, j: int| 0 <= i <= j < reps.len() ==> reps[i].start <= reps[j].start
}

/// Where a replacement with offset `key` goes into `reps`: behind the last one
/// whose offset is not larger.
pub open spec fn slot_for(reps: Seq<ReplacementView>, key: int) -> int
    decreases reps.len(),
{
    if reps.len() == 0 {
        0
    } else if reps.last().start <= key {
        reps.len() as int
    } else {
        slot_for(reps.drop_last(), key)
    }
}

/// `reps` in the order of their offsets; those with the same offset keep the
/// order they came in.
pub open spec fn sort_by_start(reps: Seq<ReplacementView>) -> Seq<ReplacementView>
    decreases reps.len(),
{
    if reps.len() == 0 {
        seq![]
    } else {
        let sorted = sort_by_start(reps.drop_last());
        sorted.insert(slot_for(sorted, reps.last().start), reps.last())
    }
}

/// Each replacement starts at or behind the end of the one before it, the
/// first at or behind `pos`, and none reaches beyond `len`.
pub open spec fn replacements_fit(reps: Seq<ReplacementView>, pos: int, len: int) -> bool
    decreases reps.len(),
{
    if reps.len() == 0 {
        pos <= len
    } else {
        &&& pos <= reps[0].start
        &&& 0 <= reps[0].length
        &&& reps[0].start + reps[0].length <= len
        &&& replacements_fit(reps.drop_first(), reps[0].start + reps[0].length, len)
    }
}

/// What comes out when `base` is copied through from `pos` with `reps`
/// applied in their order: the bytes up to each replacement, its content in
/// place of the bytes it covers, and at last the rest.
pub open spec fn replay(base: Seq<u8>, reps: Seq<ReplacementView>, pos: int) -> Seq<u8>
    decreases reps.len(),
{
    if reps.len() == 0 {
        base.subrange(pos, base.len() as int)
    } else {
        base.subrange(pos, reps[0].start) + reps[0].content + replay(
            base,
            reps.drop_first(),
            reps[0].start + reps[0].length,
        )
    }
}

/// What replaying `patches` on `base` gives; nothing where the
/// replacements, put in order, overlap or reach beyond the base.
pub open spec fn patched(base: Seq<u8>, patches: Seq<PatchView>) -> Option<Seq<u8>> {
    let reps = sort_by_start(replacements_of(patches));
    if replacements_fit(reps, 0, base.len() as int) {
        Some(replay(base, reps, 0))
    } else {
        None
    }
}

proof fn lemma_slot_bounds(reps: Seq<ReplacementView>, key: int)
    ensures
        0 <= slot_for(reps, key) <= reps.len(),
        forall|i: int| slot_for(reps, key) <= i < reps.len() ==> reps[i].start > key,
        slot_for(reps, key) > 0 ==> reps[slot_for(reps, key) - 1].start <= key,
    decreases reps.len(),
{
    if reps.len() > 0 && reps.last().start > key {
        lemma_slot_bounds(reps.drop_last(), key);
        assert forall|i: int| slot_for(reps, key) <= i < reps.len() implies reps[i].start
            > key by {
            if i < reps.len() - 1 {
                assert(reps[i] == reps.drop_last()[i]);
            }
        }
    }
}

/// Sorting keeps the number of replacements.
pub proof fn lemma_sort_len(reps: Seq<ReplacementView>)
    ensures
        sort_by_start(reps).len() == reps.len(),
    decreases reps.len(),
{
    if reps.len() > 0 {
        lemma_sort_len(reps.drop_last());
        lemma_slot_bounds(sort_by_start(reps.drop_last()), reps.last().start);
    }
}

/// What comes out of the sort is in the order of the offsets.
pub proof fn lemma_sort_orders(reps: Seq<ReplacementView>)
    ensures
        ordered_by_start(sort_by_start(reps)),
    decreases reps.len(),
{
    if reps.len() > 0 {
        let sorted = sort_by_start(reps.drop_last());
        let x = reps.last();
        let k = slot_for(sorted, x.start);
        lemma_sort_orders(reps.drop_last());
        lemma_slot_bounds(sorted, x.start);
        let out = sorted.insert(k, x);
        assert forall|i: int, j: int| 0 <= i <= j < out.len() implies out[i].start
            <= out[j].start by {
            if i < k {
                assert(out[i] == sorted[i]);
                assert(sorted[i].start <= sorted[k - 1].start);
            } else if i > k {
                assert(out[i] == sorted[i - 1]);
            }
            if j < k {
                assert(out[j] == sorted[j]);
            } else if j > k {
                assert(out[j] == sorted[j - 1]);
            }
        }
    }
}

/// The sort neither drops nor adds a replacement.
pub proof fn lemma_sort_permutes(reps: Seq<ReplacementView>)
    ensures
        sort_by_start(reps).to_multiset() == reps.to_multiset(),
    decreases reps.len(),
{
    broadcast use vstd::seq_lib::to_multiset_insert, vstd::seq_lib::to_multiset_build;

    if reps.len() == 0 {
        assert(sort_by_start(reps) =~= reps);
    } else {
        let sorted = sort_by_start(reps.drop_last());
        let x = reps.last();
        lemma_sort_permutes(reps.drop_last());
        lemma_slot_bounds(sorted, x.start);
        assert(reps =~= reps.drop_last().push(x));
        assert(sorted.insert(slot_for(sorted, x.start), x).to_multiset()
            =~= sorted.to_multiset().insert(x));
        assert(reps.drop_last().push(x).to_multiset() =~= reps.drop_last().to_multiset().insert(
            x,
        ));
    }
}

/// Replacements that are in the order of their offsets are left as they are.
pub proof fn lemma_sort_keeps_ordered(reps: Seq<ReplacementView>)
    requires
        ordered_by_start(reps),
    ensures
        sort_by_start(reps) == reps,
    decreases reps.len(),
{
    if reps.len() == 0 {
        assert(sort_by_start(reps) =~= reps);
    } else {
        let front = reps.drop_last();
        assert forall|i: int, j: int| 0 <= i <= j < front.len() implies front[i].start
            <= front[j].start by {
            assert(front[i] == reps[i] && front[j] == reps[j]);
        }
        lemma_sort_keeps_ordered(front);
        if front.len() > 0 {
            assert(front.last() == reps[reps.len() - 2]);
            assert(front.last().start <= reps.last().start);
        }
        assert(slot_for(front, reps.last().start) == front.len());
        assert(front.insert(front.len() as int, reps.last()) =~= reps);
    }
}

/// The replacements of a script's patches lay end to end as the patches do.
proof fn lemma_replacements_of_concat(a: Seq<PatchView>, b: Seq<PatchView>)
    ensures
        replacements_of(a + b) == replacements_of(a) + replacements_of(b),
{
    assert(replacements_of(a + b) =~= replacements_of(a) + replacements_of(b));
}

/// The patches of an edit script, taken in the script's order, never step
/// back in the old bytes.
proof fn lemma_script_patches_ordered(
    ops: Seq<EditOp>,
    old: Seq<u8>,
    new: Seq<u8>,
    oi: int,
    ni: int,
)
    requires
        edit_script_from(ops, old, new, oi, ni),
        0 <= oi,
        0 <= ni,
    ensures
        ordered_by_start(replacements_of(patches_of(ops, old, new))),
        forall|i: int|
            0 <= i < replacements_of(patches_of(ops, old, new)).len() ==> oi <= (
            #[trigger] replacements_of(patches_of(ops, old, new))[i]).start,
    decreases ops.len(),
{
    let reps = replacements_of(patches_of(ops, old, new));
    if ops.len() > 0 {
        let head = patch_of(ops[0], old, new);
        let tail = patches_of(ops.drop_first(), old, new);
        lemma_script_patches_ordered(
            ops.drop_first(),
            old,
            new,
            oi + ops[0].old_span(),
            ni + ops[0].new_span(),
        );
        lemma_replacements_of_concat(head, tail);
        let rh = replacements_of(head);
        let rt = replacements_of(tail);
        assert(reps == rh + rt);
        assert(rh.len() <= 1);
        assert(rh.len() == 1 ==> rh[0].start == oi);
        assert forall|i: int| 0 <= i < reps.len() implies oi <= (#[trigger] reps[i]).start by {
            if i >= rh.len() {
                assert(reps[i] == rt[i - rh.len()]);
            }
        }
        assert forall|i: int, j: int| 0 <= i <= j < reps.len() implies reps[i].start
            <= reps[j].start by {
            if i >= rh.len() {
                assert(reps[i] == rt[i - rh.len()]);
                assert(reps[j] == rt[j - rh.len()]);
            } else if j >= rh.len() {
                assert(reps[j] == rt[j - rh.len()]);
            }
        }
    }
}

/// Replaying the patches of what is left of an edit script, with the copy
/// standing at `pos` in the old bytes and the stretch from there to the
/// script's place equal on both sides, gives what is left of the new bytes.
proof fn lemma_script_replays(
    ops: Seq<EditOp>,
    old: Seq<u8>,
    new: Seq<u8>,
    oi: int,
    ni: int,
    pos: int,
    npos: int,
)
    requires
        edit_script_from(ops, old, new, oi, ni),
        0 <= pos <= oi <= old.len(),
        0 <= npos <= ni <= new.len(),
        oi - pos == ni - npos,
        old.subrange(pos, oi) == new.subrange(npos, ni),
    ensures
        replacements_fit(replacements_of(patches_of(ops, old, new)), pos, old.len() as int),
        replay(old, replacements_of(patches_of(ops, old, new)), pos) == new.subrange(
            npos,
            new.len() as int,
        ),
    decreases ops.len(),
{
    let reps = replacements_of(patches_of(ops, old, new));
    if ops.len() == 0 {
        assert(reps =~= Seq::<ReplacementView>::empty());
    } else {
        let op = ops[0];
        let rest = ops.drop_first();
        let head = patch_of(op, old, new);
        let tail = patches_of(rest, old, new);
        let oe = oi + op.old_span();
        let ne = ni + op.new_span();
        lemma_replacements_of_concat(head, tail);
        let rt = replacements_of(tail);
        match op {
            EditOp::Equal { .. } => {
                assert(old.subrange(pos, oe) =~= old.subrange(pos, oi) + old.subrange(oi, oe));
                assert(new.subrange(npos, ne) =~= new.subrange(npos, ni) + new.subrange(ni, ne));
                lemma_script_replays(rest, old, new, oe, ne, pos, npos);
                assert(reps =~= rt);
            },
            _ => {
                assert(old.subrange(oe, oe) =~= new.subrange(ne, ne));
                lemma_script_replays(rest, old, new, oe, ne, oe, ne);
                let r = replacements_of(head)[0];
                assert(reps =~= seq![r] + rt);
                assert(reps[0] == r);
                assert(reps.drop_first() =~= rt);
                assert(r.start == oi && r.start + r.length == oe);
                assert(r.content == new.subrange(ni, ne));
                assert(new.subrange(npos, new.len() as int) =~= new.subrange(npos, ni)
                    + new.subrange(ni, ne) + new.subrange(ne, new.len() as int));
            },
        }
    }
}

/// Replaying the patches of an edit script from `old` to `new` on `old` gives
/// `new`.
pub proof fn lemma_edit_script_replays(ops: Seq<EditOp>, old: Seq<u8>, new: Seq<u8>)
    requires
        edit_script(ops, old, new),
    ensures
        patched(old, patches_of(ops, old, new)) == Some(new),
{
    let reps = replacements_of(patches_of(ops, old, new));
    lemma_script_patches_ordered(ops, old, new, 0, 0);
    lemma_sort_keeps_ordered(reps);
    assert(old.subrange(0, 0) =~= new.subrange(0, 0));
    lemma_script_replays(ops, old, new, 0, 0, 0, 0);
    assert(new.subrange(0, new.len() as int) =~= new);
}

/// Replaying a byte diff on the old bytes gives the new bytes, whatever script
/// the diff was built from.
pub proof fn lemma_diff_replays(script: Seq<EditOp>, old: Seq<u8>, new: Seq<u8>)
    ensures
        patched(old, diff_of_script(script, old, new)) == Some(new),
{
    if edit_script(script, old, new) {
        lemma_edit_script_replays(script, old, new);
    } else {
        let patches = whole_replacement(old, new);
        let reps = replacements_of(patches);
        let r = ReplacementView { start: 0, length: old.len() as int, content: new };
        assert(reps =~= seq![r]);
        assert(reps.drop_last() =~= Seq::<ReplacementView>::empty());
        assert(sort_by_start(Seq::<ReplacementView>::empty()) =~= Seq::<ReplacementView>::empty());
        assert(slot_for(Seq::<ReplacementView>::empty(), 0) == 0);
        assert(sort_by_start(reps) =~= seq![r]);
        let sorted = sort_by_start(reps);
        assert(sorted.drop_first() =~= Seq::<ReplacementView>::empty());
        assert(replacements_fit(sorted.drop_first(), old.len() as int, old.len() as int));
        assert(replacements_fit(sorted, 0, old.len() as int));
        assert(replay(old, sorted.drop_first(), old.len() as int) =~= Seq::<u8>::empty());
        assert(replay(old, sorted, 0) =~= new);
    }
}

/// The replacements that stand for `patches`, in the same order.
pub fn replacements_from(patches: &Vec<BytesPatch>) -> (reps: Vec<Replacement>)
    ensures
        replacement_views(reps@) == replacements_of(patch_views(patches@)),
{
    let mut reps: Vec<Replacement> = Vec::new();
    let mut i: usize = 0;
    while i < patches.len()
        invariant
            i <= patches.len(),
            reps.len() == i,
            forall|k: int| 0 <= k < i ==> (#[trigger] reps@[k])@ == replacement_of(patches@[k]@),
        decreases patches.len() - i,
    {
        let rep = match &patches[i] {
            BytesPatch::Add { old_index, new_value, .. } => Replacement {
                start: *old_index,
                length: 0,
                content: slice_to_vec(new_value.as_slice()),
            },
            BytesPatch::Delete { old_index, old_value, .. } => Replacement {
                start: *old_index,
                length: old_value.len(),
                content: Vec::new(),
            },
            BytesPatch::Replace { old_index, old_value, new_value, .. } => Replacement {
                start: *old_index,
                length: old_value.len(),
                content: slice_to_vec(new_value.as_slice()),
            },
        };
        assert(rep@ =~= replacement_of(patches@[i as int]@));
        reps.push(rep);
        i = i + 1;
    }
    assert(replacement_views(reps@) =~= replacements_of(patch_views(patches@)));
    reps
}

/// Puts `reps` in the order of their offsets. Those with the same offset keep
/// the order they came in.
pub fn sort_replacements(reps: Vec<Replacement>) -> (sorted: Vec<Replacement>)
    ensures
        replacement_views(sorted@) == sort_by_start(replacement_views(reps@)),
{
    let ghost all = replacement_views(reps@);
    let mut input = reps;
    let mut sorted: Vec<Replacement> = Vec::new();
    let ghost mut done: int = 0;
    assert(all.subrange(0, 0) =~= Seq::<ReplacementView>::empty());
    assert(all.subrange(0, all.len() as int) =~= all);
    while input.len() > 0
        invariant
            0 <= done <= all.len(),
            replacement_views(input@) =~= all.subrange(done, all.len() as int),
            replacement_views(sorted@) =~= sort_by_start(all.subrange(0, done)),
        decreases input.len(),
    {
        let ghost before = replacement_views(sorted@);
        let ghost rest = replacement_views(input@);
        let ghost taken = input@;
        let rep = input.remove(0);
        assert(rest =~= all.subrange(done, all.len() as int));
        assert(rest.len() == taken.len());
        assert(done < all.len());
        assert(rep@ == rest[0]);
        assert(rest[0] == all[done]);
        assert(input@ =~= taken.remove(0));
        assert(replacement_views(input@) =~= rest.remove(0));
        assert(rest.remove(0) =~= all.subrange(done + 1, all.len() as int));
        let mut slot: usize = sorted.len();
        assert(before.subrange(0, slot as int) =~= before);
        while slot > 0 && sorted[slot - 1].start > rep.start
            invariant
                slot <= sorted.len(),
                before == replacement_views(sorted@),
                slot_for(before, rep.start as int) == slot_for(
                    before.subrange(0, slot as int),
                    rep.start as int,
                ),
            decreases slot,
        {
            assert(before.subrange(0, slot as int).drop_last() =~= before.subrange(
                0,
                slot - 1,
            ));
            assert(before.subrange(0, slot as int).last() == sorted@[slot - 1]@);
            slot = slot - 1;
        }
        proof {
            if slot > 0 {
                assert(before.subrange(0, slot as int).last() == sorted@[slot - 1]@);
            }
            assert(slot_for(before, rep.start as int) == slot);
        }
        sorted.insert(slot, rep);
        proof {
            assert(replacement_views(sorted@) =~= before.insert(slot as int, rep@));
            assert(replacement_views(input@) =~= all.subrange(done + 1, all.len() as int));
            assert(all.subrange(0, done + 1).drop_last() =~= all.subrange(0, done));
            assert(all.subrange(0, done + 1).last() == all[done]);
            done = done + 1;
        }
    }
    sorted
}

/// Copies `base` through with `reps` applied in the order given. Nothing
/// is returned where a replacement starts before the end of the one before it
/// or reaches beyond the base.
pub fn apply_replacements(base: &[u8], reps: &Vec<Replacement>) -> (out: Option<Vec<u8>>)
    ensures
        out is Some == replacements_fit(replacement_views(reps@), 0, base.len() as int),
        out matches Some(bytes) ==> bytes@ == replay(base@, replacement_views(reps@), 0),
{
    let ghost all = replacement_views(reps@);
    let mut out: Vec<u8> = Vec::new();
    let mut pos: usize = 0;
    let mut i: usize = 0;
    assert(all.subrange(0, all.len() as int) =~= all);
    assert(out@ + replay(base@, all, 0) =~= replay(base@, all, 0));
    while i < reps.len()
        invariant
            i <= reps.len(),
            pos <= base.len(),
            all == replacement_views(reps@),
            replacements_fit(all, 0, base.len() as int) == replacements_fit(
                all.subrange(i as int, all.len() as int),
                pos as int,
                base.len() as int,
            ),
            replay(base@, all, 0) == out@ + replay(
                base@,
                all.subrange(i as int, all.len() as int),
                pos as int,
            ),
        decreases reps.len() - i,
    {
        let ghost rest = all.subrange(i as int, all.len() as int);
        let ghost copied = out@;
        assert(rest[0] == reps@[i as int]@);
        assert(rest.drop_first() =~= all.subrange(i + 1, all.len() as int));
        let rep = &reps[i];
        if rep.start < pos || rep.start > base.len() || rep.length > base.len()
            - rep.start {
            return None;
        }
        let ghost from = pos as int;
        let mut upto = slice_to_vec(slice_subrange(base, pos, rep.start));
        out.append(&mut upto);
        let mut content = slice_to_vec(rep.content.as_slice());
        out.append(&mut content);
        pos = rep.start + rep.length;
        assert(out@ =~= copied + (base@.subrange(from, rep.start as int) + rep.content@));
        assert(out@ + replay(base@, rest.drop_first(), pos as int) =~= copied + replay(
            base@,
            rest,
            from,
        ));
        i = i + 1;
    }
    assert(all.subrange(i as int, all.len() as int) =~= Seq::<ReplacementView>::empty());
    let mut tail = slice_to_vec(slice_subrange(base, pos, base.len()));
    out.append(&mut tail);
    Some(out)
}

/// Replays `patches` on `base`: the patches are turned into
/// replacements, these are put in order, and the base is copied through.
pub fn apply_patches(base: &[u8], patches: &Vec<BytesPatch>) -> (out: Option<Vec<u8>>)
    ensures
        out is Some == patched(base@, patch_views(patches@)) is Some,
        out matches Some(bytes) ==> Some(bytes@) == patched(base@, patch_views(patches@)),
{
    let reps = sort_replacements(replacements_from(patches));
    apply_replacements(base, &reps)
}

} // verus!
