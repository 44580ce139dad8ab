//! Byte patches: what changed between two byte strings, and how to replay it.
//!
//! A patch list is derived from an edit script by dropping the equal segments.
//! To replay it, each patch becomes a replacement of a stretch of the base;
//! the replacements are ordered by where they start and the base is copied
//! through, replacement by replacement.

use crate::edit::{edit_script, edit_script_from, is_edit_script, myers_ops, myers_script, EditOp};
use vstd::prelude::*;
use vstd::slice::{slice_subrange, slice_to_vec};

verus! {

/// One change between an old and a new byte string. The indices are byte
/// offsets into the old and the new bytes.
#[derive(Debug, PartialEq, Eq)]
pub enum BytesPatch {
    Add { old_index: usize, new_index: usize, new_value: Vec<u8> },
    Delete { old_index: usize, new_index: usize, old_value: Vec<u8> },
    Replace { old_index: usize, new_index: usize, old_value: Vec<u8>, new_value: Vec<u8> },
}

/// A `BytesPatch` as a mathematical value.
#[verifier::ext_equal]
pub ghost enum PatchView {
    Add { old_index: int, new_index: int, new_value: Seq<u8> },
    Delete { old_index: int, new_index: int, old_value: Seq<u8> },
    Replace { old_index: int, new_index: int, old_value: Seq<u8>, new_value: Seq<u8> },
}

impl View for BytesPatch {
    type V = PatchView;

    open spec fn view(&self) -> PatchView {
        match *self {
            BytesPatch::Add { old_index, new_index, new_value } => PatchView::Add {
                old_index: old_index as int,
                new_index: new_index as int,
                new_value: new_value@,
            },
            BytesPatch::Delete { old_index, new_index, old_value } => PatchView::Delete {
                old_index: old_index as int,
                new_index: new_index as int,
                old_value: old_value@,
            },
            BytesPatch::Replace { old_index, new_index, old_value, new_value } => PatchView::Replace {
                old_index: old_index as int,
                new_index: new_index as int,
                old_value: old_value@,
                new_value: new_value@,
            },
        }
    }
}

/// The views of a list of patches, in order.
pub open spec fn patch_views(patches: Seq<BytesPatch>) -> Seq<PatchView> {
    patches.map_values(|p: BytesPatch| p@)
}

/// The patches that one segment of an edit script gives: none for an equal
/// segment, else the one patch that carries the bytes concerned.
pub open spec fn patch_of(op: EditOp, old: Seq<u8>, new: Seq<u8>) -> Seq<PatchView> {
    match op {
        EditOp::Equal { .. } => seq![],
        EditOp::Delete { old_index, old_len, new_index } => seq![
            PatchView::Delete {
                old_index: old_index as int,
                new_index: new_index as int,
                old_value: old.subrange(old_index as int, old_index + old_len),
            },
        ],
        EditOp::Insert { old_index, new_index, new_len } => seq![
            PatchView::Add {
                old_index: old_index as int,
                new_index: new_index as int,
                new_value: new.subrange(new_index as int, new_index + new_len),
            },
        ],
        EditOp::Replace { old_index, old_len, new_index, new_len } => seq![
            PatchView::Replace {
                old_index: old_index as int,
                new_index: new_index as int,
                old_value: old.subrange(old_index as int, old_index + old_len),
                new_value: new.subrange(new_index as int, new_index + new_len),
            },
        ],
    }
}

/// The patches of a whole edit script, in the script's order.
pub open spec fn patches_of(ops: Seq<EditOp>, old: Seq<u8>, new: Seq<u8>) -> Seq<PatchView>
    decreases ops.len(),
{
    if ops.len() == 0 {
        seq![]
    } else {
        patch_of(ops[0], old, new) + patches_of(ops.drop_first(), old, new)
    }
}

/// Every segment of `ops` lies inside the byte string it speaks of.
pub open spec fn ops_in_bounds(ops: Seq<EditOp>, old_len: int, new_len: int) -> bool {
    forall|i: int|
        0 <= i < ops.len() ==> (#[trigger] ops[i]).old_start() + ops[i].old_span() <= old_len
            && ops[i].new_start() + ops[i].new_span() <= new_len
}

/// The single patch that replaces all of `old` by all of `new`.
pub open spec fn whole_replacement(old: Seq<u8>, new: Seq<u8>) -> Seq<PatchView> {
    seq![PatchView::Replace { old_index: 0, new_index: 0, old_value: old, new_value: new }]
}

/// The patch list for a script that came from outside: the script's own
/// patches where it is an edit script from `old` to `new`, and else the one
/// patch that replaces everything.
pub open spec fn diff_of_script(script: Seq<EditOp>, old: Seq<u8>, new: Seq<u8>) -> Seq<
    PatchView,
> {
    if edit_script(script, old, new) {
        patches_of(script, old, new)
    } else {
        whole_replacement(old, new)
    }
}

/// The patches of a script lay end to end when the script is cut in two.
pub proof fn lemma_patches_of_concat(a: Seq<EditOp>, b: Seq<EditOp>, old: Seq<u8>, new: Seq<u8>)
    ensures
        patches_of(a + b, old, new) == patches_of(a, old, new) + patches_of(b, old, new),
    decreases a.len(),
{
    if a.len() == 0 {
        assert(a + b =~= b);
        assert(patches_of(a, old, new) + patches_of(b, old, new) =~= patches_of(b, old, new));
    } else {
        assert((a + b).drop_first() =~= a.drop_first() + b);
        assert((a + b)[0] == a[0]);
        lemma_patches_of_concat(a.drop_first(), b, old, new);
        assert(patch_of(a[0], old, new) + (patches_of(a.drop_first(), old, new) + patches_of(
            b,
            old,
            new,
        )) =~= (patch_of(a[0], old, new) + patches_of(a.drop_first(), old, new)) + patches_of(
            b,
            old,
            new,
        ));
    }
}

/// In an edit script every segment lies inside the byte string it speaks of.
pub proof fn lemma_edit_script_in_bounds(
    ops: Seq<EditOp>,
    old: Seq<u8>,
    new: Seq<u8>,
    oi: int,
    ni: int,
)
    requires
        edit_script_from(ops, old, new, oi, ni),
        0 <= oi,
        0 <= ni,
    ensures
        ops_in_bounds(ops, old.len() as int, new.len() as int),
    decreases ops.len(),
{
    if ops.len() > 0 {
        lemma_edit_script_in_bounds(
            ops.drop_first(),
            old,
            new,
            oi + ops[0].old_span(),
            ni + ops[0].new_span(),
        );
        assert forall|i: int| 0 <= i < ops.len() implies (#[trigger] ops[i]).old_start()
            + ops[i].old_span() <= old.len() && ops[i].new_start() + ops[i].new_span()
            <= new.len() by {
            if i > 0 {
                assert(ops[i] == ops.drop_first()[i - 1]);
            }
        }
    }
}

/// Turns an edit script into its patch list, copying the bytes concerned out
/// of `old` and `new`.
pub fn patches_from_ops(ops: &Vec<EditOp>, old: &[u8], new: &[u8]) -> (patches: Vec<BytesPatch>)
    requires
        ops_in_bounds(ops@, old.len() as int, new.len() as int),
    ensures
        patch_views(patches@) == patches_of(ops@, old@, new@),
{
    let mut patches: Vec<BytesPatch> = Vec::new();
    let mut i: usize = 0;
    assert(ops@.subrange(0, 0) =~= Seq::<EditOp>::empty());
    while i < ops.len()
        invariant
            i <= ops.len(),
            ops_in_bounds(ops@, old.len() as int, new.len() as int),
            patch_views(patches@) =~= patches_of(ops@.subrange(0, i as int), old@, new@),
        decreases ops.len() - i,
    {
        let ghost before = patch_views(patches@);
        let op = ops[i];
        assert(op == ops@[i as int]);
        match op {
            EditOp::Equal { .. } => {},
            EditOp::Delete { old_index, old_len, new_index } => {
                let old_value = slice_to_vec(slice_subrange(old, old_index, old_index + old_len));
                patches.push(BytesPatch::Delete { old_index, new_index, old_value });
            },
            EditOp::Insert { old_index, new_index, new_len } => {
                let new_value = slice_to_vec(slice_subrange(new, new_index, new_index + new_len));
                patches.push(BytesPatch::Add { old_index, new_index, new_value });
            },
            EditOp::Replace { old_index, old_len, new_index, new_len } => {
                let old_value = slice_to_vec(slice_subrange(old, old_index, old_index + old_len));
                let new_value = slice_to_vec(slice_subrange(new, new_index, new_index + new_len));
                patches.push(BytesPatch::Replace { old_index, new_index, old_value, new_value });
            },
        }
        proof {
            let prefix = ops@.subrange(0, i as int);
            assert(ops@.subrange(0, i + 1) =~= prefix + seq![op]);
            lemma_patches_of_concat(prefix, seq![op], old@, new@);
            assert(seq![op].drop_first() =~= Seq::<EditOp>::empty());
            assert(patches_of(Seq::<EditOp>::empty(), old@, new@) =~= Seq::<PatchView>::empty());
            assert(patches_of(seq![op], old@, new@) =~= patch_of(op, old@, new@));
            assert(patch_views(patches@) =~= before + patch_of(op, old@, new@));
        }
        i = i + 1;
    }
    assert(ops@.subrange(0, ops.len() as int) =~= ops@);
    patches
}

/// The changes that turn `old` into `new`, found with the Myers algorithm.
///
/// The script that comes back from outside is checked. Where it is an edit
/// script from `old` to `new` its patches are returned; where it is not, the
/// result is the one patch that replaces all of `old` by all of `new`. Either
/// way replaying the result on `old` gives `new`.
pub fn calculate_binary_diff(old: Vec<u8>, new: Vec<u8>) -> (patches: Vec<BytesPatch>)
    ensures
        patch_views(patches@) == diff_of_script(myers_script(old@, new@), old@, new@),
        crate::replay::patched(old@, patch_views(patches@)) == Some(new@),
{
    proof {
        crate::replay::lemma_diff_replays(myers_script(old@, new@), old@, new@);
    }
    let ops = myers_ops(old.as_slice(), new.as_slice());
    if is_edit_script(&ops, old.as_slice(), new.as_slice()) {
        proof {
            lemma_edit_script_in_bounds(ops@, old@, new@, 0, 0);
        }
        patches_from_ops(&ops, old.as_slice(), new.as_slice())
    } else {
        let mut patches: Vec<BytesPatch> = Vec::new();
        patches.push(BytesPatch::Replace { old_index: 0, new_index: 0, old_value: old, new_value: new });
        assert(patch_views(patches@) =~= whole_replacement(old@, new@));
        patches
    }
}

} // verus!
