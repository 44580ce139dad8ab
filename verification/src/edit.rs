//! Edit scripts between two byte strings.
//!
//! An edit script walks the old and the new bytes from left to right in
//! segments. The script itself is computed by the `similar` crate; this module
//! says what a script is and checks one before anything is built on it.

use vstd::prelude::*;

verus! {

/// One segment of an edit script.
#[derive(Clone, Copy, Debug, PartialEq, Eq)]
pub enum EditOp {
    /// `len` bytes are the same on both sides.
    Equal { old_index: usize, new_index: usize, len: usize },
    /// `old_len` bytes of the old side have no counterpart.
    Delete { old_index: usize, old_len: usize, new_index: usize },
    /// `new_len` bytes of the new side have no counterpart.
    Insert { old_index: usize, new_index: usize, new_len: usize },
    /// `old_len` bytes of the old side give way to `new_len` bytes of the new.
    Replace { old_index: usize, old_len: usize, new_index: usize, new_len: usize },
}

impl EditOp {
    /// Where the segment starts on the old side.
    pub open spec fn old_start(self) -> int {
        match self {
            EditOp::Equal { old_index, .. } => old_index as int,
            EditOp::Delete { old_index, .. } => old_index as int,
            EditOp::Insert { old_index, .. } => old_index as int,
            EditOp::Replace { old_index, .. } => old_index as int,
        }
    }

    /// Where the segment starts on the new side.
    pub open spec fn new_start(self) -> int {
        match self {
            EditOp::Equal { new_index, .. } => new_index as int,
            EditOp::Delete { new_index, .. } => new_index as int,
            EditOp::Insert { new_index, .. } => new_index as int,
            EditOp::Replace { new_index, .. } => new_index as int,
        }
    }

    /// How many old bytes the segment covers.
    pub open spec fn old_span(self) -> int {
        match self {
            EditOp::Equal { len, .. } => len as int,
            EditOp::Delete { old_len, .. } => old_len as int,
            EditOp::Insert { .. } => 0,
            EditOp::Replace { old_len, .. } => old_len as int,
        }
    }

    /// How many new bytes the segment covers.
    pub open spec fn new_span(self) -> int {
        match self {
            EditOp::Equal { len, .. } => len as int,
            EditOp::Delete { .. } => 0,
            EditOp::Insert { new_len, .. } => new_len as int,
            EditOp::Replace { new_len, .. } => new_len as int,
        }
    }

    /// The segment starts at `(oi, ni)`, stays inside both byte strings, and
    /// where it claims equality the bytes are equal.
    pub open spec fn fits_at(self, old: Seq<u8>, new: Seq<u8>, oi: int, ni: int) -> bool {
        &&& self.old_start() == oi
        &&& self.new_start() == ni
        &&& oi + self.old_span() <= old.len()
        &&& ni + self.new_span() <= new.len()
        &&& (self is Equal ==> old.subrange(oi, oi + self.old_span()) == new.subrange(
            ni,
            ni + self.new_span(),
        ))
    }
}

/// `ops` is an edit script for what is left of `old` from `oi` and of `new`
/// from `ni`: its segments follow one another without gap or overlap and end
/// exactly at the end of both.
pub open spec fn edit_script_from(
    ops: Seq<EditOp>,
    old: Seq<u8>,
    new: Seq<u8>,
    oi: int,
    ni: int,
) -> bool
    decreases ops.len(),
{
    if ops.len() == 0 {
        oi == old.len() && ni == new.len()
    } else {
        &&& ops[0].fits_at(old, new, oi, ni)
        &&& edit_script_from(
            ops.drop_first(),
            old,
            new,
            oi + ops[0].old_span(),
            ni + ops[0].new_span(),
        )
    }
}

/// `ops` is an edit script that turns `old` into `new`.
pub open spec fn edit_script(ops: Seq<EditOp>, old: Seq<u8>, new: Seq<u8>) -> bool {
    edit_script_from(ops, old, new, 0, 0)
}

/// What `similar::capture_diff_slices` returns for the Myers algorithm on two
/// byte strings.
pub uninterp spec fn myers_script(old: Seq<u8>, new: Seq<u8>) -> Seq<EditOp>;

/// `similar::capture_diff_slices` with `Algorithm::Myers`. The result depends on
/// the two byte strings alone; nothing more is claimed of it here.
#[verifier::external_body]
pub(crate) fn myers_ops(old: &[u8], new: &[u8]) -> (ops: Vec<EditOp>)
    ensures
        ops@ == myers_script(old@, new@),
{
    let ops = similar::capture_diff_slices(similar::Algorithm::Myers, old, new);
    ops.into_iter().map(|op| match op {
        similar::DiffOp::Equal { old_index, new_index, len } => EditOp::Equal { old_index, new_index, len },
        similar::DiffOp::Delete { old_index, old_len, new_index } => EditOp::Delete { old_index, old_len, new_index },
        similar::DiffOp::Insert { old_index, new_index, new_len } => EditOp::Insert { old_index, new_index, new_len },
        similar::DiffOp::Replace { old_index, old_len, new_index, new_len } => EditOp::Replace { old_index, old_len, new_index, new_len },
    }).collect()
}

/// Whether `old[oi..oi + len]` and `new[ni..ni + len]` hold the same bytes.
fn same_bytes(old: &[u8], new: &[u8], oi: usize, ni: usize, len: usize) -> (same: bool)
    requires
        oi + len <= old.len(),
        ni + len <= new.len(),
    ensures
        same == (old@.subrange(oi as int, oi + len) == new@.subrange(ni as int, ni + len)),
{
    let mut k: usize = 0;
    while k < len
        invariant
            k <= len,
            oi + len <= old.len(),
            ni + len <= new.len(),
            old@.subrange(oi as int, oi + k) == new@.subrange(ni as int, ni + k),
        decreases len - k,
    {
        if old[oi + k] != new[ni + k] {
            proof {
                let a = old@.subrange(oi as int, oi + len);
                let b = new@.subrange(ni as int, ni + len);
                assert(a[k as int] != b[k as int]);
            }
            return false;
        }
        proof {
            let a = old@.subrange(oi as int, oi + k);
            let b = new@.subrange(ni as int, ni + k);
            assert(old@.subrange(oi as int, oi + k + 1) =~= a.push(old@[oi + k]));
            assert(new@.subrange(ni as int, ni + k + 1) =~= b.push(new@[ni + k]));
        }
        k = k + 1;
    }
    true
}

/// Whether `ops` is an edit script that turns `old` into `new`.
pub fn is_edit_script(ops: &Vec<EditOp>, old: &[u8], new: &[u8]) -> (ok: bool)
    ensures
        ok == edit_script(ops@, old@, new@),
{
    let mut oi: usize = 0;
    let mut ni: usize = 0;
    let mut i: usize = 0;
    assert(ops@.subrange(0, ops.len() as int) =~= ops@);
    while i < ops.len()
        invariant
            i <= ops.len(),
            oi <= old.len(),
            ni <= new.len(),
            edit_script(ops@, old@, new@) == edit_script_from(
                ops@.subrange(i as int, ops.len() as int),
                old@,
                new@,
                oi as int,
                ni as int,
            ),
        decreases ops.len() - i,
    {
        let ghost rest = ops@.subrange(i as int, ops.len() as int);
        assert(rest[0] == ops@[i as int]);
        assert(rest.drop_first() =~= ops@.subrange(i + 1, ops.len() as int));
        let (o_start, o_span, n_start, n_span, equal) = match ops[i] {
            EditOp::Equal { old_index, new_index, len } => (old_index, len, new_index, len, true),
            EditOp::Delete { old_index, old_len, new_index } => (
                old_index,
                old_len,
                new_index,
                0,
                false,
            ),
            EditOp::Insert { old_index, new_index, new_len } => (
                old_index,
                0,
                new_index,
                new_len,
                false,
            ),
            EditOp::Replace { old_index, old_len, new_index, new_len } => (
                old_index,
                old_len,
                new_index,
                new_len,
                false,
            ),
        };
        if o_start != oi || n_start != ni || o_span > old.len() - oi || n_span > new.len() - ni {
            return false;
        }
        if equal && !same_bytes(old, new, oi, ni, o_span) {
            return false;
        }
        oi = oi + o_span;
        ni = ni + n_span;
        i = i + 1;
    }
    assert(ops@.subrange(i as int, ops.len() as int) =~= Seq::<EditOp>::empty());
    oi == old.len() && ni == new.len()
}

} // verus!
