//! The patch list of an archive as bytes: serialized records laid end to end,
//! each behind its length.
//!
//! A length is written as eight bytes, the least significant first.

use vstd::bytes::{
    spec_u64_from_le_bytes, spec_u64_to_le_bytes, u64_from_le_bytes, u64_to_le_bytes,
};
use vstd::prelude::*;
use vstd::slice::{slice_subrange, slice_to_vec};

verus! {

/// The views of a list of byte strings, in order.
pub open spec fn byte_views(records: Seq<Vec<u8>>) -> Seq<Seq<u8>> {
    records.map_values(|r: Vec<u8>| r@)
}

/// The records laid end to end, each behind its length.
pub open spec fn framed(records: Seq<Seq<u8>>) -> Seq<u8>
    decreases records.len(),
{
    if records.len() == 0 {
        seq![]
    } else {
        framed(records.drop_last()) + spec_u64_to_le_bytes(records.last().len() as u64)
            + records.last()
    }
}

/// The records that `bytes` holds, each behind its length; nothing where the
/// bytes end inside a length or inside a record.
pub open spec fn unframed(bytes: Seq<u8>) -> Option<Seq<Seq<u8>>>
    decreases bytes.len(),
{
    if bytes.len() == 0 {
        Some(seq![])
    } else if bytes.len() < 8 {
        None
    } else {
        let n = spec_u64_from_le_bytes(bytes.subrange(0, 8)) as int;
        if bytes.len() - 8 < n {
            None
        } else {
            match unframed(bytes.subrange(8 + n, bytes.len() as int)) {
                Some(rest) => Some(seq![bytes.subrange(8, 8 + n)] + rest),
                None => None,
            }
        }
    }
}

/// `records` in front of what the rest of the bytes holds.
pub open spec fn frames_then(records: Seq<Seq<u8>>, rest: Option<Seq<Seq<u8>>>) -> Option<
    Seq<Seq<u8>>,
> {
    match rest {
        Some(more) => Some(records + more),
        None => None,
    }
}

/// What is read from two stretches of bytes laid end to end, where the first
/// holds whole records, is what is read from the first and then from the
/// second.
pub proof fn lemma_unframed_concat(a: Seq<u8>, b: Seq<u8>)
    requires
        unframed(a) is Some,
    ensures
        unframed(a + b) == frames_then(unframed(a)->0, unframed(b)),
    decreases a.len(),
{
    if a.len() == 0 {
        assert(a + b =~= b);
        match unframed(b) {
            Some(more) => {
                assert(Seq::<Seq<u8>>::empty() + more =~= more);
            },
            None => {},
        }
    } else {
        let n = spec_u64_from_le_bytes(a.subrange(0, 8)) as int;
        let all = a + b;
        assert(all.subrange(0, 8) =~= a.subrange(0, 8));
        assert(all.subrange(8, 8 + n) =~= a.subrange(8, 8 + n));
        let a_rest = a.subrange(8 + n, a.len() as int);
        assert(all.subrange(8 + n, all.len() as int) =~= a_rest + b);
        lemma_unframed_concat(a_rest, b);
        let first = seq![a.subrange(8, 8 + n)];
        match unframed(b) {
            Some(more) => {
                assert(first + (unframed(a_rest)->0 + more) =~= (first + unframed(a_rest)->0)
                    + more);
            },
            None => {},
        }
    }
}

/// Records that are framed and read back are the same records, provided the
/// length of each can be written in eight bytes.
pub proof fn lemma_frame_round_trip(records: Seq<Seq<u8>>)
    requires
        forall|i: int| 0 <= i < records.len() ==> (#[trigger] records[i]).len() <= u64::MAX,
    ensures
        unframed(framed(records)) == Some(records),
    decreases records.len(),
{
    if records.len() > 0 {
        let front = records.drop_last();
        let last = records.last();
        assert forall|i: int| 0 <= i < front.len() implies (#[trigger] front[i]).len()
            <= u64::MAX by {
            assert(front[i] == records[i]);
        }
        lemma_frame_round_trip(front);
        vstd::bytes::lemma_auto_spec_u64_to_from_le_bytes();
        let head = spec_u64_to_le_bytes(last.len() as u64);
        let one = head + last;
        assert(one.subrange(0, 8) =~= head);
        assert(one.subrange(8, 8 + last.len() as int) =~= last);
        assert(one.subrange(8 + last.len() as int, one.len() as int) =~= Seq::<u8>::empty());
        assert(head.len() == 8);
        assert(spec_u64_from_le_bytes(head) == last.len() as u64);
        assert(unframed(Seq::<u8>::empty()) == Some(Seq::<Seq<u8>>::empty()));
        assert(unframed(one) == Some(seq![last])) by {
            assert(seq![last] + Seq::<Seq<u8>>::empty() =~= seq![last]);
            assert(one.len() == 8 + last.len());
            assert(spec_u64_from_le_bytes(one.subrange(0, 8)) as int == last.len());
        }
        assert(framed(records) =~= framed(front) + one);
        lemma_unframed_concat(framed(front), one);
        assert(front + seq![last] =~= records);
    }
}

/// Lays the records end to end, each behind its length.
pub fn frame_records(records: &Vec<Vec<u8>>) -> (bytes: Vec<u8>)
    ensures
        bytes@ == framed(byte_views(records@)),
{
    let ghost all = byte_views(records@);
    let mut bytes: Vec<u8> = Vec::new();
    let mut i: usize = 0;
    assert(all.subrange(0, 0) =~= Seq::<Seq<u8>>::empty());
    while i < records.len()
        invariant
            i <= records.len(),
            all == byte_views(records@),
            bytes@ == framed(all.subrange(0, i as int)),
        decreases records.len() - i,
    {
        let ghost before = bytes@;
        proof {
            assert(all.subrange(0, i + 1).drop_last() =~= all.subrange(0, i as int));
            assert(all.subrange(0, i + 1).last() == records@[i as int]@);
        }
        let mut head = u64_to_le_bytes(records[i].len() as u64);
        bytes.append(&mut head);
        let mut body = slice_to_vec(records[i].as_slice());
        bytes.append(&mut body);
        assert(bytes@ =~= before + spec_u64_to_le_bytes(records@[i as int]@.len() as u64)
            + records@[i as int]@);
        i = i + 1;
    }
    assert(all.subrange(0, records.len() as int) =~= all);
    bytes
}

/// Reads the records that `bytes` holds, each behind its length. Nothing is
/// returned where the bytes end inside a length or inside a record.
pub fn unframe_records(bytes: &[u8]) -> (records: Option<Vec<Vec<u8>>>)
    ensures
        match records {
            Some(rs) => unframed(bytes@) == Some(byte_views(rs@)),
            None => unframed(bytes@) is None,
        },
{
    let mut records: Vec<Vec<u8>> = Vec::new();
    let mut pos: usize = 0;
    let len = bytes.len();
    proof {
        assert(bytes@.subrange(0, len as int) =~= bytes@);
        match unframed(bytes@) {
            Some(more) => {
                assert(byte_views(records@) + more =~= more);
            },
            None => {},
        }
    }
    while pos < len
        invariant
            pos <= len,
            len == bytes.len(),
            unframed(bytes@) == frames_then(
                byte_views(records@),
                unframed(bytes@.subrange(pos as int, len as int)),
            ),
        decreases len - pos,
    {
        let ghost tail = bytes@.subrange(pos as int, len as int);
        let ghost so_far = byte_views(records@);
        if len - pos < 8 {
            return None;
        }
        let head = slice_subrange(bytes, pos, pos + 8);
        assert(head@ =~= tail.subrange(0, 8));
        let n = u64_from_le_bytes(head);
        if n > (len - pos - 8) as u64 {
            return None;
        }
        let size = n as usize;
        let record = slice_to_vec(slice_subrange(bytes, pos + 8, pos + 8 + size));
        proof {
            assert(record@ =~= tail.subrange(8, 8 + n));
            let rest = bytes@.subrange(pos + 8 + size, len as int);
            assert(tail.subrange(8 + n, tail.len() as int) =~= rest);
            match unframed(rest) {
                Some(more) => {
                    assert(so_far + (seq![record@] + more) =~= (so_far + seq![record@]) + more);
                },
                None => {},
            }
        }
        records.push(record);
        assert(byte_views(records@) =~= so_far + seq![record@]);
        pos = pos + 8 + size;
    }
    proof {
        assert(bytes@.subrange(pos as int, len as int) =~= Seq::<u8>::empty());
        assert(byte_views(records@) + Seq::<Seq<u8>>::empty() =~= byte_views(records@));
    }
    Some(records)
}

} // verus!
