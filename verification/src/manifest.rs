//! A manifest that is written is read back as the same records.

use crate::common::{
    kind_word, kind_word_bytes, lemma_encode_concat, lemma_line_bytes, lemma_line_round_trip,
    line_text, parse_line, trailer_bytes, trimmed_end, utf8_len, DeserializeError, RecordView,
};
use crate::hash::manifest_bytes;
use crate::store::{first_line_feed, lemma_first_line_feed_is, manifest_records, FileParseError};
use vstd::prelude::*;
use vstd::utf8::{decode_utf8, encode_utf8};

verus! {

/// The record can stand in a manifest: the lengths of its name and of its hash
/// can be written in two hex digits each, and neither holds a line feed.
pub open spec fn fits_a_line(r: RecordView) -> bool {
    &&& utf8_len(r.name) < 256
    &&& utf8_len(r.hash) < 256
    &&& no_line_feed(encode_utf8(r.name))
    &&& no_line_feed(encode_utf8(r.hash))
}

/// The bytes hold no line feed.
pub open spec fn no_line_feed(bytes: Seq<u8>) -> bool {
    forall|i: int| 0 <= i < bytes.len() ==> bytes[i] != 10u8
}

proof fn lemma_no_line_feed_concat(a: Seq<u8>, b: Seq<u8>)
    requires
        no_line_feed(a),
        no_line_feed(b),
    ensures
        no_line_feed(a + b),
{
    assert forall|i: int| 0 <= i < (a + b).len() implies (a + b)[i] != 10u8 by {
        if i < a.len() {
            assert((a + b)[i] == a[i]);
        } else {
            assert((a + b)[i] == b[i - a.len()]);
        }
    }
}

proof fn lemma_line_front_has_no_line_feed(r: RecordView)
    requires
        fits_a_line(r),
    ensures
        no_line_feed(encode_utf8(line_text(r).drop_last())),
{
    lemma_line_bytes(r);
    let nb = encode_utf8(r.name);
    let hb = encode_utf8(r.hash);
    let wb = kind_word_bytes(r.kind);
    let tb = trailer_bytes(utf8_len(r.name) as int, utf8_len(r.hash) as int, kind_word(r.kind).len() as int);
    let sp = seq![0x20u8];
    assert(no_line_feed(nb));
    assert(no_line_feed(hb));
    assert(no_line_feed(sp));
    assert(no_line_feed(wb));
    assert(no_line_feed(tb));
    lemma_no_line_feed_concat(nb, sp);
    lemma_no_line_feed_concat(nb + sp, hb);
    lemma_no_line_feed_concat(nb + sp + hb, sp);
    lemma_no_line_feed_concat(nb + sp + hb + sp, wb);
    lemma_no_line_feed_concat(nb + sp + hb + sp + wb, sp);
    lemma_no_line_feed_concat(nb + sp + hb + sp + wb + sp, tb);
}

proof fn lemma_line_bytes_end_in_a_line_feed(r: RecordView)
    ensures
        line_text(r).len() > 0,
        line_text(r).last() == '\n',
        encode_utf8(line_text(r)) == encode_utf8(line_text(r).drop_last()) + seq![10u8],
{
    let line = line_text(r);
    let front = line.drop_last();
    let feed = seq!['\n'];
    assert(line =~= front + feed);
    lemma_encode_concat(front, feed);
    assert(vstd::utf8::is_ascii_chars(feed));
    vstd::utf8::is_ascii_chars_encode_utf8(feed);
    assert(encode_utf8(feed) =~= seq![10u8]);
}

proof fn lemma_line_front_is_read_back(r: RecordView)
    requires
        utf8_len(r.name) < 256,
        utf8_len(r.hash) < 256,
    ensures
        parse_line(line_text(r).drop_last()) == Ok::<RecordView, DeserializeError>(r),
{
    let line = line_text(r);
    let front = line.drop_last();
    lemma_line_bytes(r);
    lemma_line_round_trip(r);
    lemma_line_bytes_end_in_a_line_feed(r);
    assert(trimmed_end(line) == trimmed_end(front));
}

/// The bytes of a record's line hold one line feed, which is their last byte,
/// and what stands before it is read as the record.
pub proof fn lemma_line_ends_in_its_only_line_feed(r: RecordView)
    requires
        fits_a_line(r),
    ensures
        encode_utf8(line_text(r)).len() > 0,
        encode_utf8(line_text(r)).last() == 10u8,
        no_line_feed(encode_utf8(line_text(r)).drop_last()),
        encode_utf8(line_text(r)).drop_last() == encode_utf8(line_text(r).drop_last()),
        parse_line(line_text(r).drop_last()) == Ok::<RecordView, DeserializeError>(r),
{
    lemma_line_front_has_no_line_feed(r);
    lemma_line_bytes_end_in_a_line_feed(r);
    lemma_line_front_is_read_back(r);
    let fb = encode_utf8(line_text(r).drop_last());
    assert((fb + seq![10u8]).drop_last() =~= fb);
}

/// The bytes of a manifest are the line of its first record and then the
/// bytes of the manifest of the others.
pub proof fn lemma_manifest_bytes_from_the_front(records: Seq<RecordView>)
    requires
        records.len() > 0,
    ensures
        manifest_bytes(records) == encode_utf8(line_text(records[0])) + manifest_bytes(
            records.drop_first(),
        ),
    decreases records.len(),
{
    let first = encode_utf8(line_text(records[0]));
    if records.len() == 1 {
        assert(records.drop_last() =~= Seq::<RecordView>::empty());
        assert(records.drop_first() =~= Seq::<RecordView>::empty());
        assert(manifest_bytes(Seq::<RecordView>::empty()) =~= Seq::<u8>::empty());
        assert(manifest_bytes(records) =~= first + manifest_bytes(records.drop_first()));
    } else {
        let front = records.drop_last();
        lemma_manifest_bytes_from_the_front(front);
        assert(front[0] == records[0]);
        assert(front.drop_first() =~= records.drop_first().drop_last());
        assert(records.drop_first().last() == records.last());
        let last = encode_utf8(line_text(records.last()));
        assert(manifest_bytes(records) =~= first + (manifest_bytes(front.drop_first()) + last));
    }
}

/// A manifest that is written is read back as the records it was written
/// from, in their order, provided each of them can stand in a manifest.
pub proof fn lemma_manifest_round_trip(records: Seq<RecordView>)
    requires
        forall|i: int| 0 <= i < records.len() ==> fits_a_line(#[trigger] records[i]),
    ensures
        manifest_records(manifest_bytes(records)) == Ok::<Seq<RecordView>, FileParseError>(records),
    decreases records.len(),
{
    let b = manifest_bytes(records);
    if records.len() == 0 {
        assert(b =~= Seq::<u8>::empty());
        assert(records =~= Seq::<RecordView>::empty());
    } else {
        let r = records[0];
        let rest = records.drop_first();
        let lb = encode_utf8(line_text(r));
        let rb = manifest_bytes(rest);
        lemma_manifest_bytes_from_the_front(records);
        lemma_line_ends_in_its_only_line_feed(r);
        assert forall|i: int| 0 <= i < rest.len() implies fits_a_line(#[trigger] rest[i]) by {
            assert(rest[i] == records[i + 1]);
        }
        lemma_manifest_round_trip(rest);
        let end = lb.len() - 1;
        assert(b == lb + rb);
        assert(b[end] == lb[end]);
        assert forall|i: int| 0 <= i < end implies b[i] != 10u8 by {
            assert(b[i] == lb[i]);
            assert(lb[i] == lb.drop_last()[i]);
        }
        lemma_first_line_feed_is(b, end);
        let line = b.subrange(0, end);
        assert(line =~= lb.drop_last());
        assert(b.subrange(end + 1, b.len() as int) =~= rb);
        vstd::utf8::encode_utf8_valid_utf8(line_text(r).drop_last());
        vstd::utf8::encode_utf8_decode_utf8(line_text(r).drop_last());
        assert(decode_utf8(line) == line_text(r).drop_last());
        assert(seq![r] + rest =~= records);
    }
}

} // verus!
