//! The content-addressed store, held in memory: blobs by their hash.
//!
//! A blob is written once. Writing under a hash that the store already holds
//! changes nothing, so a blob is never cut short or overwritten.

use crate::common::{parse_line, DeserializeError, DiffBlob, RecordView};
use vstd::prelude::*;
use vstd::slice::slice_subrange;
use vstd::string::StringSliceAdditionalSpecFns;
use vstd::utf8::{decode_utf8, encode_utf8, valid_utf8};

verus! {

/// Why a blob could not be had from the store as a manifest.
#[derive(Clone, Copy, PartialEq, Eq, Debug, Structural)]
pub enum StoreFailure {
    /// The store holds nothing under the hash.
    Missing,
    /// What the store holds is not UTF-8 text.
    NotText,
    /// Directories lead into one another more often than the store has blobs,
    /// which only a manifest that leads back to itself can bring about.
    TooDeep,
}

/// Why the manifests of a store could not be walked.
#[derive(Clone, Copy, PartialEq, Eq, Debug, Structural)]
pub enum FileParseError {
    /// A blob could not be had.
    Io(StoreFailure),
    /// A manifest line could not be read.
    Parse(DeserializeError),
}

/// One blob of the store.
#[derive(Debug)]
pub struct StoredBlob {
    pub hash: String,
    pub content: Vec<u8>,
}

/// The content-addressed store.
#[derive(Debug)]
pub struct BlobStore {
    blobs: Vec<StoredBlob>,
}

/// What a list of blobs holds under each hash, where of two blobs with the
/// same hash the earlier one counts.
pub open spec fn held(blobs: Seq<StoredBlob>) -> Map<Seq<char>, Seq<u8>>
    decreases blobs.len(),
{
    if blobs.len() == 0 {
        Map::empty()
    } else {
        let before = held(blobs.drop_last());
        if before.contains_key(blobs.last().hash@) {
            before
        } else {
            before.insert(blobs.last().hash@, blobs.last().content@)
        }
    }
}

/// What the first blobs of a list hold, the whole list holds too.
pub proof fn lemma_held_grows(blobs: Seq<StoredBlob>, upto: int)
    requires
        0 <= upto <= blobs.len(),
    ensures
        held(blobs.subrange(0, upto)).submap_of(held(blobs)),
    decreases blobs.len() - upto,
{
    if upto == blobs.len() {
        assert(blobs.subrange(0, upto) =~= blobs);
    } else {
        lemma_held_grows(blobs, upto + 1);
        assert(blobs.subrange(0, upto + 1).drop_last() =~= blobs.subrange(0, upto));
        let small = held(blobs.subrange(0, upto));
        let next = held(blobs.subrange(0, upto + 1));
        assert(small.submap_of(next));
        assert forall|k: Seq<char>| small.contains_key(k) implies #[trigger] held(
            blobs,
        ).contains_key(k) && held(blobs)[k] == small[k] by {
            assert(next.contains_key(k) && next[k] == small[k]);
        }
    }
}

/// Every hash that a list of blobs holds something under is the hash of one
/// of its blobs.
pub proof fn lemma_held_comes_from_a_blob(blobs: Seq<StoredBlob>, hash: Seq<char>)
    requires
        held(blobs).contains_key(hash),
    ensures
        exists|i: int| 0 <= i < blobs.len() && (#[trigger] blobs[i]).hash@ == hash,
    decreases blobs.len(),
{
    if blobs.len() > 0 {
        if blobs.last().hash@ == hash {
            assert(blobs[blobs.len() - 1].hash@ == hash);
        } else {
            lemma_held_comes_from_a_blob(blobs.drop_last(), hash);
            let i = choose|i: int|
                0 <= i < blobs.drop_last().len() && (#[trigger] blobs.drop_last()[i]).hash@ == hash;
            assert(blobs[i].hash@ == hash);
        }
    }
}

/// A list of blobs holds something under the hash of each of its blobs, and
/// where no two blobs have the same hash, it holds each blob's own bytes.
pub proof fn lemma_held_holds_each(blobs: Seq<StoredBlob>, i: int)
    requires
        0 <= i < blobs.len(),
    ensures
        held(blobs).contains_key(blobs[i].hash@),
        (forall|a: int, b: int|
            0 <= a < b < blobs.len() ==> (#[trigger] blobs[a]).hash@ != (#[trigger] blobs[b]).hash@)
            ==> held(blobs)[blobs[i].hash@] == blobs[i].content@,
{
    let upto = blobs.subrange(0, i + 1);
    lemma_held_grows(blobs, i + 1);
    assert(upto.last() == blobs[i]);
    assert(upto.drop_last() =~= blobs.subrange(0, i));
    assert(held(upto).contains_key(blobs[i].hash@));
    if forall|a: int, b: int|
        0 <= a < b < blobs.len() ==> (#[trigger] blobs[a]).hash@ != (#[trigger] blobs[b]).hash@ {
        let before = blobs.subrange(0, i);
        if held(before).contains_key(blobs[i].hash@) {
            lemma_held_comes_from_a_blob(before, blobs[i].hash@);
            let j = choose|j: int| 0 <= j < before.len() && (#[trigger] before[j]).hash@ == blobs[i].hash@;
            assert(before[j] == blobs[j]);
            assert(blobs[j].hash@ != blobs[i].hash@);
        }
        assert(held(upto)[blobs[i].hash@] == blobs[i].content@);
    }
}

impl View for BlobStore {
    type V = Map<Seq<char>, Seq<u8>>;

    closed spec fn view(&self) -> Map<Seq<char>, Seq<u8>> {
        held(self.blobs@)
    }
}

impl BlobStore {
    /// No two blobs of the store have the same hash.
    #[verifier::type_invariant]
    spec fn one_blob_per_hash(self) -> bool {
        forall|a: int, b: int|
            0 <= a < b < self.blobs@.len() ==> (#[trigger] self.blobs@[a]).hash@ != (
            #[trigger] self.blobs@[b]).hash@
    }

    /// The number of blobs in the store.
    pub closed spec fn count(&self) -> nat {
        self.blobs@.len()
    }

    /// The hash of the blob that was written as the `i`-th.
    pub closed spec fn hash_of(&self, i: int) -> Seq<char> {
        self.blobs@[i].hash@
    }

    /// An empty store.
    pub fn new() -> (store: BlobStore)
        ensures
            store@ == Map::<Seq<char>, Seq<u8>>::empty(),
            store.count() == 0,
    {
        BlobStore { blobs: Vec::new() }
    }

    /// The number of blobs in the store.
    pub fn len(&self) -> (n: usize)
        ensures
            n == self.count(),
    {
        self.blobs.len()
    }

    /// The blob that was written as the `i`-th: its hash and its bytes.
    pub fn blob_at(&self, i: usize) -> (blob: (&str, &[u8]))
        requires
            i < self.count(),
        ensures
            blob.0@ == self.hash_of(i as int),
            self@.contains_key(blob.0@),
            blob.1@ == self@[blob.0@],
    {
        proof {
            use_type_invariant(self);
            lemma_held_holds_each(self.blobs@, i as int);
        }
        (self.blobs[i].hash.as_str(), self.blobs[i].content.as_slice())
    }

    /// The bytes held under `hash`, if any.
    pub fn get(&self, hash: &str) -> (content: Option<&[u8]>)
        ensures
            content is Some == self@.contains_key(hash@),
            content matches Some(bytes) ==> bytes@ == self@[hash@],
    {
        let mut i: usize = 0;
        assert(self.blobs@.subrange(0, 0) =~= Seq::<StoredBlob>::empty());
        while i < self.blobs.len()
            invariant
                i <= self.blobs.len(),
                !held(self.blobs@.subrange(0, i as int)).contains_key(hash@),
            decreases self.blobs.len() - i,
        {
            proof {
                assert(self.blobs@.subrange(0, i + 1).drop_last() =~= self.blobs@.subrange(
                    0,
                    i as int,
                ));
                assert(self.blobs@.subrange(0, i + 1).last() == self.blobs@[i as int]);
            }
            if str_eq(self.blobs[i].hash.as_str(), hash) {
                proof {
                    lemma_held_grows(self.blobs@, i + 1);
                    let upto = held(self.blobs@.subrange(0, i + 1));
                    assert(upto.contains_key(hash@) && upto[hash@] == self.blobs@[i as int].content@);
                }
                return Some(self.blobs[i].content.as_slice());
            }
            i = i + 1;
        }
        assert(self.blobs@.subrange(0, i as int) =~= self.blobs@);
        None
    }

    /// Whether the store holds a blob under `hash`.
    pub fn contains(&self, hash: &str) -> (yes: bool)
        ensures
            yes == self@.contains_key(hash@),
    {
        self.get(hash).is_some()
    }

    /// Writes `content` under `hash` unless the store holds a blob under that
    /// hash already; then nothing changes. Says whether it wrote.
    pub fn put_if_absent(&mut self, hash: String, content: Vec<u8>) -> (written: bool)
        ensures
            written == !old(self)@.contains_key(hash@),
            written ==> final(self)@ == old(self)@.insert(hash@, content@),
            written ==> final(self).count() == old(self).count() + 1,
            !written ==> final(self)@ == old(self)@ && final(self).count() == old(self).count(),
    {
        if self.contains(hash.as_str()) {
            return false;
        }
        let ghost before = self.blobs@;
        proof {
            use_type_invariant(&*self);
            assert forall|a: int| 0 <= a < before.len() implies (#[trigger] before[a]).hash@
                != hash@ by {
                lemma_held_holds_each(before, a);
            }
        }
        let mut blobs: Vec<StoredBlob> = Vec::new();
        std::mem::swap(&mut self.blobs, &mut blobs);
        blobs.push(StoredBlob { hash, content });
        assert(blobs@.drop_last() =~= before);
        self.blobs = blobs;
        true
    }
}

/// Whether two strings are the same text.
pub fn str_eq(a: &str, b: &str) -> (same: bool)
    ensures
        same == (a@ == b@),
{
    let x = a.as_bytes();
    let y = b.as_bytes();
    proof {
        vstd::utf8::encode_utf8_decode_utf8(a@);
        vstd::utf8::encode_utf8_decode_utf8(b@);
    }
    assert(x@ == encode_utf8(a@));
    assert(y@ == encode_utf8(b@));
    if x.len() != y.len() {
        return false;
    }
    let mut i: usize = 0;
    while i < x.len()
        invariant
            i <= x.len(),
            x.len() == y.len(),
            x@.subrange(0, i as int) == y@.subrange(0, i as int),
            x@ == encode_utf8(a@),
            y@ == encode_utf8(b@),
            decode_utf8(x@) == a@,
            decode_utf8(y@) == b@,
        decreases x.len() - i,
    {
        if x[i] != y[i] {
            return false;
        }
        assert(x@.subrange(0, i + 1) =~= x@.subrange(0, i as int).push(x@[i as int]));
        assert(y@.subrange(0, i + 1) =~= y@.subrange(0, i as int).push(y@[i as int]));
        i = i + 1;
    }
    assert(x@.subrange(0, i as int) =~= x@);
    assert(y@.subrange(0, i as int) =~= y@);
    true
}

/// The error of `std::str::from_utf8`, as a value that is handed through.
#[verifier::external_type_specification]
#[verifier::external_body]
pub struct ExUtf8Error(std::str::Utf8Error);

/// `std::str::from_utf8`: the bytes as a string slice where they are UTF-8, and
/// an error where they are not.
pub assume_specification[ std::str::from_utf8 ](v: &[u8]) -> (r: Result<&str, std::str::Utf8Error>)
    ensures
        r is Ok == valid_utf8(v@),
        r matches Ok(s) ==> s.spec_bytes() == v@,
;

/// Where the first line feed stands in `b`, or the length of `b` if it has
/// none.
pub open spec fn first_line_feed(b: Seq<u8>) -> int
    decreases b.len(),
{
    if b.len() == 0 || b[0] == 10u8 {
        0
    } else {
        1 + first_line_feed(b.drop_first())
    }
}

/// What a manifest holds: the records of its lines, in order. A line ends at a
/// line feed or at the end of the bytes.
pub open spec fn manifest_records(b: Seq<u8>) -> Result<Seq<RecordView>, FileParseError>
    decreases b.len(),
{
    if b.len() == 0 {
        Ok(seq![])
    } else {
        let end = first_line_feed(b);
        let line = b.subrange(0, end);
        let rest = if 0 <= end < b.len() {
            b.subrange(end + 1, b.len() as int)
        } else {
            seq![]
        };
        if !valid_utf8(line) {
            Err(FileParseError::Io(StoreFailure::NotText))
        } else {
            match parse_line(decode_utf8(line)) {
                Err(e) => Err(FileParseError::Parse(e)),
                Ok(r) => match manifest_records(rest) {
                    Err(e) => Err(e),
                    Ok(rs) => Ok(seq![r] + rs),
                },
            }
        }
    }
}

/// The views of a list of records, in order.
pub open spec fn record_views(records: Seq<DiffBlob>) -> Seq<RecordView> {
    records.map_values(|r: DiffBlob| r@)
}

/// The views of what reading a manifest gave.
pub open spec fn records_view(res: Result<Vec<DiffBlob>, FileParseError>) -> Result<
    Seq<RecordView>,
    FileParseError,
> {
    match res {
        Ok(records) => Ok(record_views(records@)),
        Err(e) => Err(e),
    }
}

/// `records` put in front of what the rest of a manifest holds.
pub open spec fn records_then(
    records: Seq<RecordView>,
    rest: Result<Seq<RecordView>, FileParseError>,
) -> Result<Seq<RecordView>, FileParseError> {
    match rest {
        Ok(rs) => Ok(records + rs),
        Err(e) => Err(e),
    }
}

/// Where the first line feed stands.
pub proof fn lemma_first_line_feed(b: Seq<u8>)
    ensures
        0 <= first_line_feed(b) <= b.len(),
        first_line_feed(b) < b.len() ==> b[first_line_feed(b)] == 10u8,
        forall|i: int| 0 <= i < first_line_feed(b) ==> b[i] != 10u8,
    decreases b.len(),
{
    if !(b.len() == 0 || b[0] == 10u8) {
        lemma_first_line_feed(b.drop_first());
        assert forall|i: int| 0 <= i < first_line_feed(b) implies b[i] != 10u8 by {
            if i > 0 {
                assert(b[i] == b.drop_first()[i - 1]);
            }
        }
    }
}

/// The first line feed is where a line feed stands with none before it.
pub proof fn lemma_first_line_feed_is(b: Seq<u8>, end: int)
    requires
        0 <= end <= b.len(),
        end < b.len() ==> b[end] == 10u8,
        forall|i: int| 0 <= i < end ==> b[i] != 10u8,
    ensures
        first_line_feed(b) == end,
{
    lemma_first_line_feed(b);
}

/// Reads a manifest: the records of its lines, in order, or the first thing
/// that is wrong with it.
pub fn read_manifest(content: &[u8]) -> (res: Result<Vec<DiffBlob>, FileParseError>)
    ensures
        records_view(res) == manifest_records(content@),
{
    let mut records: Vec<DiffBlob> = Vec::new();
    let mut pos: usize = 0;
    let len = content.len();
    assert(content@.subrange(0, len as int) =~= content@);
    assert(records_then(record_views(records@), manifest_records(content@)) =~= manifest_records(
        content@,
    ));
    while pos < len
        invariant
            pos <= len,
            len == content.len(),
            manifest_records(content@) == records_then(
                record_views(records@),
                manifest_records(content@.subrange(pos as int, len as int)),
            ),
        decreases len - pos,
    {
        let ghost tail = content@.subrange(pos as int, len as int);
        let ghost so_far = record_views(records@);
        let mut end: usize = pos;
        while end < len && content[end] != 10
            invariant
                pos <= end <= len,
                len == content.len(),
                forall|i: int| pos <= i < end ==> content@[i] != 10u8,
            decreases len - end,
        {
            end = end + 1;
        }
        proof {
            lemma_first_line_feed_is(tail, end - pos);
            assert(tail.subrange(0, end - pos) =~= content@.subrange(pos as int, end as int));
            if end < len {
                assert(tail.subrange(end - pos + 1, tail.len() as int) =~= content@.subrange(
                    end + 1,
                    len as int,
                ));
            }
        }
        let line = slice_subrange(content, pos, end);
        let text = match std::str::from_utf8(line) {
            Ok(text) => text,
            Err(_) => {
                return Err(FileParseError::Io(StoreFailure::NotText));
            },
        };
        proof {
            vstd::utf8::encode_utf8_decode_utf8(text@);
        }
        let record = match DiffBlob::from_str(text) {
            Ok(record) => record,
            Err(e) => {
                return Err(FileParseError::Parse(e));
            },
        };
        records.push(record);
        pos = if end < len {
            end + 1
        } else {
            end
        };
        proof {
            let rest = content@.subrange(pos as int, len as int);
            assert(record_views(records@) =~= so_far + seq![record@]);
            if end >= len {
                assert(rest =~= Seq::<u8>::empty());
            }
            assert(records_then(so_far, manifest_records(tail)) =~= records_then(
                record_views(records@),
                manifest_records(rest),
            )) by {
                match manifest_records(rest) {
                    Ok(rs) => {
                        assert(so_far + (seq![record@] + rs) =~= (so_far + seq![record@]) + rs);
                    },
                    Err(_) => {},
                }
            }
        }
    }
    assert(content@.subrange(pos as int, len as int) =~= Seq::<u8>::empty());
    assert(record_views(records@) + Seq::<RecordView>::empty() =~= record_views(records@));
    Ok(records)
}

} // verus!
