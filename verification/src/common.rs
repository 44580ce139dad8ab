//! Blob records: one line of a directory manifest, how it is written and how
//! it is read back.
//!
//! A line is `name SP hash SP kind SP LLHHTT LF`. The six hex digits at the
//! end give the byte lengths of the name, of the hash and of the kind word,
//! two digits each, and the reader goes by them alone: it does not look for
//! the spaces.

use crate::digest::{hex_char, hex_padded, push_hex};
use vstd::prelude::*;
use vstd::string::StringExecFns;
use vstd::string::StringSliceAdditionalSpecFns;
use vstd::utf8::{decode_utf8, encode_utf8, is_continuation_byte};

verus! {

/// What a blob is: the bytes of a file, or the manifest of a directory.
#[derive(Clone, Copy, PartialEq, Eq, Debug, Structural)]
pub enum DiffBlobType {
    Directory,
    File,
}

/// The word that stands for a kind in a manifest line.
pub open spec fn kind_word(kind: DiffBlobType) -> Seq<char> {
    match kind {
        DiffBlobType::Directory => seq!['d', 'i', 'r', 'e', 'c', 't', 'o', 'r', 'y'],
        DiffBlobType::File => seq!['f', 'i', 'l', 'e'],
    }
}

/// The bytes of the word that stands for a kind.
pub open spec fn kind_word_bytes(kind: DiffBlobType) -> Seq<u8> {
    match kind {
        DiffBlobType::Directory => seq![100u8, 105u8, 114u8, 101u8, 99u8, 116u8, 111u8, 114u8, 121u8],
        DiffBlobType::File => seq![102u8, 105u8, 108u8, 101u8],
    }
}

impl DiffBlobType {
    /// The word that stands for this kind in a manifest line.
    pub fn as_str(&self) -> (word: &'static str)
        ensures
            word@ == kind_word(*self),
    {
        match self {
            DiffBlobType::Directory => {
                proof {
                    reveal_strlit("directory");
                }
                let word = "directory";
                assert(word@ =~= kind_word(DiffBlobType::Directory));
                word
            },
            DiffBlobType::File => {
                proof {
                    reveal_strlit("file");
                }
                let word = "file";
                assert(word@ =~= kind_word(DiffBlobType::File));
                word
            },
        }
    }

    /// The word that stands for this kind, as an owned string.
    pub fn to_string(&self) -> (word: String)
        ensures
            word@ == kind_word(*self),
    {
        String::from_str(self.as_str())
    }
}

/// One entry of a directory: its name, the hash of its content, and its kind.
#[derive(Debug, Clone)]
pub struct DiffBlob {
    pub name: String,
    pub hash: String,
    pub blob_type: DiffBlobType,
}

/// A blob record as a mathematical value.
#[verifier::ext_equal]
pub ghost struct RecordView {
    pub name: Seq<char>,
    pub hash: Seq<char>,
    pub kind: DiffBlobType,
}

impl View for DiffBlob {
    type V = RecordView;

    open spec fn view(&self) -> RecordView {
        RecordView { name: self.name@, hash: self.hash@, kind: self.blob_type }
    }
}

/// A record in the form in which it is kept in a column store: the name and
/// the hash, and the three lengths that close its line.
#[derive(Debug, Clone, PartialEq, Eq)]
pub struct BinaryDiffBlob {
    pub name: String,
    pub hash: String,
    pub name_len: u8,
    pub hash_len: u8,
    pub blob_type_len: u8,
}

/// The records of a column store.
#[derive(Debug)]
pub struct BinaryDiffBlobStore {
    pub blobs: Vec<BinaryDiffBlob>,
}

/// How a record cannot be read from a line.
#[derive(Clone, Copy, PartialEq, Eq, Debug, Structural)]
pub enum DeserializeError {
    /// The line, without the whitespace at its end, has fewer than six bytes.
    InvalidLength,
    /// The first two of the last six bytes are not two hex digits.
    InvalidNameLengthInfo,
    /// The middle two of the last six bytes are not two hex digits.
    InvalidHashLengthInfo,
    /// The last two bytes are not two hex digits.
    InvalidTypeLengthInfo,
    /// The three lengths and the three spaces ask for more than stands before
    /// the six digits, or a length cuts a character in two.
    InvalidTotalLength,
    /// The kind word is neither `file` nor `directory`.
    InvalidType,
}

/// The number of bytes that a text takes in UTF-8.
pub open spec fn utf8_len(text: Seq<char>) -> nat {
    encode_utf8(text).len()
}

/// The line that a record is written as.
pub open spec fn line_text(r: RecordView) -> Seq<char> {
    r.name + seq![' '] + r.hash + seq![' '] + kind_word(r.kind) + seq![' '] + hex_padded(
        utf8_len(r.name),
        2,
    ) + hex_padded(utf8_len(r.hash), 2) + hex_padded(kind_word(r.kind).len(), 2) + seq!['\n']
}

/// The characters that count as whitespace: those with the Unicode property
/// `White_Space`.
pub open spec fn is_white_space(c: char) -> bool {
    let u = c as u32;
    ||| 0x09 <= u <= 0x0d
    ||| u == 0x20
    ||| u == 0x85
    ||| u == 0xa0
    ||| u == 0x1680
    ||| 0x2000 <= u <= 0x200a
    ||| u == 0x2028
    ||| u == 0x2029
    ||| u == 0x202f
    ||| u == 0x205f
    ||| u == 0x3000
}

/// A text without the whitespace at its end.
pub open spec fn trimmed_end(text: Seq<char>) -> Seq<char>
    decreases text.len(),
{
    if text.len() > 0 && is_white_space(text.last()) {
        trimmed_end(text.drop_last())
    } else {
        text
    }
}

/// `str::trim_end`: the slice without the whitespace at its end, where
/// whitespace is what Unicode gives the property `White_Space`.
pub assume_specification[ str::trim_end ](s: &str) -> (t: &str)
    ensures
        t@ == trimmed_end(s@),
;

/// The value of a hex digit, in either case.
pub open spec fn hex_value(b: u8) -> Option<int> {
    if 0x30 <= b <= 0x39 {
        Some(b - 0x30)
    } else if 0x61 <= b <= 0x66 {
        Some(b - 0x61 + 10)
    } else if 0x41 <= b <= 0x46 {
        Some(b - 0x41 + 10)
    } else {
        None
    }
}

/// The value of two hex digits.
pub open spec fn hex_pair(hi: u8, lo: u8) -> Option<int> {
    match (hex_value(hi), hex_value(lo)) {
        (Some(h), Some(l)) => Some(16 * h + l),
        _ => None,
    }
}

/// A character may start at byte `i`: the byte there is not the continuation
/// of a character that started earlier.
pub open spec fn starts_char(bytes: Seq<u8>, i: int) -> bool {
    0 <= i < bytes.len() && !is_continuation_byte(bytes[i])
}

/// What a line's bytes, without the whitespace at the end, are read as: the
/// bytes of the name, those of the hash, and the kind.
pub open spec fn parse_bytes(b: Seq<u8>) -> Result<(Seq<u8>, Seq<u8>, DiffBlobType), DeserializeError> {
    if b.len() < 6 {
        Err(DeserializeError::InvalidLength)
    } else {
        let p = b.len() - 6;
        match hex_pair(b[p], b[p + 1]) {
            None => Err(DeserializeError::InvalidNameLengthInfo),
            Some(n) => match hex_pair(b[p + 2], b[p + 3]) {
                None => Err(DeserializeError::InvalidHashLengthInfo),
                Some(h) => match hex_pair(b[p + 4], b[p + 5]) {
                    None => Err(DeserializeError::InvalidTypeLengthInfo),
                    Some(k) => if p < n + h + k + 3 {
                        Err(DeserializeError::InvalidTotalLength)
                    } else if !(starts_char(b, n) && starts_char(b, n + 1) && starts_char(
                        b,
                        n + 1 + h,
                    )) {
                        Err(DeserializeError::InvalidTotalLength)
                    } else {
                        let word = b.subrange(n + h + 2, n + h + 2 + k);
                        if word == kind_word_bytes(DiffBlobType::Directory) {
                            Ok(
                                (
                                    b.subrange(0, n),
                                    b.subrange(n + 1, n + 1 + h),
                                    DiffBlobType::Directory,
                                ),
                            )
                        } else if word == kind_word_bytes(DiffBlobType::File) {
                            Ok((b.subrange(0, n), b.subrange(n + 1, n + 1 + h), DiffBlobType::File))
                        } else {
                            Err(DeserializeError::InvalidType)
                        }
                    },
                },
            },
        }
    }
}

/// What a line is read as.
pub open spec fn parse_line(line: Seq<char>) -> Result<RecordView, DeserializeError> {
    match parse_bytes(encode_utf8(trimmed_end(line))) {
        Ok((name, hash, kind)) => Ok(
            RecordView { name: decode_utf8(name), hash: decode_utf8(hash), kind },
        ),
        Err(e) => Err(e),
    }
}

/// The view of what reading a line gave.
pub open spec fn parsed_view(res: Result<DiffBlob, DeserializeError>) -> Result<
    RecordView,
    DeserializeError,
> {
    match res {
        Ok(blob) => Ok(blob@),
        Err(e) => Err(e),
    }
}

fn hex_digit_value(b: u8) -> (v: Option<usize>)
    ensures
        match v {
            Some(d) => hex_value(b) == Some(d as int) && d < 16,
            None => hex_value(b) is None,
        },
{
    if 0x30 <= b && b <= 0x39 {
        Some((b - 0x30) as usize)
    } else if 0x61 <= b && b <= 0x66 {
        Some((b - 0x61 + 10) as usize)
    } else if 0x41 <= b && b <= 0x46 {
        Some((b - 0x41 + 10) as usize)
    } else {
        None
    }
}

fn hex_pair_value(hi: u8, lo: u8) -> (v: Option<usize>)
    ensures
        match v {
            Some(d) => hex_pair(hi, lo) == Some(d as int) && d < 256,
            None => hex_pair(hi, lo) is None,
        },
{
    match hex_digit_value(hi) {
        None => None,
        Some(h) => match hex_digit_value(lo) {
            None => None,
            Some(l) => Some(16 * h + l),
        },
    }
}

fn is_char_start(b: &[u8], i: usize) -> (yes: bool)
    requires
        i < b.len(),
    ensures
        yes == starts_char(b@, i as int),
{
    !(0x80 <= b[i] && b[i] <= 0xbf)
}

fn kind_at(b: &[u8], at: usize, k: usize) -> (kind: Option<DiffBlobType>)
    requires
        at + k <= b.len(),
    ensures
        match kind {
            Some(t) => b@.subrange(at as int, at + k) == kind_word_bytes(t),
            None => b@.subrange(at as int, at + k) != kind_word_bytes(DiffBlobType::Directory)
                && b@.subrange(at as int, at + k) != kind_word_bytes(DiffBlobType::File),
        },
{
    let ghost word = b@.subrange(at as int, at + k);
    let ghost dir = kind_word_bytes(DiffBlobType::Directory);
    let ghost file = kind_word_bytes(DiffBlobType::File);
    if k == 4 {
        assert(word.len() != dir.len());
        if b[at] == 102 && b[at + 1] == 105 && b[at + 2] == 108 && b[at + 3] == 101 {
            assert(word =~= file);
            Some(DiffBlobType::File)
        } else {
            assert(word[0] == b@[at as int] && word[1] == b@[at + 1] && word[2] == b@[at + 2]
                && word[3] == b@[at + 3]);
            None
        }
    } else if k == 9 {
        assert(word.len() != file.len());
        if b[at] == 100 && b[at + 1] == 105 && b[at + 2] == 114 && b[at + 3] == 101 && b[at + 4]
            == 99 && b[at + 5] == 116 && b[at + 6] == 111 && b[at + 7] == 114 && b[at + 8] == 121 {
            assert(word =~= dir);
            Some(DiffBlobType::Directory)
        } else {
            assert(word[0] == b@[at as int] && word[1] == b@[at + 1] && word[2] == b@[at + 2]
                && word[3] == b@[at + 3] && word[4] == b@[at + 4] && word[5] == b@[at + 5]
                && word[6] == b@[at + 6] && word[7] == b@[at + 7] && word[8] == b@[at + 8]);
            None
        }
    } else {
        assert(word.len() != file.len());
        assert(word.len() != dir.len());
        None
    }
}

impl DiffBlob {
    /// A record with the given name, hash and kind.
    pub fn new(name: String, hash: String, blob_type: DiffBlobType) -> (blob: DiffBlob)
        ensures
            blob@ == (RecordView { name: name@, hash: hash@, kind: blob_type }),
    {
        DiffBlob { name, hash, blob_type }
    }

    /// The entry's name.
    pub fn name(&self) -> (name: &str)
        ensures
            name@ == self@.name,
    {
        self.name.as_str()
    }

    /// The hash of the entry's content.
    pub fn hash(&self) -> (hash: &str)
        ensures
            hash@ == self@.hash,
    {
        self.hash.as_str()
    }

    /// The entry's kind.
    pub fn blob_type(&self) -> (kind: DiffBlobType)
        ensures
            kind == self@.kind,
    {
        self.blob_type
    }

    /// Whether the lengths of the name and of the hash can be written in two
    /// hex digits each, so that the record can be read back from its line and
    /// be put into a column store.
    pub fn fits_two_digits(&self) -> (yes: bool)
        ensures
            yes == (utf8_len(self@.name) < 256 && utf8_len(self@.hash) < 256),
    {
        self.name.as_str().as_bytes().len() < 256 && self.hash.as_str().as_bytes().len() < 256
    }

    /// The record in the form in which it is kept in a column store.
    pub fn into_binary(self) -> (out: BinaryDiffBlob)
        requires
            utf8_len(self@.name) < 256,
            utf8_len(self@.hash) < 256,
        ensures
            out.name@ == self@.name,
            out.hash@ == self@.hash,
            out.name_len == utf8_len(self@.name),
            out.hash_len == utf8_len(self@.hash),
            out.blob_type_len == kind_word(self@.kind).len(),
    {
        let name_len = self.name.as_str().as_bytes().len();
        let hash_len = self.hash.as_str().as_bytes().len();
        let word = self.blob_type.as_str();
        proof {
            assert(vstd::utf8::is_ascii_chars(kind_word(self.blob_type)));
            vstd::utf8::is_ascii_chars_encode_utf8(word@);
        }
        let blob_type_len = word.as_bytes().len();
        BinaryDiffBlob {
            name: self.name,
            hash: self.hash,
            name_len: name_len as u8,
            hash_len: hash_len as u8,
            blob_type_len: blob_type_len as u8,
        }
    }

    /// The line that the record is written as in a manifest.
    pub fn to_string(&self) -> (line: String)
        ensures
            line@ == line_text(self@),
    {
        let word = self.blob_type.as_str();
        let mut line = String::new();
        line.append(self.name.as_str());
        line.push(' ');
        line.append(self.hash.as_str());
        line.push(' ');
        line.append(word);
        line.push(' ');
        push_hex(&mut line, self.name.as_str().as_bytes().len() as u64, 2);
        push_hex(&mut line, self.hash.as_str().as_bytes().len() as u64, 2);
        proof {
            assert(vstd::utf8::is_ascii_chars(kind_word(self.blob_type)));
            vstd::utf8::is_ascii_chars_encode_utf8(word@);
            assert(word.spec_bytes().len() == kind_word(self.blob_type).len());
        }
        push_hex(&mut line, word.as_bytes().len() as u64, 2);
        line.push('\n');
        assert(line@ =~= line_text(self@));
        line
    }

    /// Reads a record from a manifest line. Whitespace at the end of the line
    /// is dropped first; then the last six bytes give the lengths, and the
    /// name, the hash and the kind word are cut out by them.
    pub fn from_str(s: &str) -> (res: Result<DiffBlob, DeserializeError>)
        ensures
            parsed_view(res) == parse_line(s@),
    {
        let t = s.trim_end();
        let b = t.as_bytes();
        let len = b.len();
        if len < 6 {
            return Err(DeserializeError::InvalidLength);
        }
        let p = len - 6;
        let n = match hex_pair_value(b[p], b[p + 1]) {
            Some(v) => v,
            None => {
                return Err(DeserializeError::InvalidNameLengthInfo);
            },
        };
        let h = match hex_pair_value(b[p + 2], b[p + 3]) {
            Some(v) => v,
            None => {
                return Err(DeserializeError::InvalidHashLengthInfo);
            },
        };
        let k = match hex_pair_value(b[p + 4], b[p + 5]) {
            Some(v) => v,
            None => {
                return Err(DeserializeError::InvalidTypeLengthInfo);
            },
        };
        if p < n + h + k + 3 {
            return Err(DeserializeError::InvalidTotalLength);
        }
        if !(is_char_start(b, n) && is_char_start(b, n + 1) && is_char_start(b, n + 1 + h)) {
            return Err(DeserializeError::InvalidTotalLength);
        }
        let kind = match kind_at(b, n + h + 2, k) {
            Some(kind) => kind,
            None => {
                return Err(DeserializeError::InvalidType);
            },
        };
        let (name, hash) = cut_fields(t, n, h);
        Ok(DiffBlob { name, hash, blob_type: kind })
    }
}

/// Cuts the name and the hash out of a line: the first `n` bytes, and the `h`
/// bytes that follow one byte later.
fn cut_fields(t: &str, n: usize, h: usize) -> (fields: (String, String))
    requires
        starts_char(t.spec_bytes(), n as int),
        starts_char(t.spec_bytes(), n + 1),
        starts_char(t.spec_bytes(), n + 1 + h),
    ensures
        fields.0@ == decode_utf8(t.spec_bytes().subrange(0, n as int)),
        fields.1@ == decode_utf8(t.spec_bytes().subrange(n + 1, n + 1 + h)),
{
    let ghost b = t.spec_bytes();
    proof {
        vstd::utf8::encode_utf8_valid_utf8(t@);
        vstd::utf8::is_char_boundary_iff_not_is_continuation_byte(b, n as int);
    }
    let (name, rest) = t.split_at(n);
    proof {
        vstd::utf8::encode_utf8_valid_utf8(rest@);
        assert(rest.spec_bytes()[1] == b[n + 1]);
        vstd::utf8::is_char_boundary_iff_not_is_continuation_byte(rest.spec_bytes(), 1);
    }
    let (_, rest) = rest.split_at(1);
    proof {
        assert(rest.spec_bytes() =~= b.subrange(n + 1, b.len() as int));
        vstd::utf8::encode_utf8_valid_utf8(rest@);
        assert(rest.spec_bytes()[h as int] == b[n + 1 + h]);
        vstd::utf8::is_char_boundary_iff_not_is_continuation_byte(rest.spec_bytes(), h as int);
    }
    let (hash, _) = rest.split_at(h);
    proof {
        assert(hash.spec_bytes() =~= b.subrange(n + 1, n + 1 + h));
        vstd::utf8::encode_utf8_decode_utf8(name@);
        vstd::utf8::encode_utf8_decode_utf8(hash@);
    }
    (name.to_owned(), hash.to_owned())
}

/// The encoding of two texts laid end to end is the two encodings laid end to
/// end.
pub proof fn lemma_encode_concat(a: Seq<char>, b: Seq<char>)
    ensures
        encode_utf8(a + b) == encode_utf8(a) + encode_utf8(b),
    decreases a.len(),
{
    if a.len() == 0 {
        assert(a + b =~= b);
        assert(encode_utf8(a) + encode_utf8(b) =~= encode_utf8(b));
    } else {
        assert((a + b).drop_first() =~= a.drop_first() + b);
        assert((a + b)[0] == a[0]);
        lemma_encode_concat(a.drop_first(), b);
        assert(encode_utf8(a + b) =~= encode_utf8(a) + encode_utf8(b));
    }
}

/// The byte that a hex digit is written as.
pub open spec fn hex_byte(d: int) -> u8 {
    if d < 10 {
        (0x30 + d) as u8
    } else {
        (0x61 + d - 10) as u8
    }
}

proof fn lemma_hex_char_is_ascii(d: int)
    requires
        0 <= d < 16,
    ensures
        hex_char(d) as u8 == hex_byte(d),
        '\0' <= hex_char(d) <= '\u{7f}',
        !is_white_space(hex_char(d)),
        hex_value(hex_byte(d)) == Some(d),
{
}

proof fn lemma_hex_two_digits(n: nat)
    requires
        n < 256,
    ensures
        hex_padded(n, 2) == seq![hex_char((n / 16) as int), hex_char((n % 16) as int)],
{
    reveal_with_fuel(hex_padded, 2);
    assert(hex_padded(n, 2) =~= seq![hex_char((n / 16) as int), hex_char((n % 16) as int)]);
}

/// The six digits that close a line, as bytes.
pub open spec fn trailer_bytes(n: int, h: int, k: int) -> Seq<u8> {
    seq![
        hex_byte(n / 16),
        hex_byte(n % 16),
        hex_byte(h / 16),
        hex_byte(h % 16),
        hex_byte(k / 16),
        hex_byte(k % 16),
    ]
}

proof fn lemma_encode_ascii(text: Seq<char>, bytes: Seq<u8>)
    requires
        vstd::utf8::is_ascii_chars(text),
        text.len() == bytes.len(),
        forall|i: int| 0 <= i < text.len() ==> text[i] as u8 == bytes[i],
    ensures
        encode_utf8(text) == bytes,
{
    vstd::utf8::is_ascii_chars_encode_utf8(text);
    assert(encode_utf8(text) =~= bytes);
}

/// The bytes of a record's line without the line feed: the name, the hash and
/// the kind word, a space behind each, and the six digits.
pub proof fn lemma_line_bytes(r: RecordView)
    requires
        utf8_len(r.name) < 256,
        utf8_len(r.hash) < 256,
    ensures
        trimmed_end(line_text(r)) == line_text(r).drop_last(),
        encode_utf8(line_text(r).drop_last()) == encode_utf8(r.name) + seq![0x20u8] + encode_utf8(
            r.hash,
        ) + seq![0x20u8] + kind_word_bytes(r.kind) + seq![0x20u8] + trailer_bytes(
            utf8_len(r.name) as int,
            utf8_len(r.hash) as int,
            kind_word(r.kind).len() as int,
        ),
{
    let n = utf8_len(r.name);
    let h = utf8_len(r.hash);
    let k = kind_word(r.kind).len();
    let word = kind_word(r.kind);
    lemma_hex_two_digits(n);
    lemma_hex_two_digits(h);
    lemma_hex_two_digits(k);
    let digits = hex_padded(n, 2) + hex_padded(h, 2) + hex_padded(k, 2);
    let sp = seq![' '];
    let front = r.name + sp + r.hash + sp + word + sp + digits;
    let line = line_text(r);
    assert(line =~= front + seq!['\n']);
    assert(line.drop_last() =~= front);
    lemma_hex_char_is_ascii((n / 16) as int);
    lemma_hex_char_is_ascii((n % 16) as int);
    lemma_hex_char_is_ascii((h / 16) as int);
    lemma_hex_char_is_ascii((h % 16) as int);
    lemma_hex_char_is_ascii((k / 16) as int);
    lemma_hex_char_is_ascii((k % 16) as int);
    assert(is_white_space(line.last()));
    assert(front.last() == hex_char((k % 16) as int));
    assert(trimmed_end(front) == front);
    assert(trimmed_end(line) == front);
    let tb = trailer_bytes(n as int, h as int, k as int);
    assert(digits.len() == 6);
    lemma_encode_ascii(digits, tb);
    lemma_encode_ascii(sp, seq![0x20u8]);
    lemma_encode_ascii(word, kind_word_bytes(r.kind));
    lemma_encode_concat(r.name, sp);
    lemma_encode_concat(r.name + sp, r.hash);
    lemma_encode_concat(r.name + sp + r.hash, sp);
    lemma_encode_concat(r.name + sp + r.hash + sp, word);
    lemma_encode_concat(r.name + sp + r.hash + sp + word, sp);
    lemma_encode_concat(r.name + sp + r.hash + sp + word + sp, digits);
}

/// A record that is written as a line and read back is the same record,
/// provided its name and its hash take fewer than 256 bytes each, so that two
/// hex digits hold their lengths.
pub proof fn lemma_line_round_trip(r: RecordView)
    requires
        utf8_len(r.name) < 256,
        utf8_len(r.hash) < 256,
    ensures
        parse_line(line_text(r)) == Ok::<RecordView, DeserializeError>(r),
{
    let n = utf8_len(r.name) as int;
    let h = utf8_len(r.hash) as int;
    let k = kind_word(r.kind).len() as int;
    let nb = encode_utf8(r.name);
    let hb = encode_utf8(r.hash);
    let wb = kind_word_bytes(r.kind);
    let tb = trailer_bytes(n, h, k);
    let sp = seq![0x20u8];
    lemma_line_bytes(r);
    let b = encode_utf8(trimmed_end(line_text(r)));
    assert(b == nb + sp + hb + sp + wb + sp + tb);
    assert(wb.len() == k);
    assert(b.len() == n + h + k + 9);
    let p = n + h + k + 3;
    assert(b[p] == tb[0] && b[p + 1] == tb[1] && b[p + 2] == tb[2] && b[p + 3] == tb[3] && b[p
        + 4] == tb[4] && b[p + 5] == tb[5]);
    lemma_hex_char_is_ascii(n / 16);
    lemma_hex_char_is_ascii(n % 16);
    lemma_hex_char_is_ascii(h / 16);
    lemma_hex_char_is_ascii(h % 16);
    lemma_hex_char_is_ascii(k / 16);
    lemma_hex_char_is_ascii(k % 16);
    assert(hex_pair(b[p], b[p + 1]) == Some(n));
    assert(hex_pair(b[p + 2], b[p + 3]) == Some(h));
    assert(hex_pair(b[p + 4], b[p + 5]) == Some(k));
    assert(b[n] == 0x20u8);
    assert(b[n + 1 + h] == 0x20u8);
    if h > 0 {
        assert(b[n + 1] == hb[0]);
        vstd::utf8::encode_utf8_valid_utf8(r.hash);
        vstd::utf8::is_char_boundary_start_end_of_seq(hb);
        vstd::utf8::is_char_boundary_iff_not_is_continuation_byte(hb, 0);
    }
    assert(starts_char(b, n));
    assert(starts_char(b, n + 1));
    assert(starts_char(b, n + 1 + h));
    assert(b.subrange(n + h + 2, n + h + 2 + k) =~= wb);
    assert(b.subrange(0, n) =~= nb);
    assert(b.subrange(n + 1, n + 1 + h) =~= hb);
    assert(kind_word_bytes(DiffBlobType::File).len() != kind_word_bytes(
        DiffBlobType::Directory,
    ).len());
    vstd::utf8::encode_utf8_decode_utf8(r.name);
    vstd::utf8::encode_utf8_decode_utf8(r.hash);
    assert(parse_bytes(b) == Ok::<(Seq<u8>, Seq<u8>, DiffBlobType), DeserializeError>(
        (nb, hb, r.kind),
    ));
}

} // verus!
