//! The 64-bit content digest and its rendering as sixteen lowercase hex digits.

use std::hash::Hasher;
use vstd::prelude::*;

verus! {

/// The hasher of the `twox_hash` crate, as a value that is handed through.
#[verifier::external_type_specification]
#[verifier::external_body]
pub struct ExXxHash64(twox_hash::XxHash64);

/// The bytes that a hasher has been fed so far, in order.
pub uninterp spec fn hasher_input(h: twox_hash::XxHash64) -> Seq<u8>;

/// The xxHash-64 digest, with seed 0, of a byte sequence.
pub uninterp spec fn xxh64_digest(bytes: Seq<u8>) -> u64;

/// `XxHash64::default`: a hasher with seed 0 that has been fed nothing.
#[verifier::external_body]
fn hasher_new() -> (h: twox_hash::XxHash64)
    ensures
        hasher_input(h) == Seq::<u8>::empty(),
{
    twox_hash::XxHash64::default()
}

/// `Hasher::write` on `XxHash64`: the hasher has been fed `bytes` after what it
/// had before. How the input is cut into calls does not matter to the digest.
/// The hasher counts the bytes in 64 bits, so no more than that may be fed.
#[verifier::external_body]
fn hasher_write(h: &mut twox_hash::XxHash64, bytes: &[u8])
    requires
        hasher_input(*old(h)).len() + bytes@.len() <= u64::MAX,
    ensures
        hasher_input(*final(h)) == hasher_input(*old(h)) + bytes@,
{
    h.write(bytes)
}

/// `Hasher::finish` on `XxHash64`: the digest of everything fed so far.
#[verifier::external_body]
fn hasher_finish(h: &twox_hash::XxHash64) -> (d: u64)
    ensures
        d == xxh64_digest(hasher_input(*h)),
{
    h.finish()
}

/// The digest of `bytes`.
pub fn digest_of(bytes: &[u8]) -> (d: u64)
    ensures
        d == xxh64_digest(bytes@),
{
    let mut h = hasher_new();
    let len = bytes.len();
    assert(len <= u64::MAX);
    hasher_write(&mut h, bytes);
    assert(hasher_input(h) =~= bytes@);
    hasher_finish(&h)
}

/// `String::push`: the character is appended.
pub assume_specification[ String::push ](s: &mut String, ch: char)
    ensures
        final(s)@ == old(s)@.push(ch),
;

/// The lowercase hex digit for a value below sixteen.
pub open spec fn hex_char(d: int) -> char {
    if d == 0 { '0' } else if d == 1 { '1' } else if d == 2 { '2' } else if d == 3 { '3' }
    else if d == 4 { '4' } else if d == 5 { '5' } else if d == 6 { '6' } else if d == 7 { '7' }
    else if d == 8 { '8' } else if d == 9 { '9' } else if d == 10 { 'a' } else if d == 11 { 'b' }
    else if d == 12 { 'c' } else if d == 13 { 'd' } else if d == 14 { 'e' } else { 'f' }
}

/// `n` in lowercase hex, padded on the left with zeros to at least `width`
/// digits and never cut short.
pub open spec fn hex_padded(n: nat, width: nat) -> Seq<char>
    decreases n, width,
{
    if n < 16 && width <= 1 {
        seq![hex_char(n as int)]
    } else {
        hex_padded(n / 16, if width > 0 { (width - 1) as nat } else { 0 }).push(
            hex_char((n % 16) as int),
        )
    }
}

/// The form in which every digest is written: sixteen lowercase hex digits.
pub open spec fn hash_text(d: u64) -> Seq<char> {
    hex_padded(d as nat, 16)
}

fn hex_digit(d: u64) -> (c: char)
    requires
        d < 16,
    ensures
        c == hex_char(d as int),
{
    if d == 0 { '0' } else if d == 1 { '1' } else if d == 2 { '2' } else if d == 3 { '3' }
    else if d == 4 { '4' } else if d == 5 { '5' } else if d == 6 { '6' } else if d == 7 { '7' }
    else if d == 8 { '8' } else if d == 9 { '9' } else if d == 10 { 'a' } else if d == 11 { 'b' }
    else if d == 12 { 'c' } else if d == 13 { 'd' } else if d == 14 { 'e' } else { 'f' }
}

/// Appends `n` to `out` in lowercase hex, with at least `width` digits.
pub fn push_hex(out: &mut String, n: u64, width: usize)
    ensures
        final(out)@ == old(out)@ + hex_padded(n as nat, width as nat),
{
    let mut digits: Vec<char> = Vec::new();
    let mut rest: u64 = n;
    let mut w: usize = width;
    loop
        invariant
            hex_padded(n as nat, width as nat) == hex_padded(rest as nat, w as nat)
                + digits@.reverse(),
        ensures
            rest < 16 && w <= 1,
        decreases rest, w,
    {
        if rest < 16 && w <= 1 {
            break;
        }
        let ghost before = digits@;
        digits.push(hex_digit(rest % 16));
        proof {
            assert(digits@.reverse() =~= seq![hex_char((rest % 16) as int)] + before.reverse());
            assert(hex_padded(rest as nat, w as nat) == hex_padded(
                (rest / 16) as nat,
                if w > 0 { (w - 1) as nat } else { 0 },
            ).push(hex_char((rest % 16) as int)));
            assert(hex_padded(rest as nat, w as nat) + before.reverse() =~= hex_padded(
                (rest / 16) as nat,
                if w > 0 { (w - 1) as nat } else { 0 },
            ) + (seq![hex_char((rest % 16) as int)] + before.reverse()));
        }
        rest = rest / 16;
        if w > 0 {
            w = w - 1;
        }
    }
    out.push(hex_digit(rest));
    let ghost base = old(out)@.push(hex_char(rest as int));
    let mut i: usize = digits.len();
    while i > 0
        invariant
            i <= digits.len(),
            out@ == base + digits@.reverse().subrange(0, digits.len() - i),
        decreases i,
    {
        i = i - 1;
        let ghost prev = out@;
        out.push(digits[i]);
        assert(out@ =~= base + digits@.reverse().subrange(0, digits.len() - i));
    }
    assert(digits@.reverse().subrange(0, digits.len() as int) =~= digits@.reverse());
    assert(out@ =~= old(out)@ + (hex_padded(rest as nat, w as nat) + digits@.reverse()));
}

/// A hash in the making: bytes are fed in pieces, and the hash of all of them
/// is asked for at the end. How the bytes are cut into pieces does not matter.
pub struct ContentHasher {
    state: twox_hash::XxHash64,
}

impl ContentHasher {
    /// The bytes fed so far, in order.
    pub closed spec fn fed(&self) -> Seq<u8> {
        hasher_input(self.state)
    }

    /// A hasher that has been fed nothing.
    pub fn new() -> (hasher: ContentHasher)
        ensures
            hasher.fed() == Seq::<u8>::empty(),
    {
        ContentHasher { state: hasher_new() }
    }

    /// Feeds the next piece. All pieces together may not be longer than can
    /// be counted in 64 bits.
    pub fn update(&mut self, chunk: &[u8])
        requires
            old(self).fed().len() + chunk@.len() <= u64::MAX,
        ensures
            final(self).fed() == old(self).fed() + chunk@,
    {
        hasher_write(&mut self.state, chunk);
    }

    /// The hash of everything fed so far, written as sixteen lowercase hex
    /// digits.
    pub fn finish(&self) -> (hash: String)
        ensures
            hash@ == hash_text(xxh64_digest(self.fed())),
    {
        let d = hasher_finish(&self.state);
        let mut hash = String::new();
        push_hex(&mut hash, d, 16);
        assert(hash@ =~= hash_text(d));
        hash
    }
}

/// The digest of `bytes`, written as sixteen lowercase hex digits.
pub fn bytes_hash(bytes: &[u8]) -> (hash: String)
    ensures
        hash@ == hash_text(xxh64_digest(bytes@)),
{
    let d = digest_of(bytes);
    let mut hash = String::new();
    push_hex(&mut hash, d, 16);
    assert(hash@ =~= hash_text(d));
    hash
}

/// The character is a hex digit in lower case.
pub open spec fn is_lower_hex(c: char) -> bool {
    ('0' <= c <= '9') || ('a' <= c <= 'f')
}

/// Sixteen to the power of `w`.
pub open spec fn pow16(w: nat) -> nat
    decreases w,
{
    if w == 0 {
        1
    } else {
        16 * pow16((w - 1) as nat)
    }
}

/// A number that can be written in `w` hex digits is written in exactly `w`
/// hex digits, all in lower case.
pub proof fn lemma_hex_padded_shape(n: nat, w: nat)
    requires
        w >= 1,
        n < pow16(w),
    ensures
        hex_padded(n, w).len() == w,
        forall|i: int| 0 <= i < w ==> is_lower_hex(#[trigger] hex_padded(n, w)[i]),
    decreases w,
{
    if w == 1 {
        assert(pow16(1) == 16) by {
            reveal_with_fuel(pow16, 2);
        }
    } else {
        if n < 16 && w <= 1 {
        } else {
            lemma_hex_padded_shape(n / 16, (w - 1) as nat);
            let front = hex_padded(n / 16, (w - 1) as nat);
            assert(hex_padded(n, w) == front.push(hex_char((n % 16) as int)));
            assert forall|i: int| 0 <= i < w implies is_lower_hex(#[trigger] hex_padded(n, w)[i]) by {
                if i < w - 1 {
                    assert(hex_padded(n, w)[i] == front[i]);
                }
            }
        }
    }
}

/// A digest is written as sixteen hex digits in lower case.
pub proof fn lemma_hash_text_shape(d: u64)
    ensures
        hash_text(d).len() == 16,
        forall|i: int| 0 <= i < 16 ==> is_lower_hex(#[trigger] hash_text(d)[i]),
{
    assert(pow16(16) == 0x1_0000_0000_0000_0000) by {
        reveal_with_fuel(pow16, 17);
    }
    lemma_hex_padded_shape(d as nat, 16);
}

} // verus!
