//! The frame in which a ciphertext travels between two peers, and the digest
//! that lets the receiver check it: the name's length as unsigned LEB128, the
//! name, the declared file size (8 bytes, little-endian), the digest's length
//! (4 bytes, little-endian, below 2^31), the digest, then the ciphertext to the
//! end.

use crate::buffers::{append_bytes, copy_range};
use crate::words::{lemma_word_from_bytes, le_word, word_byte};
use vstd::prelude::*;

verus! {

/// The unsigned LEB128 encoding of `v`: seven bits a byte, least significant
/// first, the top bit set on every byte but the last.
pub open spec fn uleb128(v: nat) -> Seq<u8>
    decreases v,
{
    if v < 128 {
        seq![v as u8]
    } else {
        seq![(v % 128 + 128) as u8] + uleb128(v / 128)
    }
}

/// Reading unsigned LEB128 from byte `i` of `s` (at most ten bytes, the tenth
/// no more than 1 so that the value fits 64 bits): the value and how many
/// bytes it took, or `None` when the input ends first or the value is too
/// large.
pub open spec fn uleb128_read(s: Seq<u8>, i: nat) -> Option<(int, nat)>
    decreases 10 - i,
{
    if i >= s.len() || i >= 10 || (i == 9 && s[9] > 1) {
        None
    } else if s[i as int] < 128 {
        Some((s[i as int] as int, 1))
    } else {
        match uleb128_read(s, i + 1) {
            Some((v, n)) => Some(((s[i as int] - 128) + 128 * v, n + 1)),
            None => None,
        }
    }
}

/// The four bytes of `w`, least significant first.
pub open spec fn u32_bytes(w: u32) -> Seq<u8> {
    seq![word_byte(w, 0), word_byte(w, 1), word_byte(w, 2), word_byte(w, 3)]
}

/// The eight bytes of `v`, least significant first.
pub open spec fn u64_bytes(v: u64) -> Seq<u8> {
    u32_bytes((v % 0x1_0000_0000) as u32) + u32_bytes((v / 0x1_0000_0000) as u32)
}

/// The word in bytes `i..i + 4` of `s`, least significant first.
pub open spec fn word_at(s: Seq<u8>, i: int) -> u32 {
    le_word(s[i], s[i + 1], s[i + 2], s[i + 3])
}

/// The bytes of a frame.
pub open spec fn frame_bytes(name: Seq<u8>, size: u64, digest: Seq<u8>, payload: Seq<u8>) -> Seq<
    u8,
> {
    uleb128(name.len()) + name + u64_bytes(size) + u32_bytes(digest.len() as u32) + digest
        + payload
}

/// What a received buffer holds as a frame: name, declared size, digest and
/// payload; `None` when it ends early or a length is malformed.
pub open spec fn parse_frame(s: Seq<u8>) -> Option<(Seq<u8>, u64, Seq<u8>, Seq<u8>)> {
    match uleb128_read(s, 0) {
        None => None,
        Some((len, n)) => {
            let h = n + len;
            if s.len() < h + 12 {
                None
            } else {
                let size = (word_at(s, h) + word_at(s, h + 4) * 0x1_0000_0000) as u64;
                let d = word_at(s, h + 8);
                if d >= 0x8000_0000 || s.len() < h + 12 + d {
                    None
                } else {
                    Some(
                        (
                            s.subrange(n as int, h),
                            size,
                            s.subrange(h + 12, h + 12 + d),
                            s.skip(h + 12 + d),
                        ),
                    )
                }
            }
        },
    }
}

/// The Tiger digest of `data`.
pub uninterp spec fn tiger_digest(data: Seq<u8>) -> Seq<u8>;

/// Relies on `leb128::write::unsigned`, which writes `v` seven bits at a time,
/// least significant first, with the top bit on all but the last byte; writing
/// to a `Vec` cannot fail.
#[verifier::external_body]
fn uleb128_bytes(v: u64) -> (r: Vec<u8>)
    ensures
        r@ == uleb128(v as nat),
{
    let mut buf: Vec<u8> = Vec::new();
    let _ = leb128::write::unsigned(&mut buf, v);
    buf
}

/// Relies on `leb128::read::unsigned` on a byte slice: the value and the bytes
/// it took, or `None` for an input that ends first (`IoError`) or a value past
/// 64 bits (`Overflow`).
#[verifier::external_body]
fn read_uleb128(bytes: &[u8]) -> (r: Option<(u64, usize)>)
    ensures
        match r {
            Some((v, n)) => uleb128_read(bytes@, 0) == Some((v as int, n as nat)),
            None => uleb128_read(bytes@, 0) is None,
        },
{
    let mut rest: &[u8] = bytes;
    match leb128::read::unsigned(&mut rest) {
        Ok(v) => Some((v, bytes.len() - rest.len())),
        Err(_) => None,
    }
}

/// Relies on the `tiger` crate's `Tiger` hasher: the digest of `data`, 24 bytes.
#[verifier::external_body]
pub fn hash_data(data: &[u8]) -> (r: Vec<u8>)
    ensures
        r@ == tiger_digest(data@),
        r@.len() == 24,
{
    let mut hasher = <tiger::Tiger as tiger::Digest>::new();
    tiger::Digest::update(&mut hasher, data);
    tiger::Digest::finalize(hasher).to_vec()
}

/// Whether a received digest is the one computed.
pub fn same_digest(received: &[u8], computed: &[u8]) -> (r: bool)
    ensures
        r == (received@ == computed@),
{
    if received.len() != computed.len() {
        return false;
    }
    let mut i: usize = 0;
    while i < received.len()
        invariant
            received@.len() == computed@.len(),
            0 <= i <= received@.len(),
            forall|j: int| 0 <= j < i ==> received@[j] == computed@[j],
        decreases received@.len() - i,
    {
        if received[i] != computed[i] {
            return false;
        }
        i += 1;
    }
    assert(received@ =~= computed@);
    true
}

/// Whether `digest` is the Tiger digest of `payload`.
pub fn digest_matches(payload: &[u8], digest: &[u8]) -> (r: bool)
    ensures
        r == (digest@ == tiger_digest(payload@)),
{
    let computed = hash_data(payload);
    same_digest(digest, computed.as_slice())
}

proof fn lemma_uleb128_read_len(s: Seq<u8>, i: nat)
    ensures
        uleb128_read(s, i) matches Some((v, n)) ==> n >= 1 && i + n <= s.len() && v >= 0,
    decreases 10 - i,
{
    if !(i >= s.len() || i >= 10 || (i == 9 && s[9] > 1)) && s[i as int] >= 128 {
        lemma_uleb128_read_len(s, i + 1);
    }
}

fn push_word(out: &mut Vec<u8>, w: u32)
    ensures
        final(out)@ == old(out)@ + u32_bytes(w),
{
    out.push(((w >> 0u32) & 0xff) as u8);
    out.push(((w >> 8u32) & 0xff) as u8);
    out.push(((w >> 16u32) & 0xff) as u8);
    out.push(((w >> 24u32) & 0xff) as u8);
    assert(word_byte(w, 0) == ((w >> 0u32) & 0xff) as u8);
    assert(word_byte(w, 1) == ((w >> 8u32) & 0xff) as u8);
    assert(word_byte(w, 2) == ((w >> 16u32) & 0xff) as u8);
    assert(word_byte(w, 3) == ((w >> 24u32) & 0xff) as u8);
    assert(out@ =~= old(out)@ + u32_bytes(w));
}

fn read_word(bytes: &[u8], i: usize) -> (r: u32)
    requires
        i + 4 <= bytes@.len(),
    ensures
        r == word_at(bytes@, i as int),
{
    (bytes[i] as u32) | ((bytes[i + 1] as u32) << 8u32) | ((bytes[i + 2] as u32) << 16u32) | ((
    bytes[i + 3] as u32) << 24u32)
}

/// A frame taken apart.
pub struct Frame {
    pub name: Vec<u8>,
    pub declared_size: u64,
    pub digest: Vec<u8>,
    pub payload: Vec<u8>,
}

/// Lays out a frame.
pub fn encode_frame(name: &[u8], declared_size: u64, digest: &[u8], payload: &[u8]) -> (r: Vec<
    u8,
>)
    requires
        digest@.len() < 0x8000_0000,
    ensures
        r@ == frame_bytes(name@, declared_size, digest@, payload@),
{
    let mut out = uleb128_bytes(name.len() as u64);
    append_bytes(&mut out, name);
    push_word(&mut out, (declared_size % 0x1_0000_0000) as u32);
    push_word(&mut out, (declared_size / 0x1_0000_0000) as u32);
    push_word(&mut out, digest.len() as u32);
    append_bytes(&mut out, digest);
    append_bytes(&mut out, payload);
    assert(out@ =~= frame_bytes(name@, declared_size, digest@, payload@));
    out
}

/// Takes a received buffer apart into a frame.
pub fn decode_frame(bytes: &[u8]) -> (r: Option<Frame>)
    ensures
        match r {
            Some(f) => parse_frame(bytes@) == Some((f.name@, f.declared_size, f.digest@, f.payload@)),
            None => parse_frame(bytes@) is None,
        },
{
    let total = bytes.len();
    let (len, n) = match read_uleb128(bytes) {
        Some(x) => x,
        None => {
            return None;
        },
    };
    proof {
        lemma_uleb128_read_len(bytes@, 0);
    }
    if len > (total - n) as u64 || total - n - (len as usize) < 12 {
        return None;
    }
    let h = n + len as usize;
    let lo = read_word(bytes, h);
    let hi = read_word(bytes, h + 4);
    let d = read_word(bytes, h + 8);
    if d >= 0x8000_0000 || total - h - 12 < d as usize {
        return None;
    }
    let start = h + 12;
    let end = start + d as usize;
    Some(
        Frame {
            name: copy_range(bytes, n, h),
            declared_size: lo as u64 + (hi as u64) * 0x1_0000_0000,
            digest: copy_range(bytes, start, end),
            payload: copy_range(bytes, end, total),
        },
    )
}

/// The values that LEB128 bytes from position `i` on can carry: seven bits a
/// byte, one bit in the tenth.
pub open spec fn uleb128_capacity(i: nat) -> nat
    decreases 9 - i,
{
    if i >= 9 {
        2
    } else {
        128 * uleb128_capacity(i + 1)
    }
}

proof fn lemma_uleb128_capacity()
    ensures
        uleb128_capacity(0) == 0x1_0000_0000_0000_0000,
{
    reveal_with_fuel(uleb128_capacity, 10);
}

/// Reading back what was written: the LEB128 bytes of `v` at position `i`
/// of `s` read as `v`, when `v` fits what is left of the ten bytes.
proof fn lemma_uleb128_read_written(s: Seq<u8>, i: nat, v: nat)
    requires
        i <= 9,
        v < uleb128_capacity(i),
        i + uleb128(v).len() <= s.len(),
        s.subrange(i as int, i as int + uleb128(v).len()) == uleb128(v),
    ensures
        uleb128_read(s, i) == Some((v as int, uleb128(v).len())),
    decreases v,
{
    let e = uleb128(v);
    let k = i as int;
    assert(s[k] == s.subrange(k, k + e.len())[0]);
    if v >= 128 {
        assert(i < 9);
        let t = uleb128(v / 128);
        assert(e == seq![(v % 128 + 128) as u8] + t);
        assert(s.subrange(k + 1, k + 1 + t.len()) =~= t) by {
            assert forall|j: int| 0 <= j < t.len() implies s.subrange(k + 1, k + 1 + t.len())[j]
                == t[j] by {
                assert(s.subrange(k, k + e.len())[j + 1] == e[j + 1]);
            }
        }
        lemma_uleb128_read_written(s, i + 1, v / 128);
    }
}

/// Decoding an encoded frame gives back its name, declared size, digest and
/// payload.
pub proof fn lemma_frame_round_trip(name: Seq<u8>, size: u64, digest: Seq<u8>, payload: Seq<u8>)
    requires
        name.len() <= u64::MAX,
        digest.len() < 0x8000_0000,
    ensures
        parse_frame(frame_bytes(name, size, digest, payload)) == Some((name, size, digest, payload)),
{
    let s = frame_bytes(name, size, digest, payload);
    let e = uleb128(name.len());
    let n = e.len();
    lemma_uleb128_capacity();
    assert(s.subrange(0, n as int) =~= e);
    lemma_uleb128_read_written(s, 0, name.len());
    let h = (n + name.len()) as int;
    let lo = (size % 0x1_0000_0000) as u32;
    let hi = (size / 0x1_0000_0000) as u32;
    let d = digest.len() as u32;
    lemma_word_from_bytes(lo);
    lemma_word_from_bytes(hi);
    lemma_word_from_bytes(d);
    assert(word_at(s, h) == lo);
    assert(word_at(s, h + 4) == hi);
    assert(word_at(s, h + 8) == d);
    assert(s.subrange(n as int, h) =~= name);
    assert(s.subrange(h + 12, h + 12 + d as int) =~= digest);
    assert(s.skip(h + 12 + d as int) =~= payload);
}

} // verus!
