//! Bytes packed into little-endian 32-bit words and back, optionally with a
//! trailing word that records the true byte length.

use crate::cipher::CipherError;
use vstd::prelude::*;

verus! {

/// Four bytes as one little-endian word.
pub open spec fn le_word(b0: u8, b1: u8, b2: u8, b3: u8) -> u32 {
    (b0 as u32) | ((b1 as u32) << 8u32) | ((b2 as u32) << 16u32) | ((b3 as u32) << 24u32)
}

/// Byte `j` (0 to 3, least significant first) of `w`.
pub open spec fn word_byte(w: u32, j: int) -> u8 {
    ((w >> ((8 * j) as u32)) & 0xff) as u8
}

/// `b[i]`, or zero past the end.
pub open spec fn byte_or_zero(b: Seq<u8>, i: int) -> u8 {
    if 0 <= i < b.len() {
        b[i]
    } else {
        0
    }
}

/// The words of `b`, four bytes each, the last one padded with zero bytes.
pub open spec fn pack(b: Seq<u8>) -> Seq<u32> {
    Seq::new(
        ((b.len() + 3) / 4) as nat,
        |i: int|
            le_word(
                byte_or_zero(b, 4 * i),
                byte_or_zero(b, 4 * i + 1),
                byte_or_zero(b, 4 * i + 2),
                byte_or_zero(b, 4 * i + 3),
            ),
    )
}

/// The words of `b`, followed, when asked, by one word holding its length.
pub open spec fn words_of(b: Seq<u8>, include_length: bool) -> Seq<u32> {
    if include_length {
        pack(b).push(b.len() as u32)
    } else {
        pack(b)
    }
}

/// The bytes of `w`, four to a word.
pub open spec fn unpack(w: Seq<u32>) -> Seq<u8> {
    Seq::new(4 * w.len(), |i: int| word_byte(w[i / 4], i % 4))
}

/// The length that a trailing length word may hold for `n` words in all: it
/// must account for the bytes of the `n - 1` words before it, less up to three
/// bytes of padding.
pub open spec fn length_fits(m: int, n: int) -> bool {
    4 * (n - 1) - 3 <= m <= 4 * (n - 1)
}

/// The bytes of `w`; with a length word, only that many bytes of the words
/// before it, and `Err(Corrupt)` when no length word is there or it does not
/// fit.
pub open spec fn bytes_of(w: Seq<u32>, include_length: bool) -> Result<Seq<u8>, CipherError> {
    if !include_length {
        Ok(unpack(w))
    } else if w.len() == 0 || !length_fits(w.last() as int, w.len() as int) {
        Err(CipherError::Corrupt)
    } else {
        Ok(unpack(w).take(w.last() as int))
    }
}

proof fn lemma_word_bytes(b0: u8, b1: u8, b2: u8, b3: u8)
    ensures
        word_byte(le_word(b0, b1, b2, b3), 0) == b0,
        word_byte(le_word(b0, b1, b2, b3), 1) == b1,
        word_byte(le_word(b0, b1, b2, b3), 2) == b2,
        word_byte(le_word(b0, b1, b2, b3), 3) == b3,
{
    let w = le_word(b0, b1, b2, b3);
    assert(((w >> 0u32) & 0xff) as u8 == b0) by (bit_vector)
        requires
            w == (b0 as u32) | ((b1 as u32) << 8u32) | ((b2 as u32) << 16u32) | ((b3 as u32)
                << 24u32),
    ;
    assert(((w >> 8u32) & 0xff) as u8 == b1) by (bit_vector)
        requires
            w == (b0 as u32) | ((b1 as u32) << 8u32) | ((b2 as u32) << 16u32) | ((b3 as u32)
                << 24u32),
    ;
    assert(((w >> 16u32) & 0xff) as u8 == b2) by (bit_vector)
        requires
            w == (b0 as u32) | ((b1 as u32) << 8u32) | ((b2 as u32) << 16u32) | ((b3 as u32)
                << 24u32),
    ;
    assert(((w >> 24u32) & 0xff) as u8 == b3) by (bit_vector)
        requires
            w == (b0 as u32) | ((b1 as u32) << 8u32) | ((b2 as u32) << 16u32) | ((b3 as u32)
                << 24u32),
    ;
}

pub proof fn lemma_word_from_bytes(w: u32)
    ensures
        le_word(word_byte(w, 0), word_byte(w, 1), word_byte(w, 2), word_byte(w, 3)) == w,
{
    assert((((w >> 0u32) & 0xff) as u8 as u32) | ((((w >> 8u32) & 0xff) as u8 as u32) << 8u32)
        | ((((w >> 16u32) & 0xff) as u8 as u32) << 16u32) | ((((w >> 24u32) & 0xff) as u8 as u32)
        << 24u32) == w) by (bit_vector);
}

/// Unpacking and packing again gives back the words.
pub proof fn lemma_pack_unpack(w: Seq<u32>)
    ensures
        pack(unpack(w)) == w,
{
    let b = unpack(w);
    assert forall|i: int| 0 <= i < w.len() implies #[trigger] pack(b)[i] == w[i] by {
        assert(b[4 * i] == word_byte(w[i], 0));
        assert(b[4 * i + 1] == word_byte(w[i], 1));
        assert(b[4 * i + 2] == word_byte(w[i], 2));
        assert(b[4 * i + 3] == word_byte(w[i], 3));
        lemma_word_from_bytes(w[i]);
    }
    assert(pack(b) =~= w);
}

/// Packing and unpacking again gives back the bytes, followed by the zero
/// bytes that padded the last word.
pub proof fn lemma_unpack_pack(b: Seq<u8>)
    ensures
        unpack(pack(b)).len() == 4 * ((b.len() + 3) / 4),
        forall|i: int| 0 <= i < unpack(pack(b)).len() ==> #[trigger] unpack(pack(b))[i] == byte_or_zero(b, i),
{
    let w = pack(b);
    assert forall|i: int| 0 <= i < unpack(w).len() implies #[trigger] unpack(w)[i] == byte_or_zero(b, i) by {
        let q = i / 4;
        let r = i % 4;
        lemma_word_bytes(
            byte_or_zero(b, 4 * q),
            byte_or_zero(b, 4 * q + 1),
            byte_or_zero(b, 4 * q + 2),
            byte_or_zero(b, 4 * q + 3),
        );
        assert(i == 4 * q + r);
    }
}

/// Packs `bytes` into words, with a trailing length word when asked.
pub fn to_u32(bytes: &[u8], include_length: bool) -> (r: Vec<u32>)
    requires
        include_length ==> bytes@.len() <= u32::MAX,
    ensures
        r@ == words_of(bytes@, include_length),
{
    let len = bytes.len();
    let n = len / 4 + if len % 4 == 0 {
        0
    } else {
        1
    };
    assert(n == (len + 3) / 4);
    let mut out: Vec<u32> = Vec::new();
    let mut i: usize = 0;
    while i < n
        invariant
            len == bytes@.len(),
            n == (len + 3) / 4,
            0 <= i <= n,
            out@ == pack(bytes@).take(i as int),
        decreases n - i,
    {
        let base = 4 * i;
        let b0 = bytes[base];
        let b1 = if base + 1 < len {
            bytes[base + 1]
        } else {
            0
        };
        let b2 = if base + 2 < len {
            bytes[base + 2]
        } else {
            0
        };
        let b3 = if base + 3 < len {
            bytes[base + 3]
        } else {
            0
        };
        let word = (b0 as u32) | ((b1 as u32) << 8u32) | ((b2 as u32) << 16u32) | ((b3 as u32)
            << 24u32);
        out.push(word);
        assert(out@ =~= pack(bytes@).take(i + 1));
        i += 1;
    }
    assert(pack(bytes@).take(n as int) =~= pack(bytes@));
    if include_length {
        out.push(len as u32);
    }
    out
}

/// The bytes of `arr`; with `include_length`, the last word gives how many of
/// the bytes before it to keep, and a length that does not fit is `Corrupt`.
pub fn to_bytes(arr: &[u32], include_length: bool) -> (r: Result<Vec<u8>, CipherError>)
    ensures
        match r {
            Ok(v) => bytes_of(arr@, include_length) == Ok::<Seq<u8>, CipherError>(v@),
            Err(e) => bytes_of(arr@, include_length) == Err::<Seq<u8>, CipherError>(e),
        },
{
    let length = arr.len();
    let mut out: Vec<u8> = Vec::new();
    if include_length {
        if length == 0 {
            return Err(CipherError::Corrupt);
        }
        let m = arr[length - 1];
        // `m` fits `length - 1` words exactly when they are the words it needs.
        if (length - 1) as u64 != (m as u64 + 3) / 4 {
            return Err(CipherError::Corrupt);
        }
        let count = m as usize;
        let mut i: usize = 0;
        while i < count
            invariant
                count <= 4 * (length - 1),
                length == arr@.len(),
                0 <= i <= count,
                out@ == unpack(arr@).take(i as int),
            decreases count - i,
        {
            let w = arr[i / 4];
            let shift = (8 * (i % 4)) as u32;
            out.push(((w >> shift) & 0xff) as u8);
            assert(out@ =~= unpack(arr@).take(i + 1));
            i += 1;
        }
    } else {
        let mut j: usize = 0;
        while j < length
            invariant
                length == arr@.len(),
                0 <= j <= length,
                out@ == unpack(arr@).take(4 * j),
            decreases length - j,
        {
            let w = arr[j];
            out.push((w & 0xff) as u8);
            out.push(((w >> 8u32) & 0xff) as u8);
            out.push(((w >> 16u32) & 0xff) as u8);
            out.push(((w >> 24u32) & 0xff) as u8);
            assert(word_byte(w, 0) == ((w >> 0u32) & 0xff) as u8);
            assert((w >> 0u32) == w) by (bit_vector);
            assert(out@ =~= unpack(arr@).take(4 * (j + 1)));
            j += 1;
        }
        assert(unpack(arr@).take(4 * length) =~= unpack(arr@));
    }
    Ok(out)
}

} // verus!
