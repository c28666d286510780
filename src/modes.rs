//! XXTEA as a cipher on byte buffers: directly, with the true length carried in
//! a trailing word, or block by block in ciphertext-feedback mode.

use crate::buffers::{append_bytes, copy_range};
use crate::cipher::{Algorithm, CipherError, MAX_DATA_LEN};
use crate::settings::{field_bytes, parsed_usize, parse_usize, XxteaArgs, XxteaCfbArgs};
use crate::words::{
    byte_or_zero, bytes_of, lemma_pack_unpack, lemma_unpack_pack, length_fits, pack, to_bytes,
    to_u32, unpack, words_of,
};
use crate::xxtea::{decrypt_, encrypt_, lemma_xxtea_round_trip, xxtea_decrypt, xxtea_encrypt};
use vstd::prelude::*;
use vstd::string::StringSliceAdditionalSpecFns;
use vstd::utf8::encode_utf8;

verus! {

/// The first four words of `w`, padded with zero words.
pub open spec fn fixed_key(w: Seq<u32>) -> Seq<u32> {
    Seq::new(
        4,
        |i: int|
            if i < w.len() {
                w[i]
            } else {
                0u32
            },
    )
}

/// The key that a key string's bytes give.
pub open spec fn key_of(s: Seq<u8>) -> Seq<u32> {
    fixed_key(pack(s))
}

/// Encryption with the byte length carried in a trailing word.
pub open spec fn encrypt_with_length(b: Seq<u8>, k: Seq<u32>) -> Seq<u8> {
    unpack(xxtea_encrypt(words_of(b, true), k))
}

/// Decryption of what `encrypt_with_length` wrote: `Corrupt` for an empty
/// buffer or a length word that does not fit.
pub open spec fn decrypt_with_length(c: Seq<u8>, k: Seq<u32>) -> Result<Seq<u8>, CipherError> {
    let w = words_of(c, false);
    if w.len() == 0 {
        Err(CipherError::Corrupt)
    } else {
        bytes_of(xxtea_decrypt(w, k), true)
    }
}

/// Encryption of the words of `b` as they stand.
pub open spec fn encrypt_raw(b: Seq<u8>, k: Seq<u32>) -> Seq<u8> {
    unpack(xxtea_encrypt(pack(b), k))
}

/// Decryption of the words of `c` as they stand.
pub open spec fn decrypt_raw(c: Seq<u8>, k: Seq<u32>) -> Seq<u8> {
    unpack(xxtea_decrypt(pack(c), k))
}

/// Takes the first four words of `key`, padding with zero words.
pub fn fix_key(key: &[u32]) -> (r: [u32; 4])
    ensures
        r@ == fixed_key(key@),
{
    let mut out = [0u32; 4];
    let mut i: usize = 0;
    while i < 4 && i < key.len()
        invariant
            0 <= i <= 4,
            i <= key@.len(),
            forall|j: int| 0 <= j < i ==> out@[j] == key@[j],
            forall|j: int| i <= j < 4 ==> out@[j] == 0,
        decreases 4 - i,
    {
        out[i] = key[i];
        i += 1;
    }
    assert(out@ =~= fixed_key(key@));
    out
}

/// The key a key string gives.
fn key_from(s: &String) -> (r: [u32; 4])
    ensures
        r@ == key_of(encode_utf8(s@)),
{
    let words = to_u32(s.as_str().as_bytes(), false);
    fix_key(words.as_slice())
}

/// XXTEA over whole buffers, the byte length carried in a trailing word.
pub struct Xxtea {
    key: [u32; 4],
}

impl Xxtea {
    pub closed spec fn key(self) -> Seq<u32> {
        self.key@
    }

    pub fn try_new(args: &XxteaArgs) -> (r: Result<Xxtea, CipherError>)
        ensures
            match args.key {
                None => r == Err::<Xxtea, CipherError>(CipherError::MissingField),
                Some(s) => r matches Ok(x) && x.key() == key_of(encode_utf8(s@)),
            },
    {
        match &args.key {
            Some(s) => Ok(Xxtea { key: key_from(s) }),
            None => Err(CipherError::MissingField),
        }
    }
}

impl Algorithm for Xxtea {
    open spec fn valid(&self) -> bool {
        true
    }

    open spec fn encrypt_spec(&self, data: Seq<u8>) -> Result<Seq<u8>, CipherError> {
        Ok(encrypt_with_length(data, self.key()))
    }

    open spec fn decrypt_spec(&self, data: Seq<u8>) -> Result<Seq<u8>, CipherError> {
        decrypt_with_length(data, self.key())
    }

    fn encrypt(&self, data: &[u8]) -> (r: Result<Vec<u8>, CipherError>) {
        let words = to_u32(data, true);
        let encrypted = encrypt_(words, &self.key);
        to_bytes(encrypted.as_slice(), false)
    }

    fn decrypt(&self, data: &[u8]) -> (r: Result<Vec<u8>, CipherError>) {
        let words = to_u32(data, false);
        if words.len() == 0 {
            return Err(CipherError::Corrupt);
        }
        let decrypted = decrypt_(words, &self.key);
        to_bytes(decrypted.as_slice(), true)
    }
}

/// Round-trip law with the length word: every non-empty buffer comes back
/// exactly, under every key.
pub proof fn lemma_round_trip_with_length(b: Seq<u8>, k: Seq<u32>)
    requires
        1 <= b.len() <= u32::MAX,
    ensures
        decrypt_with_length(encrypt_with_length(b, k), k) == Ok::<Seq<u8>, CipherError>(b),
{
    let p = pack(b);
    let w = words_of(b, true);
    assert(p.len() >= 1);
    lemma_xxtea_round_trip(w, k);
    let e = xxtea_encrypt(w, k);
    lemma_pack_unpack(e);
    assert(words_of(unpack(e), false) == e);
    assert(xxtea_decrypt(e, k) == w);
    assert(w.last() == b.len() as u32);
    assert(length_fits(b.len() as int, w.len() as int));
    lemma_unpack_pack(b);
    assert forall|i: int| 0 <= i < b.len() implies #[trigger] unpack(w)[i] == b[i] by {
        assert(unpack(w)[i] == unpack(p)[i]);
    }
    assert(unpack(w).take(b.len() as int) =~= b);
}

/// The same law for a configured cipher.
pub proof fn lemma_xxtea_cipher_round_trip(x: Xxtea, b: Seq<u8>)
    requires
        1 <= b.len() <= u32::MAX,
    ensures
        x.encrypt_spec(b) matches Ok(c) && x.decrypt_spec(c) == Ok::<Seq<u8>, CipherError>(b),
{
    lemma_round_trip_with_length(b, x.key());
}

/// Round-trip law without the length word: a buffer of more than one word
/// comes back followed by the zero bytes that padded its last word.
pub proof fn lemma_raw_round_trip(b: Seq<u8>, k: Seq<u32>)
    requires
        b.len() > 4,
    ensures
        decrypt_raw(encrypt_raw(b, k), k) == Seq::new(
            4 * ((b.len() + 3) / 4),
            |i: int| byte_or_zero(b, i),
        ),
{
    let p = pack(b);
    lemma_xxtea_round_trip(p, k);
    lemma_pack_unpack(xxtea_encrypt(p, k));
    lemma_unpack_pack(b);
    assert(decrypt_raw(encrypt_raw(b, k), k) =~= Seq::new(
        4 * ((b.len() + 3) / 4),
        |i: int| byte_or_zero(b, i),
    ));
}

/// The mask that encrypting the previous block gives.
pub open spec fn keystream(prev: Seq<u8>, k: Seq<u32>) -> Seq<u8> {
    unpack(xxtea_encrypt(pack(prev), k))
}

/// `a` combined byte by byte with the start of `mask`.
pub open spec fn xor_prefix(a: Seq<u8>, mask: Seq<u8>) -> Seq<u8> {
    Seq::new(a.len(), |i: int| a[i] ^ mask[i])
}

/// The length of the next chunk of `data`.
pub open spec fn chunk_len(data: Seq<u8>, bs: nat) -> int {
    if data.len() < bs {
        data.len() as int
    } else {
        bs as int
    }
}

/// Ciphertext-feedback encryption of `data` in chunks of `bs` bytes (the last
/// one may be shorter), `prev` being the previous ciphertext block (at first,
/// the initialisation vector).
pub open spec fn cfb_encrypt_blocks(k: Seq<u32>, prev: Seq<u8>, bs: nat, data: Seq<u8>) -> Seq<
    u8,
>
    decreases data.len(),
{
    if data.len() == 0 || bs == 0 {
        Seq::empty()
    } else {
        let m = chunk_len(data, bs);
        let c = xor_prefix(data.take(m), keystream(prev, k));
        c + cfb_encrypt_blocks(k, c, bs, data.skip(m))
    }
}

/// Ciphertext-feedback decryption: the same masks, fed by the ciphertext
/// received.
pub open spec fn cfb_decrypt_blocks(k: Seq<u32>, prev: Seq<u8>, bs: nat, data: Seq<u8>) -> Seq<
    u8,
>
    decreases data.len(),
{
    if data.len() == 0 || bs == 0 {
        Seq::empty()
    } else {
        let m = chunk_len(data, bs);
        let c = data.take(m);
        xor_prefix(c, keystream(prev, k)) + cfb_decrypt_blocks(k, c, bs, data.skip(m))
    }
}

proof fn lemma_cfb_len(k: Seq<u32>, prev: Seq<u8>, bs: nat, data: Seq<u8>)
    requires
        bs > 0,
    ensures
        cfb_encrypt_blocks(k, prev, bs, data).len() == data.len(),
    decreases data.len(),
{
    if data.len() > 0 {
        let m = chunk_len(data, bs);
        let c = xor_prefix(data.take(m), keystream(prev, k));
        lemma_cfb_len(k, c, bs, data.skip(m));
    }
}

/// The first chunk is combined with the mask of the initialisation vector.
proof fn lemma_cfb_first_chunk(k: Seq<u32>, iv: Seq<u8>, bs: nat, data: Seq<u8>)
    requires
        bs > 0,
        0 < data.len(),
    ensures
        forall|i: int|
            0 <= i < chunk_len(data, bs) ==> #[trigger] cfb_encrypt_blocks(k, iv, bs, data)[i]
                == data[i] ^ keystream(iv, k)[i],
{
    let m = chunk_len(data, bs);
    let c = xor_prefix(data.take(m), keystream(iv, k));
    let tail = cfb_encrypt_blocks(k, c, bs, data.skip(m));
    assert forall|i: int| 0 <= i < m implies #[trigger] cfb_encrypt_blocks(k, iv, bs, data)[i]
        == data[i] ^ keystream(iv, k)[i] by {
        assert((c + tail)[i] == c[i]);
    }
}

/// Each chunk of the ciphertext, the short last one too, is its plaintext
/// chunk combined with the first bytes of the mask of the ciphertext block
/// before it (of the initialisation vector, for chunk 0).
pub proof fn lemma_cfb_chunk(k: Seq<u32>, iv: Seq<u8>, bs: nat, data: Seq<u8>, j: int)
    requires
        bs > 0,
        0 <= j,
        j * bs < data.len(),
    ensures
        cfb_encrypt_blocks(k, iv, bs, data).len() == data.len(),
        forall|i: int|
            0 <= i < chunk_len(data.skip(j * bs), bs) ==> #[trigger] cfb_encrypt_blocks(
                k,
                iv,
                bs,
                data,
            )[j * bs + i] == data[j * bs + i] ^ keystream(
                if j == 0 {
                    iv
                } else {
                    cfb_encrypt_blocks(k, iv, bs, data).subrange(j * bs - bs, j * bs)
                },
                k,
            )[i],
    decreases j, 1int,
{
    lemma_cfb_len(k, iv, bs, data);
    if j == 0 {
        assert(j * bs == 0) by (nonlinear_arith)
            requires
                j == 0,
        ;
        assert(data.skip(0) =~= data);
        lemma_cfb_first_chunk(k, iv, bs, data);
    } else {
        lemma_cfb_chunk_step(k, iv, bs, data, j);
    }
}

proof fn lemma_cfb_chunk_step(k: Seq<u32>, iv: Seq<u8>, bs: nat, data: Seq<u8>, j: int)
    requires
        bs > 0,
        j >= 1,
        j * bs < data.len(),
    ensures
        forall|i: int|
            0 <= i < chunk_len(data.skip(j * bs), bs) ==> #[trigger] cfb_encrypt_blocks(
                k,
                iv,
                bs,
                data,
            )[j * bs + i] == data[j * bs + i] ^ keystream(
                cfb_encrypt_blocks(k, iv, bs, data).subrange(j * bs - bs, j * bs),
                k,
            )[i],
    decreases j, 0int,
{
    let q = j * bs;
    let p = (j - 1) * bs;
    assert(q >= bs && p == q - bs) by (nonlinear_arith)
        requires
            j >= 1,
            q == j * bs,
            p == (j - 1) * bs,
    ;
    let m = chunk_len(data, bs);
    assert(m == bs);
    let c = xor_prefix(data.take(m), keystream(iv, k));
    let rest = data.skip(m);
    let tail = cfb_encrypt_blocks(k, c, bs, rest);
    let ct = cfb_encrypt_blocks(k, iv, bs, data);
    assert(ct == c + tail);
    lemma_cfb_chunk(k, c, bs, rest, j - 1);
    assert(data.skip(q) =~= rest.skip(p));
    if j == 1 {
        assert(ct.subrange(q - bs, q) =~= c);
    } else {
        assert(p >= bs) by (nonlinear_arith)
            requires
                j >= 2,
                p == (j - 1) * bs,
        ;
        assert(ct.subrange(q - bs, q) =~= tail.subrange(p - bs, p));
    }
    assert forall|i: int| 0 <= i < chunk_len(data.skip(q), bs) implies #[trigger] ct[q + i]
        == data[q + i] ^ keystream(ct.subrange(q - bs, q), k)[i] by {
        assert(ct[q + i] == tail[p + i]);
        assert(data[q + i] == rest[p + i]);
    }
}

proof fn lemma_xor_twice(a: u8, m: u8)
    ensures
        (a ^ m) ^ m == a,
{
    assert((a ^ m) ^ m == a) by (bit_vector);
}

/// Round-trip law of ciphertext feedback: decryption from the same starting
/// block gives back the plaintext, whatever the block size and however short
/// the last chunk.
pub proof fn lemma_cfb_round_trip(k: Seq<u32>, iv: Seq<u8>, bs: nat, data: Seq<u8>)
    requires
        bs > 0,
    ensures
        cfb_decrypt_blocks(k, iv, bs, cfb_encrypt_blocks(k, iv, bs, data)) == data,
    decreases data.len(),
{
    if data.len() > 0 {
        let m = chunk_len(data, bs);
        let mask = keystream(iv, k);
        let c = xor_prefix(data.take(m), mask);
        let rest = cfb_encrypt_blocks(k, c, bs, data.skip(m));
        let e = c + rest;
        lemma_cfb_len(k, c, bs, data.skip(m));
        lemma_cfb_round_trip(k, c, bs, data.skip(m));
        assert(chunk_len(e, bs) == m);
        assert(e.take(m) =~= c);
        assert(e.skip(m) =~= rest);
        assert forall|i: int| 0 <= i < m implies #[trigger] xor_prefix(c, mask)[i] == data[i] by {
            lemma_xor_twice(data[i], mask[i]);
        }
        assert(xor_prefix(c, mask) + data.skip(m) =~= data);
    }
}

/// The first fault of a ciphertext-feedback configuration, in the order they
/// are looked for, if it has one.
pub open spec fn cfb_args_fault(a: XxteaCfbArgs) -> Option<CipherError> {
    if a.key is None || a.iv is None || a.block_size is None {
        Some(CipherError::MissingField)
    } else if parsed_usize(field_bytes(a.block_size)) is None {
        Some(CipherError::InvalidBlockSize)
    } else if parsed_usize(field_bytes(a.block_size))->Some_0 < 8 {
        Some(CipherError::BlockSizeTooSmall)
    } else if field_bytes(a.iv).len() == 0 {
        Some(CipherError::EmptyIv)
    } else if field_bytes(a.iv).len() < parsed_usize(field_bytes(a.block_size))->Some_0 {
        Some(CipherError::IvTooShort)
    } else {
        None
    }
}

/// `x` is the cipher that the configuration describes.
pub open spec fn cfb_from_args(x: XxteaCfb, args: XxteaCfbArgs) -> bool {
    &&& x.iv() == field_bytes(args.iv)
    &&& x.block_size() == parsed_usize(field_bytes(args.block_size))->Some_0
    &&& x.key() == key_of(field_bytes(args.key))
    &&& x.valid()
}

/// `data[start..end]` combined byte by byte with the start of `mask`.
fn xor_chunk(data: &[u8], start: usize, end: usize, mask: &Vec<u8>) -> (r: Vec<u8>)
    requires
        start <= end <= data@.len(),
        end - start <= mask@.len(),
    ensures
        r@ == xor_prefix(data@.subrange(start as int, end as int), mask@),
{
    let mut out: Vec<u8> = Vec::new();
    let mut i = start;
    while i < end
        invariant
            start <= i <= end,
            end <= data@.len(),
            end - start <= mask@.len(),
            out@ == xor_prefix(data@.subrange(start as int, i as int), mask@),
        decreases end - i,
    {
        out.push(data[i] ^ mask[i - start]);
        i += 1;
        assert(out@ =~= xor_prefix(data@.subrange(start as int, i as int), mask@));
    }
    out
}

/// XXTEA in ciphertext-feedback mode: each chunk is combined with the
/// encryption of the previous ciphertext block, the first with that of the
/// initialisation vector.
pub struct XxteaCfb {
    iv: Vec<u8>,
    block_size: usize,
    key: [u32; 4],
}

impl XxteaCfb {
    pub closed spec fn iv(self) -> Seq<u8> {
        self.iv@
    }

    pub closed spec fn block_size(self) -> nat {
        self.block_size as nat
    }

    pub closed spec fn key(self) -> Seq<u32> {
        self.key@
    }

    pub fn try_new(args: &XxteaCfbArgs) -> (r: Result<XxteaCfb, CipherError>)
        ensures
            match cfb_args_fault(*args) {
                Some(e) => r == Err::<XxteaCfb, CipherError>(e),
                None => r matches Ok(x) && cfb_from_args(x, *args),
            },
    {
        let (key, iv, block_size) = match (&args.key, &args.iv, &args.block_size) {
            (Some(k), Some(i), Some(b)) => (k, i, b),
            _ => {
                return Err(CipherError::MissingField);
            },
        };
        let block_size = match parse_usize(block_size.as_str().as_bytes()) {
            Some(v) => v,
            None => {
                return Err(CipherError::InvalidBlockSize);
            },
        };
        if block_size < 8 {
            return Err(CipherError::BlockSizeTooSmall);
        }
        let iv_bytes = iv.as_str().as_bytes();
        if iv_bytes.len() == 0 {
            return Err(CipherError::EmptyIv);
        }
        if iv_bytes.len() < block_size {
            return Err(CipherError::IvTooShort);
        }
        let iv = copy_range(iv_bytes, 0, iv_bytes.len());
        assert(iv_bytes@.subrange(0, iv_bytes@.len() as int) =~= iv_bytes@);
        Ok(XxteaCfb { iv, block_size, key: key_from(key) })
    }

    /// The mask for the block after `prev`.
    fn mask(&self, prev: &Vec<u8>) -> (r: Vec<u8>)
        requires
            self.valid(),
            prev@.len() == self.block_size(),
        ensures
            r@ == keystream(prev@, self.key()),
            r@.len() == 4 * ((self.block_size() + 3) / 4),
    {
        let words = to_u32(prev.as_slice(), false);
        let encrypted = encrypt_(words, &self.key);
        match to_bytes(encrypted.as_slice(), false) {
            Ok(v) => v,
            Err(_) => vstd::pervasive::unreached(),
        }
    }

    /// Encrypts the chunks of `data`, feeding each ciphertext chunk forward.
    fn run_encrypt(&self, data: &[u8]) -> (r: Result<Vec<u8>, CipherError>)
        requires
            self.valid(),
            data@.len() <= MAX_DATA_LEN,
        ensures
            match r {
                Ok(v) => self.encrypt_spec(data@) == Ok::<Seq<u8>, CipherError>(v@),
                Err(e) => self.encrypt_spec(data@) == Err::<Seq<u8>, CipherError>(e),
            },
    {
        let bs = self.block_size;
        let n = data.len();
        let ghost k = self.key();
        let ghost whole = cfb_encrypt_blocks(k, self.iv@.take(bs as int), bs as nat, data@);
        let mut res: Vec<u8> = Vec::new();
        let mut prev = copy_range(self.iv.as_slice(), 0, bs);
        let mut i: usize = 0;
        assert(data@.skip(0) =~= data@);
        assert(res@ + whole =~= whole);
        while i < n
            invariant
                self.valid(),
                bs == self.block_size(),
                k == self.key(),
                n == data@.len(),
                0 <= i <= n,
                i < n ==> prev@.len() == bs,
                i > 0 ==> bs % 4 == 0,
                res@ + cfb_encrypt_blocks(k, prev@, bs as nat, data@.skip(i as int)) == whole,
            decreases n - i,
        {
            let inter = self.mask(&prev);
            if inter.len() != bs {
                return Err(CipherError::BlockLengthMismatch);
            }
            let end = if n - i < bs {
                n
            } else {
                i + bs
            };
            let c = xor_chunk(data, i, end, &inter);
            proof {
                lemma_cfb_encrypt_step(k, prev@, bs as nat, data@, i as int, end as int);
            }
            let ghost before = res@;
            append_bytes(&mut res, c.as_slice());
            assert(res@ + cfb_encrypt_blocks(k, c@, bs as nat, data@.skip(end as int)) =~= before
                + cfb_encrypt_blocks(k, prev@, bs as nat, data@.skip(i as int)));
            prev = c;
            i = end;
        }
        assert(res@ =~= whole);
        Ok(res)
    }

    /// Decrypts the chunks of `data`, feeding each ciphertext chunk received
    /// forward.
    fn run_decrypt(&self, data: &[u8]) -> (r: Result<Vec<u8>, CipherError>)
        requires
            self.valid(),
            data@.len() <= MAX_DATA_LEN,
        ensures
            match r {
                Ok(v) => self.decrypt_spec(data@) == Ok::<Seq<u8>, CipherError>(v@),
                Err(e) => self.decrypt_spec(data@) == Err::<Seq<u8>, CipherError>(e),
            },
    {
        let bs = self.block_size;
        let n = data.len();
        let ghost k = self.key();
        let ghost whole = cfb_decrypt_blocks(k, self.iv@.take(bs as int), bs as nat, data@);
        let mut res: Vec<u8> = Vec::new();
        let mut prev = copy_range(self.iv.as_slice(), 0, bs);
        let mut i: usize = 0;
        assert(data@.skip(0) =~= data@);
        assert(res@ + whole =~= whole);
        while i < n
            invariant
                self.valid(),
                bs == self.block_size(),
                k == self.key(),
                n == data@.len(),
                0 <= i <= n,
                i < n ==> prev@.len() == bs,
                i > 0 ==> bs % 4 == 0,
                res@ + cfb_decrypt_blocks(k, prev@, bs as nat, data@.skip(i as int)) == whole,
            decreases n - i,
        {
            let inter = self.mask(&prev);
            if inter.len() != bs {
                return Err(CipherError::BlockLengthMismatch);
            }
            let end = if n - i < bs {
                n
            } else {
                i + bs
            };
            let c = xor_chunk(data, i, end, &inter);
            proof {
                lemma_cfb_decrypt_step(k, prev@, bs as nat, data@, i as int, end as int);
            }
            let ghost before = res@;
            append_bytes(&mut res, c.as_slice());
            let next = copy_range(data, i, end);
            assert(res@ + cfb_decrypt_blocks(k, next@, bs as nat, data@.skip(end as int))
                =~= before + cfb_decrypt_blocks(k, prev@, bs as nat, data@.skip(i as int)));
            prev = next;
            i = end;
        }
        assert(res@ =~= whole);
        Ok(res)
    }
}

proof fn lemma_cfb_encrypt_step(k: Seq<u32>, prev: Seq<u8>, bs: nat, data: Seq<u8>, i: int, end: int)
    requires
        bs > 0,
        0 <= i < end <= data.len(),
        end == if data.len() - i < bs { data.len() as int } else { i + bs },
    ensures
        cfb_encrypt_blocks(k, prev, bs, data.skip(i)) == xor_prefix(
            data.subrange(i, end),
            keystream(prev, k),
        ) + cfb_encrypt_blocks(
            k,
            xor_prefix(data.subrange(i, end), keystream(prev, k)),
            bs,
            data.skip(end),
        ),
{
    let rest = data.skip(i);
    assert(rest.take(end - i) =~= data.subrange(i, end));
    assert(rest.skip(end - i) =~= data.skip(end));
}

proof fn lemma_cfb_decrypt_step(k: Seq<u32>, prev: Seq<u8>, bs: nat, data: Seq<u8>, i: int, end: int)
    requires
        bs > 0,
        0 <= i < end <= data.len(),
        end == if data.len() - i < bs { data.len() as int } else { i + bs },
    ensures
        cfb_decrypt_blocks(k, prev, bs, data.skip(i)) == xor_prefix(
            data.subrange(i, end),
            keystream(prev, k),
        ) + cfb_decrypt_blocks(k, data.subrange(i, end), bs, data.skip(end)),
{
    let rest = data.skip(i);
    assert(rest.take(end - i) =~= data.subrange(i, end));
    assert(rest.skip(end - i) =~= data.skip(end));
}

impl Algorithm for XxteaCfb {
    open spec fn valid(&self) -> bool {
        8 <= self.block_size() <= self.iv().len()
    }

    /// A block size that is not a multiple of four cannot carry its own
    /// encryption: work on such a block is refused.
    open spec fn encrypt_spec(&self, data: Seq<u8>) -> Result<Seq<u8>, CipherError> {
        if data.len() > 0 && self.block_size() % 4 != 0 {
            Err(CipherError::BlockLengthMismatch)
        } else {
            Ok(
                cfb_encrypt_blocks(
                    self.key(),
                    self.iv().take(self.block_size() as int),
                    self.block_size(),
                    data,
                ),
            )
        }
    }

    open spec fn decrypt_spec(&self, data: Seq<u8>) -> Result<Seq<u8>, CipherError> {
        if data.len() > 0 && self.block_size() % 4 != 0 {
            Err(CipherError::BlockLengthMismatch)
        } else {
            Ok(
                cfb_decrypt_blocks(
                    self.key(),
                    self.iv().take(self.block_size() as int),
                    self.block_size(),
                    data,
                ),
            )
        }
    }

    fn encrypt(&self, data: &[u8]) -> (r: Result<Vec<u8>, CipherError>) {
        self.run_encrypt(data)
    }

    fn decrypt(&self, data: &[u8]) -> (r: Result<Vec<u8>, CipherError>) {
        self.run_decrypt(data)
    }
}

/// Round-trip law of the configured mode: with a block size that is a multiple
/// of four, decryption gives back every buffer that encryption took.
pub proof fn lemma_xxtea_cfb_round_trip(c: XxteaCfb, data: Seq<u8>)
    requires
        c.valid(),
        c.block_size() % 4 == 0,
    ensures
        c.encrypt_spec(data) matches Ok(e) && c.decrypt_spec(e) == Ok::<Seq<u8>, CipherError>(
            data,
        ),
{
    let k = c.key();
    let iv = c.iv().take(c.block_size() as int);
    lemma_cfb_round_trip(k, iv, c.block_size(), data);
}

} // verus!
