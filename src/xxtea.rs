//! The XXTEA block cipher on a buffer of 32-bit words.

use vstd::arithmetic::div_mod::lemma_add_mod_noop;
use vstd::prelude::*;

verus! {

pub const DELTA: u32 = 0x9e37_79b9;

/// Addition modulo 2^32.
pub open spec fn wadd(a: u32, b: u32) -> u32 {
    ((a + b) % 0x1_0000_0000) as u32
}

/// Subtraction modulo 2^32.
pub open spec fn wsub(a: u32, b: u32) -> u32 {
    ((a - b + 0x1_0000_0000) % 0x1_0000_0000) as u32
}

/// The round count for a buffer of `len` words.
pub open spec fn rounds(len: int) -> int {
    6int + 52int / len
}

/// The running sum in round `r`: `r` times `DELTA`, modulo 2^32.
pub open spec fn round_sum(r: int) -> u32 {
    ((r * DELTA) % 0x1_0000_0000) as u32
}

/// The key selector of a round.
pub open spec fn key_select(sum: u32) -> u32 {
    (sum >> 2u32) & 3u32
}

/// The mixing function.
pub open spec fn mx_spec(sum: u32, y: u32, z: u32, p: u32, e: u32, k: Seq<u32>) -> u32 {
    wadd((z >> 5u32) ^ (y << 2u32), (y >> 3u32) ^ (z << 4u32)) ^ wadd(
        sum ^ y,
        k[((p & 3u32) ^ e) as int] ^ z,
    )
}

/// The mix for word `p`, between its neighbours `y` (after) and `z` (before).
pub open spec fn mix_at(v: Seq<u32>, p: int, y: u32, z: u32, sum: u32, k: Seq<u32>) -> u32 {
    mx_spec(sum, y, z, (p % 4) as u32, key_select(sum), k)
}

/// Encryption of word `p`: its successor is still unchanged (or is the
/// first word, already changed), its predecessor already changed (or is the
/// last word, not yet changed in this round).
pub open spec fn enc_step(v: Seq<u32>, p: int, sum: u32, k: Seq<u32>) -> Seq<u32> {
    let n = v.len() - 1;
    let y = if p < n {
        v[p + 1]
    } else {
        v[0]
    };
    let z = if p == 0 {
        v[n]
    } else {
        v[p - 1]
    };
    v.update(p, wadd(v[p], mix_at(v, p, y, z, sum, k)))
}

/// The first `j` words of a round of encryption, in order.
pub open spec fn enc_sweep(v: Seq<u32>, j: int, sum: u32, k: Seq<u32>) -> Seq<u32>
    decreases j,
{
    if j <= 0 {
        v
    } else {
        enc_step(enc_sweep(v, j - 1, sum, k), j - 1, sum, k)
    }
}

/// The first `r` rounds of encryption.
pub open spec fn enc_rounds(v: Seq<u32>, r: int, k: Seq<u32>) -> Seq<u32>
    decreases r,
{
    if r <= 0 {
        v
    } else {
        let w = enc_rounds(v, r - 1, k);
        enc_sweep(w, w.len() as int, round_sum(r), k)
    }
}

/// XXTEA encryption of `v` under the key `k`.
pub open spec fn xxtea_encrypt(v: Seq<u32>, k: Seq<u32>) -> Seq<u32> {
    enc_rounds(v, rounds(v.len() as int), k)
}

/// Decryption of word `p`, the reverse of `enc_step`.
pub open spec fn dec_step(v: Seq<u32>, p: int, sum: u32, k: Seq<u32>) -> Seq<u32> {
    let n = v.len() - 1;
    let y = if p == n {
        v[0]
    } else {
        v[p + 1]
    };
    let z = if p == 0 {
        v[n]
    } else {
        v[p - 1]
    };
    v.update(p, wsub(v[p], mix_at(v, p, y, z, sum, k)))
}

/// The last `j` words of a round of decryption, from the last word down.
pub open spec fn dec_sweep(v: Seq<u32>, j: int, sum: u32, k: Seq<u32>) -> Seq<u32>
    decreases j,
{
    if j <= 0 {
        v
    } else {
        dec_step(dec_sweep(v, j - 1, sum, k), v.len() - j, sum, k)
    }
}

/// Rounds `r` down to 1 of decryption.
pub open spec fn dec_rounds(v: Seq<u32>, r: int, k: Seq<u32>) -> Seq<u32>
    decreases r,
{
    if r <= 0 {
        v
    } else {
        dec_rounds(dec_sweep(v, v.len() as int, round_sum(r), k), r - 1, k)
    }
}

/// XXTEA decryption of `v` under the key `k`.
pub open spec fn xxtea_decrypt(v: Seq<u32>, k: Seq<u32>) -> Seq<u32> {
    dec_rounds(v, rounds(v.len() as int), k)
}

proof fn lemma_key_index(p: u32, e: u32)
    requires
        e < 4,
    ensures
        (p & 3u32) ^ e < 4,
{
    assert((p & 3u32) ^ e < 4) by (bit_vector)
        requires
            e < 4,
    ;
}

proof fn lemma_key_select(sum: u32)
    ensures
        key_select(sum) < 4,
{
    assert((sum >> 2u32) & 3u32 < 4) by (bit_vector);
}

proof fn lemma_round_sum_next(r: int)
    requires
        r >= 0,
    ensures
        wadd(round_sum(r), DELTA) == round_sum(r + 1),
{
    lemma_add_mod_noop(r * DELTA, DELTA as int, 0x1_0000_0000);
    assert(r * DELTA + DELTA == (r + 1) * DELTA) by (nonlinear_arith);
    assert((DELTA as int) % 0x1_0000_0000 == DELTA);
}

/// The mixing function.
fn mx(sum: u32, y: u32, z: u32, p: u32, e: u32, k: &[u32; 4]) -> (r: u32)
    requires
        e < 4,
    ensures
        r == mx_spec(sum, y, z, p, e, k@),
{
    proof {
        lemma_key_index(p, e);
    }
    ((z >> 5u32 ^ y << 2u32).wrapping_add(y >> 3u32 ^ z << 4u32)) ^ ((sum ^ y).wrapping_add(
        k[((p & 3u32) ^ e) as usize] ^ z,
    ))
}

/// One round of encryption with the running sum `sum`.
fn encrypt_round(v: &mut Vec<u32>, sum: u32, key: &[u32; 4])
    requires
        old(v)@.len() >= 1,
    ensures
        final(v)@ == enc_sweep(old(v)@, old(v)@.len() as int, sum, key@),
{
    let ghost start = v@;
    let length = v.len();
    let n = length - 1;
    let e = (sum >> 2u32) & 3u32;
    proof {
        lemma_key_select(sum);
    }
    let mut z = v[n];
    let mut p: usize = 0;
    while p < n
        invariant
            v@.len() == length,
            start.len() == length,
            n == length - 1,
            0 <= p <= n,
            e == key_select(sum),
            e < 4,
            v@ == enc_sweep(start, p as int, sum, key@),
            z == if p == 0 {
                v@[n as int]
            } else {
                v@[p - 1]
            },
            forall|i: int| p <= i < length ==> v@[i] == start[i],
        decreases n - p,
    {
        let y = v[p + 1];
        let m = mx(sum, y, z, (p % 4) as u32, e, key);
        let updated = v[p].wrapping_add(m);
        v.set(p, updated);
        z = updated;
        p += 1;
    }
    let y = v[0];
    let m = mx(sum, y, z, (n % 4) as u32, e, key);
    let updated = v[n].wrapping_add(m);
    v.set(n, updated);
}

/// One round of decryption with the running sum `sum`.
fn decrypt_round(v: &mut Vec<u32>, sum: u32, key: &[u32; 4])
    requires
        old(v)@.len() >= 1,
    ensures
        final(v)@ == dec_sweep(old(v)@, old(v)@.len() as int, sum, key@),
{
    let ghost start = v@;
    let length = v.len();
    let n = length - 1;
    let e = (sum >> 2u32) & 3u32;
    proof {
        lemma_key_select(sum);
    }
    let mut y = v[0];
    let mut p: usize = n;
    while p > 0
        invariant
            v@.len() == length,
            start.len() == length,
            n == length - 1,
            0 <= p <= n,
            e == key_select(sum),
            e < 4,
            v@ == dec_sweep(start, (n - p) as int, sum, key@),
            y == if p == n {
                v@[0]
            } else {
                v@[p + 1]
            },
            forall|i: int| 0 <= i <= p ==> v@[i] == start[i],
        decreases p,
    {
        let z = v[p - 1];
        let m = mx(sum, y, z, (p % 4) as u32, e, key);
        let updated = v[p].wrapping_sub(m);
        v.set(p, updated);
        y = updated;
        p -= 1;
    }
    let z = v[n];
    let m = mx(sum, y, z, 0, e, key);
    let updated = v[0].wrapping_sub(m);
    v.set(0, updated);
}

/// Encrypts the words of `v`; `v` must hold at least one word.
pub fn encrypt_(v: Vec<u32>, key: &[u32; 4]) -> (r: Vec<u32>)
    requires
        1 <= v@.len(),
    ensures
        r@ == xxtea_encrypt(v@, key@),
        r@.len() == v@.len(),
{
    let mut v = v;
    let length = v.len();
    let q = 6 + 52 / length;
    let ghost v0 = v@;
    let mut sum: u32 = 0;
    let mut done: usize = 0;
    assert(round_sum(0) == 0);
    while done < q
        invariant
            v@.len() == length,
            length == v0.len(),
            1 <= length,
            q == rounds(length as int),
            0 <= done <= q,
            sum == round_sum(done as int),
            v@ == enc_rounds(v0, done as int, key@),
        decreases q - done,
    {
        proof {
            lemma_round_sum_next(done as int);
            lemma_enc_sweep_frame(v@, length as int, round_sum(done + 1), key@);
        }
        sum = sum.wrapping_add(DELTA);
        encrypt_round(&mut v, sum, key);
        done += 1;
    }
    v
}

/// Decrypts the words of `v`; `v` must hold at least one word.
pub fn decrypt_(v: Vec<u32>, key: &[u32; 4]) -> (r: Vec<u32>)
    requires
        1 <= v@.len(),
    ensures
        r@ == xxtea_decrypt(v@, key@),
        r@.len() == v@.len(),
{
    let mut v = v;
    let length = v.len();
    let q = 6 + 52 / length;
    let ghost v0 = v@;
    let mut sum: u32 = (q as u32).wrapping_mul(DELTA);
    let mut left: usize = q;
    while left > 0
        invariant
            v@.len() == length,
            length == v0.len(),
            1 <= length,
            q == rounds(length as int),
            0 <= left <= q,
            sum == round_sum(left as int),
            xxtea_decrypt(v0, key@) == dec_rounds(v@, left as int, key@),
        decreases left,
    {
        proof {
            lemma_dec_sweep_len(v@, length as int, sum, key@);
            lemma_round_sum_next(left - 1);
        }
        decrypt_round(&mut v, sum, key);
        sum = sum.wrapping_sub(DELTA);
        left -= 1;
    }
    proof {
        lemma_dec_rounds_len(v0, q as int, key@);
    }
    v
}

proof fn lemma_wsub_wadd(a: u32, m: u32)
    ensures
        wsub(wadd(a, m), m) == a,
{
}

/// A sweep of encryption changes each word once: the words it has reached
/// keep the value they took then, the others are as before.
proof fn lemma_enc_sweep_frame(v: Seq<u32>, j: int, sum: u32, k: Seq<u32>)
    requires
        v.len() >= 1,
        0 <= j <= v.len(),
    ensures
        enc_sweep(v, j, sum, k).len() == v.len(),
        forall|i: int| j <= i < v.len() ==> #[trigger] enc_sweep(v, j, sum, k)[i] == v[i],
        forall|i: int|
            0 <= i < j ==> #[trigger] enc_sweep(v, j, sum, k)[i] == enc_sweep(v, i + 1, sum, k)[i],
    decreases j,
{
    if j > 0 {
        lemma_enc_sweep_frame(v, j - 1, sum, k);
    }
}

/// A sweep of decryption over an encrypted round restores, from the last word
/// down, the words it has reached.
proof fn lemma_dec_sweep_enc(v: Seq<u32>, j: int, sum: u32, k: Seq<u32>)
    requires
        v.len() >= 2,
        0 <= j <= v.len(),
    ensures
        dec_sweep(enc_sweep(v, v.len() as int, sum, k), j, sum, k).len() == v.len(),
        forall|i: int|
            v.len() - j <= i < v.len() ==> #[trigger] dec_sweep(
                enc_sweep(v, v.len() as int, sum, k),
                j,
                sum,
                k,
            )[i] == v[i],
        forall|i: int|
            0 <= i < v.len() - j ==> #[trigger] dec_sweep(
                enc_sweep(v, v.len() as int, sum, k),
                j,
                sum,
                k,
            )[i] == enc_sweep(v, v.len() as int, sum, k)[i],
    decreases j,
{
    let len = v.len() as int;
    let n = len - 1;
    let w = enc_sweep(v, len, sum, k);
    lemma_enc_sweep_frame(v, len, sum, k);
    if j > 0 {
        lemma_dec_sweep_enc(v, j - 1, sum, k);
        let u = dec_sweep(w, j - 1, sum, k);
        let p = len - j;
        // How word `p` was encrypted.
        let s = enc_sweep(v, p, sum, k);
        lemma_enc_sweep_frame(v, p, sum, k);
        lemma_enc_sweep_frame(v, p + 1, sum, k);
        assert(w[p] == enc_sweep(v, p + 1, sum, k)[p]);
        let y = if p < n {
            v[p + 1]
        } else {
            w[0]
        };
        let z = if p == 0 {
            v[n]
        } else {
            w[p - 1]
        };
        if p == n {
            lemma_enc_sweep_frame(v, 1, sum, k);
            assert(s[0] == w[0]);
            assert(s[p - 1] == enc_sweep(v, p, sum, k)[p - 1]);
            assert(s[p - 1] == w[p - 1]);
        } else if p > 0 {
            assert(s[p - 1] == w[p - 1]);
        }
        assert(w[p] == wadd(v[p], mix_at(v, p, y, z, sum, k)));
        // How word `p` is decrypted.
        assert(u[p] == w[p]);
        if p == n {
            assert(u[0] == w[0]);
            assert(u[p - 1] == w[p - 1]);
        } else if p > 0 {
            assert(u[p + 1] == v[p + 1]);
            assert(u[p - 1] == w[p - 1]);
        } else {
            assert(u[1] == v[1]);
            assert(u[n] == v[n]);
        }
        lemma_wsub_wadd(v[p], mix_at(v, p, y, z, sum, k));
    }
}

/// A sweep of decryption keeps the length.
proof fn lemma_dec_sweep_len(v: Seq<u32>, j: int, sum: u32, k: Seq<u32>)
    requires
        0 <= j <= v.len(),
    ensures
        dec_sweep(v, j, sum, k).len() == v.len(),
    decreases j,
{
    if j > 0 {
        lemma_dec_sweep_len(v, j - 1, sum, k);
    }
}

/// The length of a buffer does not change under decryption.
proof fn lemma_dec_rounds_len(v: Seq<u32>, r: int, k: Seq<u32>)
    ensures
        dec_rounds(v, r, k).len() == v.len(),
    decreases r,
{
    if r > 0 {
        lemma_dec_sweep_len(v, v.len() as int, round_sum(r), k);
        lemma_dec_rounds_len(dec_sweep(v, v.len() as int, round_sum(r), k), r - 1, k);
    }
}

/// The length of a buffer does not change under encryption.
proof fn lemma_enc_rounds_len(v: Seq<u32>, r: int, k: Seq<u32>)
    requires
        v.len() >= 1,
    ensures
        enc_rounds(v, r, k).len() == v.len(),
    decreases r,
{
    if r > 0 {
        lemma_enc_rounds_len(v, r - 1, k);
        let w = enc_rounds(v, r - 1, k);
        lemma_enc_sweep_frame(w, w.len() as int, round_sum(r), k);
    }
}

proof fn lemma_dec_enc_rounds(v: Seq<u32>, r: int, k: Seq<u32>)
    requires
        v.len() >= 2,
        r >= 0,
    ensures
        dec_rounds(enc_rounds(v, r, k), r, k) == v,
    decreases r,
{
    if r > 0 {
        lemma_dec_enc_rounds(v, r - 1, k);
        lemma_enc_rounds_len(v, r - 1, k);
        let w = enc_rounds(v, r - 1, k);
        let len = w.len() as int;
        lemma_dec_sweep_enc(w, len, round_sum(r), k);
        lemma_enc_sweep_frame(w, len, round_sum(r), k);
        assert(dec_sweep(enc_sweep(w, len, round_sum(r), k), len, round_sum(r), k) =~= w);
    }
}

/// Decryption undoes encryption for every buffer of two or more words and
/// every key. (A single word is mixed with itself, and is not restored.)
pub proof fn lemma_xxtea_round_trip(v: Seq<u32>, k: Seq<u32>)
    requires
        v.len() >= 2,
    ensures
        xxtea_encrypt(v, k).len() == v.len(),
        xxtea_decrypt(xxtea_encrypt(v, k), k) == v,
{
    lemma_enc_rounds_len(v, rounds(v.len() as int), k);
    lemma_dec_enc_rounds(v, rounds(v.len() as int), k);
}

} // verus!
