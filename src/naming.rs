//! Names for the files that encryption and decryption write.

use crate::buffers::append_bytes;
use crate::cipher::Operation;
use vstd::prelude::*;

verus! {

/// The decimal digits of `n`.
pub open spec fn decimal(n: nat) -> Seq<u8>
    decreases n,
{
    if n < 10 {
        seq![(48 + n) as u8]
    } else {
        decimal(n / 10) + seq![(48 + n % 10) as u8]
    }
}

/// The marker that an operation adds to a file's stem.
pub open spec fn marker(op: Operation) -> Seq<u8> {
    match op {
        Operation::Encrypt => seq![95u8, 101, 110, 99, 114, 121, 112, 116, 101, 100],
        Operation::Decrypt => seq![95u8, 100, 101, 99, 114, 121, 112, 116, 101, 100],
    }
}

/// The name of attempt `attempt` at a result file: `stem_encrypted.ext`, then
/// `stem_encrypted (1).ext`, `stem_encrypted (2).ext` and so on
/// (`_decrypted` when decrypting).
pub open spec fn result_name(stem: Seq<u8>, ext: Seq<u8>, op: Operation, attempt: nat) -> Seq<u8> {
    let number = if attempt == 0 {
        Seq::empty()
    } else {
        seq![32u8, 40] + decimal(attempt) + seq![41u8]
    };
    stem + marker(op) + number + seq![46u8] + ext
}

/// A name made of exactly one stem and one extension, split at its only dot.
pub open spec fn split_name(name: Seq<u8>) -> Option<(Seq<u8>, Seq<u8>)> {
    if exists|i: int|
        0 <= i < name.len() && name[i] == 46 && forall|j: int|
            0 <= j < name.len() && j != i ==> name[j] != 46 {
        let i = choose|i: int|
            0 <= i < name.len() && name[i] == 46 && forall|j: int|
                0 <= j < name.len() && j != i ==> name[j] != 46;
        Some((name.take(i), name.skip(i + 1)))
    } else {
        None
    }
}

fn push_decimal(out: &mut Vec<u8>, n: u32)
    ensures
        final(out)@ == old(out)@ + decimal(n as nat),
    decreases n,
{
    if n >= 10 {
        push_decimal(out, n / 10);
    }
    out.push(48 + (n % 10) as u8);
    assert(final(out)@ =~= old(out)@ + decimal(n as nat)) by {
        if n >= 10 {
            assert(decimal(n as nat) == decimal((n / 10) as nat) + seq![(48 + n % 10) as u8]);
        }
    };
}

/// The name of attempt `attempt` at a result file.
pub fn result_file_name(stem: &[u8], extension: &[u8], op: Operation, attempt: u32) -> (r: Vec<
    u8,
>)
    ensures
        r@ == result_name(stem@, extension@, op, attempt as nat),
{
    let mut out: Vec<u8> = Vec::new();
    append_bytes(&mut out, stem);
    let ghost after_stem = out@;
    match op {
        Operation::Encrypt => {
            append_bytes(&mut out, &[95u8, 101, 110, 99, 114, 121, 112, 116, 101, 100]);
        },
        Operation::Decrypt => {
            append_bytes(&mut out, &[95u8, 100, 101, 99, 114, 121, 112, 116, 101, 100]);
        },
    }
    let ghost after_marker = out@;
    assert(after_marker =~= stem@ + marker(op));
    if attempt > 0 {
        out.push(32);
        out.push(40);
        push_decimal(&mut out, attempt);
        out.push(41);
    }
    out.push(46);
    append_bytes(&mut out, extension);
    assert(out@ =~= result_name(stem@, extension@, op, attempt as nat));
    out
}

/// Splits a file name at its only dot; `None` when it has no dot or several.
pub fn split_file_name(name: &[u8]) -> (r: Option<(Vec<u8>, Vec<u8>)>)
    ensures
        match r {
            Some((stem, ext)) => split_name(name@) == Some((stem@, ext@)),
            None => split_name(name@) is None,
        },
{
    let n = name.len();
    let mut dot: Option<usize> = None;
    let mut i: usize = 0;
    while i < n
        invariant
            n == name@.len(),
            0 <= i <= n,
            match dot {
                None => forall|j: int| 0 <= j < i ==> name@[j] != 46,
                Some(d) => d < i && name@[d as int] == 46 && forall|j: int|
                    0 <= j < i && j != d ==> name@[j] != 46,
            },
        decreases n - i,
    {
        if name[i] == 46 {
            match dot {
                Some(d) => {
                    assert forall|k: int|
                        0 <= k < n && name@[k] == 46 implies exists|j: int|
                        0 <= j < n && j != k && name@[j] == 46 by {
                        if k == d {
                            assert(name@[i as int] == 46);
                        } else {
                            assert(name@[d as int] == 46);
                        }
                    }
                    return None;
                },
                None => {
                    dot = Some(i);
                },
            }
        }
        i += 1;
    }
    match dot {
        None => None,
        Some(d) => {
            let mut stem: Vec<u8> = Vec::new();
            let mut j: usize = 0;
            while j < d
                invariant
                    d < n,
                    n == name@.len(),
                    0 <= j <= d,
                    stem@ == name@.take(j as int),
                decreases d - j,
            {
                stem.push(name[j]);
                j += 1;
                assert(stem@ =~= name@.take(j as int));
            }
            let mut ext: Vec<u8> = Vec::new();
            let mut k: usize = d + 1;
            while k < n
                invariant
                    d < n,
                    n == name@.len(),
                    d + 1 <= k <= n,
                    ext@ == name@.subrange(d + 1, k as int),
                decreases n - k,
            {
                ext.push(name[k]);
                k += 1;
                assert(ext@ =~= name@.subrange(d + 1, k as int));
            }
            let ghost c = choose|c: int|
                0 <= c < name@.len() && name@[c] == 46 && forall|j: int|
                    0 <= j < name@.len() && j != c ==> name@[j] != 46;
            assert(name@[d as int] == 46);
            assert(c == d as int) by {
                if c != d {
                    assert(name@[c] != 46);
                }
            }
            assert(ext@ =~= name@.skip(d + 1));
            Some((stem, ext))
        },
    }
}

} // verus!
