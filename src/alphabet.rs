//! Letters of the lowercase ASCII alphabet and the wirings built from them.

use vstd::prelude::*;
use vstd::string::StringSliceAdditionalSpecFns;

verus! {

/// `b` is one of `a..=z`.
pub open spec fn is_lower(b: u8) -> bool {
    97 <= b <= 122
}

/// `b` is one of `A..=Z`.
pub open spec fn is_upper(b: u8) -> bool {
    65 <= b <= 90
}

/// `b` is an ASCII letter of either case.
pub open spec fn is_alpha(b: u8) -> bool {
    is_lower(b) || is_upper(b)
}

/// The lowercase form of an ASCII letter.
pub open spec fn to_lower(b: u8) -> u8 {
    if is_upper(b) {
        (b + 32) as u8
    } else {
        b
    }
}

/// Position of a lowercase letter in the alphabet, `a` being 0.
pub open spec fn letter_index(b: u8) -> int {
    b - 97
}

/// The lowercase letter at position `i` of the alphabet.
pub open spec fn letter_at(i: int) -> u8 {
    (97 + i) as u8
}

/// A wiring is a permutation of the alphabet: 26 lowercase letters, each
/// letter present, none repeated.
pub open spec fn is_wiring(w: Seq<u8>) -> bool {
    &&& w.len() == 26
    &&& forall|i: int| 0 <= i < 26 ==> is_lower(#[trigger] w[i])
    &&& forall|i: int, j: int| 0 <= i < j < 26 ==> w[i] != w[j]
    &&& forall|c: u8| is_lower(c) ==> w.contains(c)
}

/// The first position at which `x` occurs in `w`.
pub open spec fn wiring_index(w: Seq<u8>, x: u8) -> int {
    choose|i: int| 0 <= i < w.len() && w[i] == x && forall|j: int| 0 <= j < i ==> w[j] != x
}

/// In a wiring, the position of each letter is the one place where it stands.
pub proof fn lemma_wiring_index(w: Seq<u8>, i: int)
    requires
        is_wiring(w),
        0 <= i < 26,
    ensures
        wiring_index(w, w[i]) == i,
{
    assert(0 <= i < w.len() && w[i] == w[i] && forall|j: int| 0 <= j < i ==> w[j] != w[i]);
    let k = wiring_index(w, w[i]);
    if k != i {
        if k < i {
            assert(w[k] != w[i]);
        } else {
            assert(w[i] != w[k]);
        }
    }
}

/// Copies the 26 bytes of `s` into an array.
pub fn to_u8_array_26(s: &str) -> (r: [u8; 26])
    requires
        s.spec_bytes().len() == 26,
    ensures
        r@ == s.spec_bytes(),
{
    let bytes = s.as_bytes();
    let mut arr = [0u8; 26];
    let mut i: usize = 0;
    while i < 26
        invariant
            bytes@ == s.spec_bytes(),
            bytes@.len() == 26,
            0 <= i <= 26,
            forall|j: int| 0 <= j < i ==> arr@[j] == bytes@[j],
        decreases 26 - i,
    {
        arr[i] = bytes[i];
        i += 1;
    }
    assert(arr@ =~= bytes@);
    arr
}

/// Whether `s` is a permutation of the lowercase alphabet.
pub fn is_shuffled_alphabet(s: &str) -> (r: bool)
    ensures
        r == is_wiring(s.spec_bytes()),
{
    let bytes = s.as_bytes();
    if bytes.len() != 26 {
        return false;
    }
    let ghost w = bytes@;
    let mut seen = [false; 26];
    let mut i: usize = 0;
    while i < 26
        invariant
            w == bytes@,
            w == s.spec_bytes(),
            w.len() == 26,
            0 <= i <= 26,
            forall|j: int| 0 <= j < i ==> is_lower(#[trigger] w[j]),
            forall|j: int, k: int| 0 <= j < k < i ==> w[j] != w[k],
            forall|l: int|
                0 <= l < 26 ==> (#[trigger] seen@[l] <==> exists|j: int|
                    0 <= j < i && w[j] == letter_at(l)),
        decreases 26 - i,
    {
        let c = bytes[i];
        if c < 97 || c > 122 {
            return false;
        }
        let idx = (c - 97) as usize;
        if seen[idx] {
            proof {
                let j = choose|j: int| 0 <= j < i && w[j] == letter_at(idx as int);
                assert(w[j] == w[i as int]);
            }
            return false;
        }
        seen[idx] = true;
        i += 1;
    }
    let mut l: usize = 0;
    while l < 26
        invariant
            w == s.spec_bytes(),
            w.len() == 26,
            0 <= l <= 26,
            forall|m: int| 0 <= m < l ==> #[trigger] seen@[m],
            forall|m: int|
                0 <= m < 26 ==> (#[trigger] seen@[m] <==> exists|j: int|
                    0 <= j < 26 && w[j] == letter_at(m)),
        decreases 26 - l,
    {
        if !seen[l] {
            proof {
                let c = letter_at(l as int);
                assert(is_lower(c));
                assert(!w.contains(c));
            }
            return false;
        }
        l += 1;
    }
    assert forall|c: u8| is_lower(c) implies w.contains(c) by {
        let m = c - 97;
        assert(seen@[m]);
        let j = choose|j: int| 0 <= j < 26 && w[j] == letter_at(m);
        assert(w[j] == c);
    }
    true
}

} // verus!
