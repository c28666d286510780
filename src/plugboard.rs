//! The plugboard: letter pairs swapped on the identity permutation.

use crate::alphabet::{is_alpha, is_lower, is_upper, is_wiring, letter_at, letter_index, to_lower};
use vstd::prelude::*;
use vstd::string::StringSliceAdditionalSpecFns;

verus! {

/// ASCII whitespace: space, tab, line feed, vertical tab, form feed, carriage return.
pub open spec fn is_space(b: u8) -> bool {
    b == 32 || (9 <= b <= 13)
}

/// Every letter in its own place.
pub open spec fn identity_wiring() -> Seq<u8> {
    Seq::new(26, |i: int| letter_at(i))
}

/// `w` with the entries at `i` and `j` exchanged.
pub open spec fn swapped(w: Seq<u8>, i: int, j: int) -> Seq<u8> {
    w.update(i, w[j]).update(j, w[i])
}

/// Reads `s` as whitespace-separated pairs of letters (of either case) and
/// swaps, pair by pair, the entries of `w` at the two letters' places;
/// `None` when `s` holds anything else.
pub open spec fn apply_pairs(s: Seq<u8>, w: Seq<u8>) -> Option<Seq<u8>>
    decreases s.len(),
{
    if s.len() == 0 {
        Some(w)
    } else if is_space(s[0]) {
        apply_pairs(s.subrange(1, s.len() as int), w)
    } else if s.len() >= 2 && is_alpha(s[0]) && is_alpha(s[1]) && (s.len() == 2 || is_space(
        s[2],
    )) {
        apply_pairs(
            s.subrange(2, s.len() as int),
            swapped(w, letter_index(to_lower(s[0])), letter_index(to_lower(s[1]))),
        )
    } else {
        None
    }
}

/// The wiring that the pair list `s` describes, if `s` is one.
pub open spec fn plugboard_of(s: Seq<u8>) -> Option<Seq<u8>> {
    apply_pairs(s, identity_wiring())
}

/// A pair list as a configuration accepts it: well formed, and in lowercase.
pub open spec fn is_lowercase_pair_list(s: Seq<u8>) -> bool {
    plugboard_of(s) is Some && forall|i: int| 0 <= i < s.len() ==> !is_upper(#[trigger] s[i])
}

/// Exchanging two entries of a wiring leaves a wiring.
pub proof fn lemma_swapped_wiring(w: Seq<u8>, i: int, j: int)
    requires
        is_wiring(w),
        0 <= i < 26,
        0 <= j < 26,
    ensures
        is_wiring(swapped(w, i, j)),
{
    let v = swapped(w, i, j);
    let src = |k: int|
        if k == j {
            i
        } else if k == i {
            j
        } else {
            k
        };
    assert forall|k: int| 0 <= k < 26 implies v[k] == w[src(k)] by {}
    assert forall|k: int, l: int| 0 <= k < l < 26 implies v[k] != v[l] by {
        let a = src(k);
        let b = src(l);
        assert(a != b);
        if a < b {
            assert(w[a] != w[b]);
        } else {
            assert(w[b] != w[a]);
        }
    }
    assert forall|c: u8| is_lower(c) implies v.contains(c) by {
        assert(w.contains(c));
        let m = choose|m: int| 0 <= m < w.len() && w[m] == c;
        let n = if m == i {
            j
        } else if m == j {
            i
        } else {
            m
        };
        assert(v[n] == c);
    }
}

fn is_space_byte(b: u8) -> (r: bool)
    ensures
        r == is_space(b),
{
    b == 32 || (9 <= b && b <= 13)
}

fn is_alpha_byte(b: u8) -> (r: bool)
    ensures
        r == is_alpha(b),
{
    (97 <= b && b <= 122) || (65 <= b && b <= 90)
}

fn lower_byte(b: u8) -> (r: u8)
    ensures
        r == to_lower(b),
{
    if 65 <= b && b <= 90 {
        b + 32
    } else {
        b
    }
}

fn identity_array() -> (r: [u8; 26])
    ensures
        r@ == identity_wiring(),
        is_wiring(r@),
{
    let mut w = [0u8; 26];
    let mut i: usize = 0;
    while i < 26
        invariant
            0 <= i <= 26,
            forall|j: int| 0 <= j < i ==> w@[j] == letter_at(j),
        decreases 26 - i,
    {
        w[i] = 97 + i as u8;
        i += 1;
    }
    assert(w@ =~= identity_wiring());
    assert forall|c: u8| is_lower(c) implies w@.contains(c) by {
        assert(w@[c - 97] == c);
    }
    w
}

/// Builds the wiring of a pair list, or `None` when the list is malformed.
pub fn read_pairs(bytes: &[u8]) -> (r: Option<[u8; 26]>)
    ensures
        match r {
            Some(w) => plugboard_of(bytes@) == Some(w@),
            None => plugboard_of(bytes@) is None,
        },
        r matches Some(w) ==> is_wiring(w@),
{
    let mut wiring = identity_array();
    let n = bytes.len();
    let mut i: usize = 0;
    assert(bytes@.subrange(0, n as int) =~= bytes@);
    while i < n
        invariant
            n == bytes@.len(),
            0 <= i <= n,
            plugboard_of(bytes@) == apply_pairs(bytes@.subrange(i as int, n as int), wiring@),
            is_wiring(wiring@),
        decreases n - i,
    {
        let ghost s = bytes@.subrange(i as int, n as int);
        let c = bytes[i];
        if is_space_byte(c) {
            assert(s.subrange(1, s.len() as int) =~= bytes@.subrange(i + 1, n as int));
            i += 1;
        } else if i + 1 < n && is_alpha_byte(c) && is_alpha_byte(bytes[i + 1]) && (i + 2 == n
            || is_space_byte(bytes[i + 2])) {
            let a = (lower_byte(c) - 97) as usize;
            let b = (lower_byte(bytes[i + 1]) - 97) as usize;
            proof {
                lemma_swapped_wiring(wiring@, a as int, b as int);
            }
            let ghost expected = swapped(wiring@, a as int, b as int);
            let t = wiring[a];
            wiring[a] = wiring[b];
            wiring[b] = t;
            assert(wiring@ =~= expected);
            assert(s.subrange(2, s.len() as int) =~= bytes@.subrange(i + 2, n as int));
            i += 2;
        } else {
            return None;
        }
    }
    Some(wiring)
}

#[derive(Clone, Copy)]
pub struct Plugboard {
    wiring: [u8; 26],
}

impl View for Plugboard {
    type V = Seq<u8>;

    closed spec fn view(&self) -> Seq<u8> {
        self.wiring@
    }
}

impl Plugboard {
    /// A plugboard from whitespace-separated letter pairs such as `"po ml iu"`;
    /// letters that no pair names stay in place.
    pub fn new(pairs: &str) -> (r: Plugboard)
        requires
            plugboard_of(pairs.spec_bytes()) is Some,
        ensures
            Some(r@) == plugboard_of(pairs.spec_bytes()),
            is_wiring(r@),
    {
        match read_pairs(pairs.as_bytes()) {
            Some(wiring) => Plugboard { wiring },
            None => vstd::pervasive::unreached(),
        }
    }

    pub fn get_output(&self, letter: u8) -> (r: u8)
        requires
            is_lower(letter),
        ensures
            r == self@[letter_index(letter)],
    {
        self.wiring[(letter - 97) as usize]
    }
}

} // verus!
