//! A single rotor: a wiring read at an offset that grows as the rotor turns.

use crate::alphabet::{is_lower, is_wiring, letter_at, letter_index, lemma_wiring_index, wiring_index};
use vstd::arithmetic::div_mod::lemma_add_mod_noop;
use vstd::prelude::*;

verus! {

#[derive(Debug, Clone, Copy)]
pub struct Rotor {
    pub wiring: [u8; 26],
    pub notch_position: u8,
    /// Turns made so far; read modulo 26.
    pub position: usize,
}

impl Rotor {
    pub open spec fn wf(self) -> bool {
        is_wiring(self.wiring@)
    }

    /// The letter that `letter` becomes on its way in.
    pub open spec fn forward(self, letter: u8) -> u8 {
        self.wiring@[(letter_index(letter) + self.position) % 26]
    }

    /// The letter that `letter` becomes on its way back.
    pub open spec fn inverse(self, letter: u8) -> u8 {
        letter_at((wiring_index(self.wiring@, letter) + 26 - self.position % 26) % 26)
    }

    /// The notch fires one step before the letter shown beside it.
    pub open spec fn aligned(self) -> bool {
        self.position % 26 == (self.notch_position + 19) % 26
    }

    pub fn get_output(&self, letter: u8) -> (r: u8)
        requires
            is_lower(letter),
        ensures
            r == self.forward(letter),
    {
        let index = (letter - 97) as usize;
        proof {
            lemma_add_mod_noop(index as int, self.position as int, 26);
        }
        self.wiring[(index + self.position % 26) % 26]
    }

    pub fn get_output_inverted(&self, letter: u8) -> (r: u8)
        requires
            is_lower(letter),
            self.wiring@.contains(letter),
        ensures
            r == self.inverse(letter),
    {
        let mut i: usize = 0;
        while self.wiring[i] != letter
            invariant
                0 <= i < 26,
                self.wiring@.contains(letter),
                forall|j: int| 0 <= j < i ==> self.wiring@[j] != letter,
            decreases 26 - i,
        {
            i += 1;
            if i == 26 {
                proof {
                    let k = choose|k: int| 0 <= k < 26 && self.wiring@[k] == letter;
                    assert(self.wiring@[k] != letter);
                }
            }
        }
        proof {
            let w = self.wiring@;
            let k = wiring_index(w, letter);
            assert(0 <= i < w.len() && w[i as int] == letter && forall|j: int|
                0 <= j < i ==> w[j] != letter);
            if k < i {
                assert(w[k] != letter);
            } else if k > i {
                assert(w[i as int] != letter);
            }
        }
        let index = (i + (26 - self.position % 26)) % 26;
        97 + index as u8
    }

    pub fn is_aligned(&self) -> (r: bool)
        ensures
            r == self.aligned(),
    {
        self.position % 26 == (self.notch_position as usize + 19) % 26
    }
}

/// Turning back undoes turning in: for a wired rotor, `inverse` and `forward`
/// are mutually inverse on the alphabet.
pub proof fn lemma_rotor_inverse(r: Rotor, letter: u8)
    requires
        r.wf(),
        is_lower(letter),
    ensures
        is_lower(r.forward(letter)),
        is_lower(r.inverse(letter)),
        r.inverse(r.forward(letter)) == letter,
        r.forward(r.inverse(letter)) == letter,
{
    let w = r.wiring@;
    let a = letter_index(letter);
    let p = r.position as int;
    let q = p % 26;
    lemma_add_mod_noop(a, p, 26);
    assert(a % 26 == a);
    let k = (a + q) % 26;
    assert(k == (a + p) % 26);
    assert(k == if a + q < 26 { a + q } else { a + q - 26 });
    lemma_wiring_index(w, k);
    assert((k + 26 - q) % 26 == a);
    assert(w.contains(letter));
    let i = choose|i: int| 0 <= i < w.len() && w[i] == letter;
    lemma_wiring_index(w, i);
    let j = (i + 26 - q) % 26;
    assert(j == if i >= q { i - q } else { i + 26 - q });
    lemma_add_mod_noop(j, p, 26);
    assert(j % 26 == j);
    assert((j + q) % 26 == i);
}

} // verus!
