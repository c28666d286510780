//! Three rotors side by side, slot 2 the fastest and slot 0 the slowest.

use crate::alphabet::is_lower;
use crate::rotor::{lemma_rotor_inverse, Rotor};
use vstd::prelude::*;

verus! {

#[derive(Debug, Clone, Copy)]
pub struct RotorAssembly(pub [Rotor; 3]);

/// `r` moved on by `by` steps.
pub open spec fn advanced(r: Rotor, by: bool) -> Rotor {
    Rotor { position: (r.position + if by { 1int } else { 0int }) as usize, ..r }
}

impl RotorAssembly {
    pub open spec fn wf(self) -> bool {
        self.0[0].wf() && self.0[1].wf() && self.0[2].wf()
    }

    /// No position is about to run past the largest `usize`.
    pub open spec fn can_rotate(self) -> bool {
        self.0[0].position < usize::MAX && self.0[1].position < usize::MAX && self.0[2].position
            < usize::MAX
    }

    /// One step of the machine: the right rotor always turns; each of the other
    /// two turns when it or its right-hand neighbour is aligned, which makes the
    /// middle rotor step twice in a row when it reaches its own notch.
    pub open spec fn rotated(self) -> RotorAssembly {
        let r = self.0;
        RotorAssembly(
            [
                advanced(r[0], r[0].aligned() || r[1].aligned()),
                advanced(r[1], r[1].aligned() || r[2].aligned()),
                advanced(r[2], true),
            ],
        )
    }

    /// The rotors read right to left.
    pub open spec fn forward(self, letter: u8) -> u8 {
        self.0[0].forward(self.0[1].forward(self.0[2].forward(letter)))
    }

    /// The rotors read left to right, each one backwards.
    pub open spec fn backward(self, letter: u8) -> u8 {
        self.0[2].inverse(self.0[1].inverse(self.0[0].inverse(letter)))
    }

    pub fn new(rotors: [Rotor; 3]) -> (r: RotorAssembly)
        ensures
            r.0 == rotors,
    {
        RotorAssembly(rotors)
    }

    pub fn rotate(&mut self)
        requires
            old(self).can_rotate(),
        ensures
            *final(self) == old(self).rotated(),
    {
        let r0 = self.0[0];
        let r1 = self.0[1];
        let r2 = self.0[2];
        let a0 = r0.is_aligned();
        let a1 = r1.is_aligned();
        let a2 = r2.is_aligned();
        let mut n0 = r0;
        let mut n1 = r1;
        let mut n2 = r2;
        if a0 || a1 {
            n0.position = r0.position + 1;
        }
        if a1 || a2 {
            n1.position = r1.position + 1;
        }
        n2.position = r2.position + 1;
        self.0 = [n0, n1, n2];
        assert(self.0 =~= old(self).rotated().0);
    }

    pub fn get_output(&self, letter: u8) -> (r: u8)
        requires
            self.wf(),
            is_lower(letter),
        ensures
            r == self.forward(letter),
            is_lower(r),
    {
        proof {
            lemma_rotor_inverse(self.0[2], letter);
            lemma_rotor_inverse(self.0[1], self.0[2].forward(letter));
            lemma_rotor_inverse(self.0[0], self.0[1].forward(self.0[2].forward(letter)));
        }
        let l1 = self.0[2].get_output(letter);
        let l2 = self.0[1].get_output(l1);
        self.0[0].get_output(l2)
    }

    pub fn get_output_inverse(&self, letter: u8) -> (r: u8)
        requires
            self.wf(),
            is_lower(letter),
        ensures
            r == self.backward(letter),
            is_lower(r),
    {
        proof {
            lemma_rotor_inverse(self.0[0], letter);
            lemma_rotor_inverse(self.0[1], self.0[0].inverse(letter));
            lemma_rotor_inverse(self.0[2], self.0[1].inverse(self.0[0].inverse(letter)));
        }
        let l1 = self.0[0].get_output_inverted(letter);
        let l2 = self.0[1].get_output_inverted(l1);
        self.0[2].get_output_inverted(l2)
    }
}

/// Reading the rotors backwards undoes reading them forwards, both ways round.
pub proof fn lemma_assembly_inverse(a: RotorAssembly, letter: u8)
    requires
        a.wf(),
        is_lower(letter),
    ensures
        is_lower(a.forward(letter)),
        is_lower(a.backward(letter)),
        a.backward(a.forward(letter)) == letter,
        a.forward(a.backward(letter)) == letter,
{
    let r = a.0;
    lemma_rotor_inverse(r[2], letter);
    lemma_rotor_inverse(r[1], r[2].forward(letter));
    lemma_rotor_inverse(r[0], r[1].forward(r[2].forward(letter)));
    lemma_rotor_inverse(r[0], letter);
    lemma_rotor_inverse(r[1], r[0].inverse(letter));
    lemma_rotor_inverse(r[2], r[1].inverse(r[0].inverse(letter)));
}

} // verus!
