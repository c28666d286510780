//! The reflector: a fixed substitution that sends the signal back.

use crate::alphabet::{is_lower, letter_index};
use vstd::prelude::*;

verus! {

#[derive(Debug, Clone, Copy)]
pub struct Reflector {
    pub wiring: [u8; 26],
}

impl Reflector {
    pub open spec fn reflected(self, letter: u8) -> u8 {
        self.wiring@[letter_index(letter)]
    }

    pub fn reflect(&self, letter: u8) -> (r: u8)
        requires
            is_lower(letter),
        ensures
            r == self.reflected(letter),
    {
        self.wiring[(letter - 97) as usize]
    }
}

} // verus!
