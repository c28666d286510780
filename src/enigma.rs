//! The Enigma machine: plugboard, three rotors and a reflector.

use crate::alphabet::{
    is_alpha, is_lower, is_upper, is_wiring, letter_at, letter_index, to_lower, to_u8_array_26,
    is_shuffled_alphabet,
};
use crate::cipher::{Algorithm, CipherError, MAX_DATA_LEN};
use crate::plugboard::{is_lowercase_pair_list, plugboard_of, read_pairs, Plugboard};
use crate::reflector::Reflector;
use crate::rotor::Rotor;
use crate::rotor_assembly::{advanced, lemma_assembly_inverse, RotorAssembly};
use crate::settings::{
    decimal_value, field_bytes, is_index, is_index_numeral, lemma_digits_value_nonneg,
    parse_usize, unsigned_digits, EnigmaArgs,
};
use vstd::prelude::*;
use vstd::string::StringSliceAdditionalSpecFns;
use vstd::utf8::encode_utf8;

verus! {

/// The letters of `data`, in order and in lowercase; every other byte dropped.
pub open spec fn letters_of(data: Seq<u8>) -> Seq<u8> {
    data.filter(|b: u8| is_alpha(b)).map_values(|b: u8| to_lower(b))
}

/// How many bytes of `data` are ASCII letters.
pub open spec fn letter_count(data: Seq<u8>) -> nat {
    data.filter(|b: u8| is_alpha(b)).len()
}

/// The assembly after `n` steps.
pub open spec fn rotations(a: RotorAssembly, n: nat) -> RotorAssembly
    decreases n,
{
    if n == 0 {
        a
    } else {
        rotations(a, (n - 1) as nat).rotated()
    }
}

/// `w` undoes itself: the letter at `w[i]`'s place is the `i`-th letter.
pub open spec fn is_involution(w: Seq<u8>) -> bool {
    forall|i: int| 0 <= i < 26 ==> w[letter_index(#[trigger] w[i])] == letter_at(i)
}

pub struct Enigma {
    reflector: Reflector,
    rotor_assembly: RotorAssembly,
    plugboard: Plugboard,
}

impl Enigma {
    pub closed spec fn reflector(self) -> Reflector {
        self.reflector
    }

    /// The rotors as configured, before any step.
    pub closed spec fn rotors(self) -> RotorAssembly {
        self.rotor_assembly
    }

    pub closed spec fn plugboard(self) -> Seq<u8> {
        self.plugboard@
    }

    /// Every wiring a permutation of the alphabet and the rotors at their
    /// starting places.
    pub open spec fn wf(self) -> bool {
        &&& is_wiring(self.reflector().wiring@)
        &&& self.rotors().wf()
        &&& is_wiring(self.plugboard())
        &&& self.rotors().0[0].position <= 25
        &&& self.rotors().0[1].position <= 25
        &&& self.rotors().0[2].position <= 25
    }

    /// One letter through the machine with the rotors standing as in `a`:
    /// plugboard, rotors forward, reflector, rotors backward, plugboard.
    pub open spec fn encipher(self, a: RotorAssembly, x: u8) -> u8 {
        let p = self.plugboard();
        let x1 = p[letter_index(x)];
        let x2 = a.forward(x1);
        let x3 = self.reflector().reflected(x2);
        let x4 = a.backward(x3);
        p[letter_index(x4)]
    }

    /// The machine's output for `data`: its `i`-th letter enciphered after
    /// `i + 1` steps from the configured rotor positions.
    pub open spec fn transform(self, data: Seq<u8>) -> Seq<u8> {
        let l = letters_of(data);
        Seq::new(l.len(), |i: int| self.encipher(rotations(self.rotors(), (i + 1) as nat), l[i]))
    }

    /// A machine from its parts.
    pub fn new(reflector: Reflector, rotor_assembly: RotorAssembly, plugboard: Plugboard) -> (r:
        Enigma)
        ensures
            r.reflector() == reflector,
            r.rotors() == rotor_assembly,
            r.plugboard() == plugboard@,
    {
        Enigma { reflector, rotor_assembly, plugboard }
    }
}

/// `b` is `r` moved on by at most `n` steps.
pub open spec fn moved_at_most(r: Rotor, b: Rotor, n: nat) -> bool {
    r.position <= b.position <= r.position + n
}

/// Steps keep the wirings.
proof fn lemma_rotations_wf(a: RotorAssembly, n: nat)
    requires
        a.wf(),
    ensures
        rotations(a, n).wf(),
    decreases n,
{
    if n > 0 {
        lemma_rotations_wf(a, (n - 1) as nat);
        let p = rotations(a, (n - 1) as nat);
        let q = p.rotated();
        assert(q.0[0].wiring == p.0[0].wiring);
        assert(q.0[1].wiring == p.0[1].wiring);
        assert(q.0[2].wiring == p.0[2].wiring);
    }
}

/// Each step moves each rotor by at most one place.
proof fn lemma_rotations(a: RotorAssembly, n: nat)
    requires
        a.wf(),
        a.0[0].position + n <= usize::MAX,
        a.0[1].position + n <= usize::MAX,
        a.0[2].position + n <= usize::MAX,
    ensures
        rotations(a, n).wf(),
        moved_at_most(a.0[0], rotations(a, n).0[0], n),
        moved_at_most(a.0[1], rotations(a, n).0[1], n),
        moved_at_most(a.0[2], rotations(a, n).0[2], n),
    decreases n,
{
    lemma_rotations_wf(a, n);
    if n > 0 {
        lemma_rotations(a, (n - 1) as nat);
        let p = rotations(a, (n - 1) as nat);
        let q = p.rotated();
        assert(q.0[0] == advanced(p.0[0], p.0[0].aligned() || p.0[1].aligned()));
        assert(q.0[1] == advanced(p.0[1], p.0[1].aligned() || p.0[2].aligned()));
        assert(q.0[2] == advanced(p.0[2], true));
    }
}

/// The letters of a one-longer prefix.
proof fn lemma_letters_of_prefix(s: Seq<u8>, i: int)
    requires
        0 <= i < s.len(),
    ensures
        letters_of(s.take(i + 1)) == if is_alpha(s[i]) {
            letters_of(s.take(i)).push(to_lower(s[i]))
        } else {
            letters_of(s.take(i))
        },
{
    reveal(Seq::filter);
    let t = s.take(i + 1);
    assert(t.drop_last() =~= s.take(i));
    let f = t.filter(|b: u8| is_alpha(b));
    let g = s.take(i).filter(|b: u8| is_alpha(b));
    if is_alpha(s[i]) {
        assert(f == g.push(s[i]));
        assert(f.map_values(|b: u8| to_lower(b)) =~= g.map_values(|b: u8| to_lower(b)).push(
            to_lower(s[i]),
        ));
    } else {
        assert(f == g);
    }
}

/// Filtering a run of letters for letters keeps all of it.
proof fn lemma_filter_letters(s: Seq<u8>)
    requires
        forall|i: int| 0 <= i < s.len() ==> is_alpha(#[trigger] s[i]),
    ensures
        s.filter(|b: u8| is_alpha(b)) == s,
    decreases s.len(),
{
    reveal(Seq::filter);
    if s.len() > 0 {
        let d = s.drop_last();
        assert forall|i: int| 0 <= i < d.len() implies is_alpha(#[trigger] d[i]) by {
            assert(d[i] == s[i]);
        }
        lemma_filter_letters(d);
        assert(d.push(s.last()) =~= s);
    }
}

/// A run of lowercase letters has itself as its letters.
proof fn lemma_letters_of_lowercase(s: Seq<u8>)
    requires
        forall|i: int| 0 <= i < s.len() ==> is_lower(#[trigger] s[i]),
    ensures
        letters_of(s) == s,
{
    lemma_filter_letters(s);
    assert(s.map_values(|b: u8| to_lower(b)) =~= s);
}

/// The output for a one-longer prefix of the input.
proof fn lemma_transform_prefix(e: Enigma, data: Seq<u8>, i: int)
    requires
        0 <= i < data.len(),
    ensures
        e.transform(data.take(i + 1)) == if is_alpha(data[i]) {
            e.transform(data.take(i)).push(
                e.encipher(
                    rotations(e.rotors(), (e.transform(data.take(i)).len() + 1) as nat),
                    to_lower(data[i]),
                ),
            )
        } else {
            e.transform(data.take(i))
        },
{
    lemma_letters_of_prefix(data, i);
    if is_alpha(data[i]) {
        assert(e.transform(data.take(i + 1)) =~= e.transform(data.take(i)).push(
            e.encipher(
                rotations(e.rotors(), (e.transform(data.take(i)).len() + 1) as nat),
                to_lower(data[i]),
            ),
        ));
    } else {
        assert(e.transform(data.take(i + 1)) =~= e.transform(data.take(i)));
    }
}

impl Enigma {
    /// Enciphers the letters of `data` from the configured rotor positions.
    fn run(&self, data: &[u8]) -> (r: Vec<u8>)
        requires
            self.wf(),
            data@.len() <= MAX_DATA_LEN,
        ensures
            r@ == self.transform(data@),
    {
        let mut rotors = self.rotor_assembly;
        let mut out: Vec<u8> = Vec::new();
        let n = data.len();
        let mut i: usize = 0;
        proof {
            reveal(Seq::filter);
            assert(data@.take(0) =~= Seq::<u8>::empty());
            assert(self.transform(data@.take(0)) =~= Seq::<u8>::empty());
        }
        while i < n
            invariant
                self.wf(),
                n == data@.len(),
                n <= MAX_DATA_LEN,
                0 <= i <= n,
                out@.len() <= i,
                rotors == rotations(self.rotors(), out@.len() as nat),
                out@ == self.transform(data@.take(i as int)),
            decreases n - i,
        {
            let b = data[i];
            proof {
                lemma_transform_prefix(*self, data@, i as int);
                lemma_rotations(self.rotors(), out@.len() as nat);
                lemma_rotations(self.rotors(), (out@.len() + 1) as nat);
            }
            if (65 <= b && b <= 90) || (97 <= b && b <= 122) {
                let letter = if b <= 90 {
                    b + 32
                } else {
                    b
                };
                rotors.rotate();
                let l1 = self.plugboard.get_output(letter);
                let l2 = rotors.get_output(l1);
                let l3 = self.reflector.reflect(l2);
                let l4 = rotors.get_output_inverse(l3);
                let l5 = self.plugboard.get_output(l4);
                out.push(l5);
            }
            i += 1;
        }
        assert(data@.take(n as int) =~= data@);
        out
    }
}

impl Algorithm for Enigma {
    open spec fn valid(&self) -> bool {
        self.wf()
    }

    open spec fn encrypt_spec(&self, data: Seq<u8>) -> Result<Seq<u8>, CipherError> {
        Ok(self.transform(data))
    }

    /// The machine is its own inverse: decryption is encryption.
    open spec fn decrypt_spec(&self, data: Seq<u8>) -> Result<Seq<u8>, CipherError> {
        Ok(self.transform(data))
    }

    fn encrypt(&self, data: &[u8]) -> (r: Result<Vec<u8>, CipherError>) {
        Ok(self.run(data))
    }

    fn decrypt(&self, data: &[u8]) -> (r: Result<Vec<u8>, CipherError>) {
        Ok(self.run(data))
    }
}

/// An involutive wiring applied twice leaves a letter in place.
proof fn lemma_involution_twice(w: Seq<u8>, x: u8)
    requires
        is_wiring(w),
        is_involution(w),
        is_lower(x),
    ensures
        is_lower(w[letter_index(x)]),
        w[letter_index(w[letter_index(x)])] == x,
{
    let i = letter_index(x);
    assert(w[letter_index(w[i])] == letter_at(i));
}

/// One letter enciphered twice with the rotors standing still comes back, when
/// the reflector and the plugboard undo themselves.
proof fn lemma_encipher_twice(e: Enigma, a: RotorAssembly, x: u8)
    requires
        a.wf(),
        is_wiring(e.reflector().wiring@),
        is_wiring(e.plugboard()),
        is_involution(e.reflector().wiring@),
        is_involution(e.plugboard()),
        is_lower(x),
    ensures
        is_lower(e.encipher(a, x)),
        e.encipher(a, e.encipher(a, x)) == x,
{
    let p = e.plugboard();
    let rw = e.reflector().wiring@;
    lemma_involution_twice(p, x);
    let x1 = p[letter_index(x)];
    lemma_assembly_inverse(a, x1);
    let x2 = a.forward(x1);
    lemma_involution_twice(rw, x2);
    let x3 = rw[letter_index(x2)];
    lemma_assembly_inverse(a, x3);
    let x4 = a.backward(x3);
    lemma_involution_twice(p, x4);
    let y = p[letter_index(x4)];
    assert(e.encipher(a, x) == y);
    assert(p[letter_index(y)] == x4);
    assert(a.forward(x4) == x3);
    assert(rw[letter_index(x3)] == x2);
    assert(a.backward(x2) == x1);
    assert(p[letter_index(x1)] == x);
}

/// Self-inverse law: with an involutive reflector and plugboard, running the
/// machine twice from its configured state gives back the letters of the
/// input, lowercased; every other byte is dropped.
pub proof fn lemma_self_inverse(e: Enigma, m: Seq<u8>)
    requires
        e.wf(),
        is_involution(e.reflector().wiring@),
        is_involution(e.plugboard()),
    ensures
        e.encrypt_spec(m) matches Ok(c) && e.decrypt_spec(c) == Ok::<Seq<u8>, CipherError>(
            letters_of(m),
        ),
{
    let c = e.transform(m);
    let l = letters_of(m);
    assert forall|i: int| 0 <= i < l.len() implies is_lower(#[trigger] l[i]) by {
        m.lemma_filter_pred(|b: u8| is_alpha(b), i);
    }
    assert forall|i: int| 0 <= i < c.len() implies is_lower(#[trigger] c[i]) by {
        lemma_rotations_wf(e.rotors(), (i + 1) as nat);
        lemma_encipher_twice(e, rotations(e.rotors(), (i + 1) as nat), l[i]);
    }
    lemma_letters_of_lowercase(c);
    assert forall|i: int| 0 <= i < l.len() implies #[trigger] e.transform(c)[i] == l[i] by {
        lemma_rotations_wf(e.rotors(), (i + 1) as nat);
        lemma_encipher_twice(e, rotations(e.rotors(), (i + 1) as nat), l[i]);
    }
    assert(e.transform(c) =~= l);
}

/// Output-length law: the machine writes one letter for each ASCII letter of
/// its input, and nothing for any other byte.
pub proof fn lemma_output_length(e: Enigma, m: Seq<u8>)
    ensures
        e.encrypt_spec(m) matches Ok(c) && c.len() == letter_count(m),
{
}

/// A present field that is a permutation of the alphabet.
pub open spec fn wiring_field(f: Option<String>) -> bool {
    f is Some && is_wiring(field_bytes(f))
}

/// A present field that names a place in the alphabet.
pub open spec fn index_field(f: Option<String>) -> bool {
    f is Some && is_index(field_bytes(f))
}

/// The bytes of the plugboard field; an absent one reads as empty.
pub open spec fn pairs_bytes(f: Option<String>) -> Seq<u8> {
    match f {
        Some(s) => encode_utf8(s@),
        None => Seq::empty(),
    }
}

/// What an Enigma configuration must hold: every field but the plugboard
/// present, four permutations of the alphabet, notches and positions from 0
/// to 25, and lowercase letter pairs on the plugboard.
pub open spec fn enigma_args_valid(a: EnigmaArgs) -> bool {
    &&& wiring_field(a.refl_wiring)
    &&& wiring_field(a.rot1_wiring)
    &&& wiring_field(a.rot2_wiring)
    &&& wiring_field(a.rot3_wiring)
    &&& index_field(a.rot1_notch)
    &&& index_field(a.rot2_notch)
    &&& index_field(a.rot3_notch)
    &&& index_field(a.rot1_position)
    &&& index_field(a.rot2_position)
    &&& index_field(a.rot3_position)
    &&& is_lowercase_pair_list(pairs_bytes(a.plugboard))
}

/// The number in a present numeric field.
pub open spec fn field_value(f: Option<String>) -> int {
    decimal_value(field_bytes(f))->Some_0
}

/// `r` is the rotor that the three fields describe.
pub open spec fn rotor_from(
    r: Rotor,
    wiring: Option<String>,
    notch: Option<String>,
    position: Option<String>,
) -> bool {
    &&& r.wiring@ == field_bytes(wiring)
    &&& r.notch_position == field_value(notch)
    &&& r.position == field_value(position)
}

/// `m` is the machine that the configuration describes, rotor 1 in the
/// leftmost slot; an absent plugboard field means no pairs.
pub open spec fn enigma_from_args(m: Enigma, args: EnigmaArgs) -> bool {
    &&& m.wf()
    &&& m.reflector().wiring@ == field_bytes(args.refl_wiring)
    &&& rotor_from(m.rotors().0[0], args.rot1_wiring, args.rot1_notch, args.rot1_position)
    &&& rotor_from(m.rotors().0[1], args.rot2_wiring, args.rot2_notch, args.rot2_position)
    &&& rotor_from(m.rotors().0[2], args.rot3_wiring, args.rot3_notch, args.rot3_position)
    &&& plugboard_of(pairs_bytes(args.plugboard)) == Some(m.plugboard())
}

fn wiring_ok(f: &Option<String>) -> (r: bool)
    ensures
        r == wiring_field(*f),
{
    match f {
        Some(s) => is_shuffled_alphabet(s.as_str()),
        None => false,
    }
}

fn index_ok(f: &Option<String>) -> (r: bool)
    ensures
        r == index_field(*f),
{
    match f {
        Some(s) => is_index_numeral(s.as_str().as_bytes()),
        None => false,
    }
}

/// Whether `bytes` is a pair list in lowercase.
fn lowercase_pairs_ok(bytes: &[u8]) -> (r: bool)
    ensures
        r == is_lowercase_pair_list(bytes@),
{
    if read_pairs(bytes).is_none() {
        return false;
    }
    let mut i: usize = 0;
    while i < bytes.len()
        invariant
            0 <= i <= bytes@.len(),
            plugboard_of(bytes@) is Some,
            forall|j: int| 0 <= j < i ==> !is_upper(#[trigger] bytes@[j]),
        decreases bytes@.len() - i,
    {
        if 65 <= bytes[i] && bytes[i] <= 90 {
            return false;
        }
        i += 1;
    }
    true
}

fn pairs_ok(f: &Option<String>) -> (r: bool)
    ensures
        r == is_lowercase_pair_list(pairs_bytes(*f)),
{
    match f {
        Some(s) => lowercase_pairs_ok(s.as_str().as_bytes()),
        None => {
            proof {
                reveal_with_fuel(crate::plugboard::apply_pairs, 1);
            }
            lowercase_pairs_ok(&[])
        },
    }
}

/// A rotor from fields that `wiring_ok` and `index_ok` accepted.
fn rotor_of(wiring: &Option<String>, notch: &Option<String>, position: &Option<String>) -> (r:
    Rotor)
    requires
        wiring_field(*wiring),
        index_field(*notch),
        index_field(*position),
    ensures
        rotor_from(r, *wiring, *notch, *position),
        r.wf(),
        r.position <= 25,
{
    match (wiring, notch, position) {
        (Some(w), Some(n), Some(p)) => {
            proof {
                lemma_digits_value_nonneg(unsigned_digits(field_bytes(*notch)));
                lemma_digits_value_nonneg(unsigned_digits(field_bytes(*position)));
            }
            let notch = parse_usize(n.as_str().as_bytes());
            let position = parse_usize(p.as_str().as_bytes());
            match (notch, position) {
                (Some(nv), Some(pv)) => Rotor {
                    wiring: to_u8_array_26(w.as_str()),
                    notch_position: nv as u8,
                    position: pv,
                },
                _ => vstd::pervasive::unreached(),
            }
        },
        _ => vstd::pervasive::unreached(),
    }
}

impl Enigma {
    fn validate_args(args: &EnigmaArgs) -> (r: bool)
        ensures
            r == enigma_args_valid(*args),
    {
        wiring_ok(&args.refl_wiring) && wiring_ok(&args.rot1_wiring) && wiring_ok(
            &args.rot2_wiring,
        ) && wiring_ok(&args.rot3_wiring) && index_ok(&args.rot1_notch) && index_ok(
            &args.rot2_notch,
        ) && index_ok(&args.rot3_notch) && index_ok(&args.rot1_position) && index_ok(
            &args.rot2_position,
        ) && index_ok(&args.rot3_position) && pairs_ok(&args.plugboard)
    }

    /// A machine from its configuration fields, rotor 1 in the leftmost slot;
    /// an absent plugboard field means no pairs.
    pub fn try_new(args: &EnigmaArgs) -> (r: Result<Enigma, CipherError>)
        ensures
            r is Ok <==> enigma_args_valid(*args),
            r matches Err(e) ==> e == CipherError::InvalidEnigmaSettings,
            r matches Ok(m) ==> enigma_from_args(m, *args),
    {
        if !Enigma::validate_args(args) {
            return Err(CipherError::InvalidEnigmaSettings);
        }
        let reflector = match &args.refl_wiring {
            Some(w) => Reflector { wiring: to_u8_array_26(w.as_str()) },
            None => vstd::pervasive::unreached(),
        };
        let r1 = rotor_of(&args.rot1_wiring, &args.rot1_notch, &args.rot1_position);
        let r2 = rotor_of(&args.rot2_wiring, &args.rot2_notch, &args.rot2_position);
        let r3 = rotor_of(&args.rot3_wiring, &args.rot3_notch, &args.rot3_position);
        let plugboard = match &args.plugboard {
            Some(p) => Plugboard::new(p.as_str()),
            None => {
                proof {
                    reveal_strlit("");
                    reveal_with_fuel(crate::plugboard::apply_pairs, 1);
                }
                Plugboard::new("")
            },
        };
        let m = Enigma { reflector, rotor_assembly: RotorAssembly::new([r1, r2, r3]), plugboard };
        assert(m.rotors().0[0] == r1);
        assert(m.rotors().0[1] == r2);
        assert(m.rotors().0[2] == r3);
        Ok(m)
    }
}

} // verus!
