//! The settings each cipher is built from, as the user typed them, and the
//! reading of the numbers among them.

use vstd::prelude::*;
use vstd::utf8::encode_utf8;

verus! {

pub open spec fn is_digit(b: u8) -> bool {
    48 <= b <= 57
}

/// The number that a string of decimal digits denotes.
pub open spec fn digits_value(s: Seq<u8>) -> int
    decreases s.len(),
{
    if s.len() == 0 {
        0
    } else {
        digits_value(s.drop_last()) * 10 + (s.last() - 48)
    }
}

/// `s` without one leading `+`.
pub open spec fn unsigned_digits(s: Seq<u8>) -> Seq<u8> {
    if s.len() > 0 && s[0] == 43 {
        s.subrange(1, s.len() as int)
    } else {
        s
    }
}

/// The value of an unsigned decimal numeral: an optional `+` followed by one
/// or more digits.
pub open spec fn decimal_value(s: Seq<u8>) -> Option<int> {
    let d = unsigned_digits(s);
    if d.len() > 0 && forall|i: int| 0 <= i < d.len() ==> is_digit(#[trigger] d[i]) {
        Some(digits_value(d))
    } else {
        None
    }
}

/// The numeral's value where it fits in a `usize`.
pub open spec fn parsed_usize(s: Seq<u8>) -> Option<usize> {
    match decimal_value(s) {
        Some(v) => if v <= usize::MAX {
            Some(v as usize)
        } else {
            None
        },
        None => None,
    }
}

/// A numeral for a place in the alphabet, 0 to 25.
pub open spec fn is_index(s: Seq<u8>) -> bool {
    match decimal_value(s) {
        Some(v) => v <= 25,
        None => false,
    }
}

/// The bytes of a field that is present.
pub open spec fn field_bytes(f: Option<String>) -> Seq<u8> {
    encode_utf8(f->Some_0@)
}

/// A string of digits denotes a number no less than zero.
pub proof fn lemma_digits_value_nonneg(s: Seq<u8>)
    requires
        forall|i: int| 0 <= i < s.len() ==> is_digit(#[trigger] s[i]),
    ensures
        digits_value(s) >= 0,
    decreases s.len(),
{
    if s.len() > 0 {
        lemma_digits_value_nonneg(s.drop_last());
    }
}

/// Reads an unsigned decimal numeral.
pub fn parse_usize(s: &[u8]) -> (r: Option<usize>)
    ensures
        r == parsed_usize(s@),
{
    let n = s.len();
    let mut start: usize = 0;
    if n > 0 && s[0] == 43 {
        start = 1;
    }
    if start == n {
        return None;
    }
    let ghost d = unsigned_digits(s@);
    assert(d =~= s@.subrange(start as int, n as int));
    let mut acc: usize = 0;
    let mut overflow = false;
    let mut i: usize = start;
    assert(s@.subrange(start as int, start as int) =~= Seq::<u8>::empty());
    while i < n
        invariant
            n == s@.len(),
            start <= i <= n,
            start < n,
            d == s@.subrange(start as int, n as int),
            d == unsigned_digits(s@),
            forall|j: int| start <= j < i ==> is_digit(#[trigger] s@[j]),
            !overflow ==> acc == digits_value(s@.subrange(start as int, i as int)),
            overflow ==> digits_value(s@.subrange(start as int, i as int)) > usize::MAX,
        decreases n - i,
    {
        let c = s[i];
        if c < 48 || c > 57 {
            assert(!is_digit(d[i - start]));
            return None;
        }
        let ghost prev = s@.subrange(start as int, i as int);
        assert(s@.subrange(start as int, i + 1).drop_last() =~= prev);
        if !overflow {
            match acc.checked_mul(10) {
                Some(m) => match m.checked_add((c - 48) as usize) {
                    Some(v) => {
                        acc = v;
                    },
                    None => {
                        overflow = true;
                    },
                },
                None => {
                    overflow = true;
                },
            }
        }
        i += 1;
    }
    assert(s@.subrange(start as int, n as int) == d);
    assert forall|j: int| 0 <= j < d.len() implies is_digit(#[trigger] d[j]) by {
        assert(d[j] == s@[start + j]);
    }
    proof {
        lemma_digits_value_nonneg(d);
    }
    if overflow {
        None
    } else {
        Some(acc)
    }
}

/// Whether `s` names a place in the alphabet.
pub fn is_index_numeral(s: &[u8]) -> (r: bool)
    ensures
        r == is_index(s@),
{
    proof {
        if decimal_value(s@) is Some {
            lemma_digits_value_nonneg(unsigned_digits(s@));
        }
    }
    match parse_usize(s) {
        Some(v) => v <= 25,
        None => false,
    }
}

/// The fields of an Enigma configuration: the reflector's wiring, each rotor's
/// wiring, notch and starting position, and the plugboard's letter pairs.
#[derive(Clone)]
pub struct EnigmaArgs {
    pub refl_wiring: Option<String>,
    pub rot1_wiring: Option<String>,
    pub rot1_notch: Option<String>,
    pub rot1_position: Option<String>,
    pub rot2_wiring: Option<String>,
    pub rot2_notch: Option<String>,
    pub rot2_position: Option<String>,
    pub rot3_wiring: Option<String>,
    pub rot3_notch: Option<String>,
    pub rot3_position: Option<String>,
    pub plugboard: Option<String>,
}

impl Default for EnigmaArgs {
    fn default() -> (r: Self)
        ensures
            r.refl_wiring matches Some(s) && s@ == "yruhqsldpxngokmiebfzcwvjat"@,
            r.rot1_wiring matches Some(s) && s@ == "ekmflgdqvzntowyhxuspaibrcj"@,
            r.rot1_notch matches Some(s) && s@ == "8"@,
            r.rot1_position matches Some(s) && s@ == "0"@,
            r.rot2_wiring matches Some(s) && s@ == "ajdksiruxblhwtmcqgznpyfvoe"@,
            r.rot2_notch matches Some(s) && s@ == "8"@,
            r.rot2_position matches Some(s) && s@ == "0"@,
            r.rot3_wiring matches Some(s) && s@ == "bdfhjlcprtxvznyeiwgakmusqo"@,
            r.rot3_notch matches Some(s) && s@ == "0"@,
            r.rot3_position matches Some(s) && s@ == "0"@,
            r.plugboard matches Some(s) && s@ == "po ml iu kj nh yt gb vf re dc"@,
    {
        EnigmaArgs {
            refl_wiring: Some("yruhqsldpxngokmiebfzcwvjat".to_owned()),
            rot1_wiring: Some("ekmflgdqvzntowyhxuspaibrcj".to_owned()),
            rot1_notch: Some("8".to_owned()),
            rot1_position: Some("0".to_owned()),
            rot2_wiring: Some("ajdksiruxblhwtmcqgznpyfvoe".to_owned()),
            rot2_notch: Some("8".to_owned()),
            rot2_position: Some("0".to_owned()),
            rot3_wiring: Some("bdfhjlcprtxvznyeiwgakmusqo".to_owned()),
            rot3_notch: Some("0".to_owned()),
            rot3_position: Some("0".to_owned()),
            plugboard: Some("po ml iu kj nh yt gb vf re dc".to_owned()),
        }
    }
}

/// The field of an XXTEA configuration: the key.
#[derive(Clone)]
pub struct XxteaArgs {
    pub key: Option<String>,
}

impl Default for XxteaArgs {
    fn default() -> (r: Self)
        ensures
            r.key matches Some(s) && s@ == "SecureKey"@,
    {
        XxteaArgs { key: Some("SecureKey".to_owned()) }
    }
}

/// The fields of an XXTEA configuration in ciphertext-feedback mode: the key,
/// the initialisation vector and the block size in bytes.
#[derive(Clone)]
pub struct XxteaCfbArgs {
    pub key: Option<String>,
    pub iv: Option<String>,
    pub block_size: Option<String>,
}

impl Default for XxteaCfbArgs {
    fn default() -> (r: Self)
        ensures
            r.key matches Some(s) && s@ == "SecureKey"@,
            r.iv matches Some(s) && s@ == "asdjgasdjgasdjfasdjkhasdf"@,
            r.block_size matches Some(s) && s@ == "8"@,
    {
        XxteaCfbArgs {
            key: Some("SecureKey".to_owned()),
            iv: Some("asdjgasdjgasdjfasdjkhasdf".to_owned()),
            block_size: Some("8".to_owned()),
        }
    }
}

} // verus!
