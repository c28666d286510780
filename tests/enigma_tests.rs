use cipher_kit::alphabet::{is_shuffled_alphabet, to_u8_array_26};
use cipher_kit::cipher::{Algorithm, CipherError};
use cipher_kit::enigma::Enigma;
use cipher_kit::plugboard::Plugboard;
use cipher_kit::reflector::Reflector;
use cipher_kit::rotor::Rotor;
use cipher_kit::rotor_assembly::RotorAssembly;
use cipher_kit::settings::EnigmaArgs;

fn expected_output(input: &[u8]) -> Vec<u8> {
    input
        .iter()
        .filter_map(|&b| match b {
            b'A'..=b'Z' => Some(b + 32),
            b'a'..=b'z' => Some(b),
            _ => None,
        })
        .collect()
}

fn rotor(wiring: &str, notch_position: u8, position: usize) -> Rotor {
    Rotor {
        wiring: to_u8_array_26(wiring),
        notch_position,
        position,
    }
}

#[test]
fn alg_test_alg() {
    let str = "Hello asdjfk df asdf asd";
    let input = str.as_bytes();

    let enigma = Enigma::try_new(&EnigmaArgs::default()).unwrap();
    let encrypted = enigma.encrypt(&input).unwrap();
    let decrypted = enigma.encrypt(&encrypted).unwrap();

    assert_eq!(decrypted, expected_output(input));
}

#[test]
fn alg_test_rotor_simple() {
    let rotor = rotor("ekmflgdqvzntowyhxuspaibrcj", 0, 0);

    assert_eq!(rotor.get_output('a' as u8), 'e' as u8);
    assert_eq!(rotor.get_output('b' as u8), 'k' as u8);

    assert_eq!(rotor.get_output_inverted('e' as u8), 'a' as u8);
    assert_eq!(rotor.get_output_inverted('k' as u8), 'b' as u8);
}

#[test]
fn alg_test_rotor_with_offset() {
    let mut rotor = rotor("ekmflgdqvzntowyhxuspaibrcj", 0, 1);

    assert_eq!(rotor.get_output('a' as u8), 'k' as u8);
    assert_eq!(rotor.get_output('b' as u8), 'm' as u8);

    assert_eq!(rotor.get_output_inverted('k' as u8), 'a' as u8);
    assert_eq!(rotor.get_output_inverted('m' as u8), 'b' as u8);

    rotor.position = 2;
    assert_eq!(rotor.get_output_inverted('k' as u8), 'z' as u8);
}

#[test]
fn alg_test_assembly() {
    let rotors = RotorAssembly::new([
        rotor("ekmflgdqvzntowyhxuspaibrcj", 8, 0),
        rotor("ajdksiruxblhwtmcqgznpyfvoe", 8, 0),
        rotor("bdfhjlcprtxvznyeiwgakmusqo", 0, 0),
    ]);

    let reflector = Reflector {
        wiring: to_u8_array_26("yruhqsldpxngokmiebfzcwvjat"),
    };

    let l1 = rotors.get_output('g' as u8);
    assert_eq!(l1, 'f' as u8);

    let l2 = reflector.reflect(l1);
    assert_eq!(l2, 's' as u8);

    let l3 = rotors.get_output_inverse(l2);
    assert_eq!(l3, 'p' as u8);
}

#[test]
fn alg_test_rotor_alignment() {
    let mut rotor = rotor("ekmflgdqvzntowyhxuspaibrcj", 0, 0);

    rotor.notch_position = 7;
    rotor.position = 1;
    assert!(rotor.is_aligned() == false);

    rotor.notch_position = 7;
    rotor.position = 0;
    assert!(rotor.is_aligned());

    rotor.notch_position = 8;
    rotor.position = 1;
    assert!(rotor.is_aligned());

    rotor.notch_position = 6;
    rotor.position = 25;
    assert!(rotor.is_aligned());
}

#[test]
fn alg_test_rotating_intense() {
    let mut rotors = RotorAssembly::new([
        rotor("bdfhjlcprtxvznyeiwgakmusqo", 0, 0),
        rotor("ajdksiruxblhwtmcqgznpyfvoe", 8, 0),
        rotor("ekmflgdqvzntowyhxuspaibrcj", 8, 0),
    ]);

    for _ in 0..26 {
        rotors.rotate();
    }

    assert_eq!(rotors.0[2].position, 26);
    assert_eq!(rotors.0[1].position, 2);
    assert_eq!(rotors.0[0].position, 1);
}

#[test]
fn alg_test_rotate_and_output() {
    let mut rotors = RotorAssembly::new([
        rotor("ekmflgdqvzntowyhxuspaibrcj", 8, 0),
        rotor("ajdksiruxblhwtmcqgznpyfvoe", 8, 0),
        rotor("bdfhjlcprtxvznyeiwgakmusqo", 0, 0),
    ]);

    let l1 = rotors.0[2].get_output('g' as u8);
    let l2 = rotors.0[1].get_output(l1);
    let l3 = rotors.0[0].get_output(l2);

    assert_eq!(l1, 'c' as u8);
    assert_eq!(l2, 'd' as u8);
    assert_eq!(l3, 'f' as u8);

    rotors.rotate();

    let l1 = rotors.0[2].get_output('g' as u8);
    let l2 = rotors.0[1].get_output(l1);
    let l3 = rotors.0[0].get_output(l2);

    assert_eq!(l1, 'p' as u8);
    assert_eq!(l2, 'c' as u8);
    assert_eq!(l3, 'm' as u8);

    rotors.rotate();

    let l1 = rotors.0[2].get_output('g' as u8);
    let l2 = rotors.0[1].get_output(l1);
    let l3 = rotors.0[0].get_output(l2);

    assert_eq!(l1, 'r' as u8);
    assert_eq!(l2, 'g' as u8);
    assert_eq!(l3, 'd' as u8);
}

#[test]
fn alg_test_reflector() {
    let reflector = Reflector {
        wiring: to_u8_array_26("yruhqsldpxngokmiebfzcwvjat"),
    };

    assert_eq!(reflector.reflect('a' as u8), 'y' as u8);
    assert_eq!(reflector.reflect('y' as u8), 'a' as u8);

    assert_eq!(reflector.reflect('g' as u8), 'l' as u8);
    assert_eq!(reflector.reflect('l' as u8), 'g' as u8);

    assert_eq!(reflector.reflect('r' as u8), 'b' as u8);
    assert_eq!(reflector.reflect('b' as u8), 'r' as u8);
}

#[test]
fn alg_test_plugboard() {
    let plugboard = Plugboard::new("PO ML IU KJ NH YT GB VF RE DC");

    assert_eq!(plugboard.get_output('a' as u8), 'a' as u8);
    assert_eq!(plugboard.get_output('k' as u8), 'j' as u8);
    assert_eq!(plugboard.get_output('c' as u8), 'd' as u8);
}

#[test]
fn tests_test_alg() {
    let input: Vec<u8> = "Hello asdjfk df asdf asd"
        .chars()
        .map(|c| c.to_ascii_lowercase() as u8)
        .filter(|c| c.is_ascii_alphabetic())
        .collect();

    let enigma = Enigma::new(
        Reflector {
            wiring: to_u8_array_26("yruhqsldpxngokmiebfzcwvjat"),
        },
        RotorAssembly::new([
            rotor("ekmflgdqvzntowyhxuspaibrcj", 8, 0),
            rotor("ajdksiruxblhwtmcqgznpyfvoe", 8, 0),
            rotor("bdfhjlcprtxvznyeiwgakmusqo", 0, 0),
        ]),
        Plugboard::new("PO ML IU KJ NH YT GB VF RE DC"),
    );
    let encrypted = enigma.encrypt(&input).unwrap();
    let decrypted = enigma.encrypt(&encrypted).unwrap();

    assert!(decrypted.eq(&input));
}

#[test]
fn tests_test_rotor_simple() {
    let rotor = rotor("ekmflgdqvzntowyhxuspaibrcj", 0, 0);

    assert_eq!(rotor.get_output('a' as u8), 'e' as u8);
    assert_eq!(rotor.get_output('b' as u8), 'k' as u8);

    assert_eq!(rotor.get_output_inverted('e' as u8), 'a' as u8);
    assert_eq!(rotor.get_output_inverted('k' as u8), 'b' as u8);
}

#[test]
fn tests_test_rotor_with_offset() {
    let mut rotor = rotor("ekmflgdqvzntowyhxuspaibrcj", 0, 1);

    assert_eq!(rotor.get_output('a' as u8), 'k' as u8);
    assert_eq!(rotor.get_output('b' as u8), 'm' as u8);

    assert_eq!(rotor.get_output_inverted('k' as u8), 'a' as u8);
    assert_eq!(rotor.get_output_inverted('m' as u8), 'b' as u8);

    rotor.position = 2;
    assert_eq!(rotor.get_output_inverted('k' as u8), 'z' as u8);
}

#[test]
fn tests_test_assembly() {
    let rotors = RotorAssembly::new([
        rotor("ekmflgdqvzntowyhxuspaibrcj", 8, 0),
        rotor("ajdksiruxblhwtmcqgznpyfvoe", 8, 0),
        rotor("bdfhjlcprtxvznyeiwgakmusqo", 0, 0),
    ]);

    let reflector = Reflector {
        wiring: to_u8_array_26("yruhqsldpxngokmiebfzcwvjat"),
    };

    let l1 = rotors.get_output('g' as u8);
    assert_eq!(l1, 'f' as u8);

    let l2 = reflector.reflect(l1);
    assert_eq!(l2, 's' as u8);

    let l3 = rotors.get_output_inverse(l2);
    assert_eq!(l3, 'p' as u8);
}

#[test]
fn tests_test_rotor_alignment() {
    let mut rotor = rotor("ekmflgdqvzntowyhxuspaibrcj", 0, 0);

    rotor.notch_position = 7;
    rotor.position = 1;
    assert!(rotor.is_aligned() == false);

    rotor.notch_position = 7;
    rotor.position = 0;
    assert!(rotor.is_aligned());

    rotor.notch_position = 8;
    rotor.position = 1;
    assert!(rotor.is_aligned());

    rotor.notch_position = 6;
    rotor.position = 25;
    assert!(rotor.is_aligned());
}

#[test]
fn test_rotating() {
    let mut rotors = RotorAssembly::new([
        rotor("bdfhjlcprtxvznyeiwgakmusqo", 0, 0),
        rotor("ajdksiruxblhwtmcqgznpyfvoe", 8, 0),
        rotor("ekmflgdqvzntowyhxuspaibrcj", 8, 0),
    ]);

    rotors.rotate();
    assert_eq!(rotors.0[2].position, 1);
    assert_eq!(rotors.0[1].position, 0);
    assert_eq!(rotors.0[0].position, 0);

    rotors.rotate();
    assert_eq!(rotors.0[2].position, 2);
    assert_eq!(rotors.0[1].position, 1);
    assert_eq!(rotors.0[0].position, 0);

    rotors.rotate();
    assert_eq!(rotors.0[2].position, 3);
    assert_eq!(rotors.0[1].position, 2);
    assert_eq!(rotors.0[0].position, 1);
}

#[test]
fn tests_test_rotating_intense() {
    let mut rotors = RotorAssembly::new([
        rotor("bdfhjlcprtxvznyeiwgakmusqo", 0, 0),
        rotor("ajdksiruxblhwtmcqgznpyfvoe", 8, 0),
        rotor("ekmflgdqvzntowyhxuspaibrcj", 8, 0),
    ]);

    for _ in 0..26 {
        rotors.rotate();
    }

    assert_eq!(rotors.0[2].position, 26);
    assert_eq!(rotors.0[1].position, 2);
    assert_eq!(rotors.0[0].position, 1);
}

#[test]
fn tests_test_rotate_and_output() {
    let mut rotors = RotorAssembly::new([
        rotor("ekmflgdqvzntowyhxuspaibrcj", 8, 0),
        rotor("ajdksiruxblhwtmcqgznpyfvoe", 8, 0),
        rotor("bdfhjlcprtxvznyeiwgakmusqo", 0, 0),
    ]);

    let l1 = rotors.0[2].get_output('g' as u8);
    let l2 = rotors.0[1].get_output(l1);
    let l3 = rotors.0[0].get_output(l2);

    assert_eq!(l1, 'c' as u8);
    assert_eq!(l2, 'd' as u8);
    assert_eq!(l3, 'f' as u8);

    rotors.rotate();

    let l1 = rotors.0[2].get_output('g' as u8);
    let l2 = rotors.0[1].get_output(l1);
    let l3 = rotors.0[0].get_output(l2);

    assert_eq!(l1, 'p' as u8);
    assert_eq!(l2, 'c' as u8);
    assert_eq!(l3, 'm' as u8);

    rotors.rotate();

    let l1 = rotors.0[2].get_output('g' as u8);
    let l2 = rotors.0[1].get_output(l1);
    let l3 = rotors.0[0].get_output(l2);

    assert_eq!(l1, 'r' as u8);
    assert_eq!(l2, 'g' as u8);
    assert_eq!(l3, 'd' as u8);
}

#[test]
fn tests_test_reflector() {
    let reflector = Reflector {
        wiring: to_u8_array_26("yruhqsldpxngokmiebfzcwvjat"),
    };

    assert_eq!(reflector.reflect('a' as u8), 'y' as u8);
    assert_eq!(reflector.reflect('y' as u8), 'a' as u8);

    assert_eq!(reflector.reflect('g' as u8), 'l' as u8);
    assert_eq!(reflector.reflect('l' as u8), 'g' as u8);

    assert_eq!(reflector.reflect('r' as u8), 'b' as u8);
    assert_eq!(reflector.reflect('b' as u8), 'r' as u8);
}

#[test]
fn tests_test_plugboard() {
    let plugboard = Plugboard::new("PO ML IU KJ NH YT GB VF RE DC");

    assert_eq!(plugboard.get_output('a' as u8), 'a' as u8);
    assert_eq!(plugboard.get_output('k' as u8), 'j' as u8);
    assert_eq!(plugboard.get_output('c' as u8), 'd' as u8);
}

#[test]
fn enigma_default_settings_exact_output() {
    let enigma = Enigma::try_new(&EnigmaArgs::default()).unwrap();
    let encrypted = enigma.encrypt(b"Hello asdjfk df asdf asd").unwrap();
    assert_eq!(encrypted, b"dccefkavwkoekojfayzu".to_vec());
    assert_eq!(enigma.decrypt(&encrypted).unwrap(), b"helloasdjfkdfasdfasd".to_vec());
}

#[test]
fn enigma_without_plugboard_field() {
    let mut args = EnigmaArgs::default();
    args.plugboard = None;
    let enigma = Enigma::try_new(&args).unwrap();
    assert_eq!(enigma.encrypt(b"aaaaa").unwrap(), b"dhlxo".to_vec());
}

#[test]
fn enigma_output_length_counts_letters() {
    let enigma = Enigma::try_new(&EnigmaArgs::default()).unwrap();
    let input = b"12 Ab-c!\n\xffZ";
    let encrypted = enigma.encrypt(input).unwrap();
    assert_eq!(encrypted.len(), 4);
    assert!(encrypted.iter().all(|b| b.is_ascii_lowercase()));
    assert_eq!(enigma.encrypt(b"").unwrap(), Vec::<u8>::new());
    assert_eq!(enigma.encrypt(b"123 !?").unwrap(), Vec::<u8>::new());
}

#[test]
fn enigma_self_inverse_on_long_text() {
    let enigma = Enigma::try_new(&EnigmaArgs::default()).unwrap();
    let text: Vec<u8> = (0..2000u32).map(|i| (i % 97) as u8 + 20).collect();
    let once = enigma.encrypt(&text).unwrap();
    let twice = enigma.decrypt(&once).unwrap();
    assert_eq!(twice, expected_output(&text));
}

#[test]
fn enigma_each_call_restarts_the_rotors() {
    let enigma = Enigma::try_new(&EnigmaArgs::default()).unwrap();
    let first = enigma.encrypt(b"attack at dawn").unwrap();
    let second = enigma.encrypt(b"attack at dawn").unwrap();
    assert_eq!(first, second);
}

#[test]
fn enigma_plugboard_lowercase_pairs() {
    let plugboard = Plugboard::new("po ml iu kj nh yt gb vf re dc");
    assert_eq!(plugboard.get_output(b'a'), b'a');
    assert_eq!(plugboard.get_output(b'k'), b'j');
    assert_eq!(plugboard.get_output(b'c'), b'd');
    assert_eq!(plugboard.get_output(b'j'), b'k');
    let empty = Plugboard::new("");
    assert_eq!(empty.get_output(b'q'), b'q');
    let spaced = Plugboard::new("  ab\tcd \n");
    assert_eq!(spaced.get_output(b'a'), b'b');
    assert_eq!(spaced.get_output(b'd'), b'c');
}

#[test]
fn enigma_rejects_bad_settings() {
    let bad = |edit: fn(&mut EnigmaArgs)| {
        let mut args = EnigmaArgs::default();
        edit(&mut args);
        Enigma::try_new(&args).err()
    };
    let err = Some(CipherError::InvalidEnigmaSettings);
    assert_eq!(bad(|a| a.refl_wiring = None), err);
    assert_eq!(bad(|a| a.rot2_position = None), err);
    assert_eq!(bad(|a| a.rot1_wiring = Some("ekmflgdqvzntowyhxuspaibrce".to_owned())), err);
    assert_eq!(bad(|a| a.rot3_wiring = Some("bdfhjlcprtxvznyeiwgakmusq".to_owned())), err);
    assert_eq!(bad(|a| a.refl_wiring = Some("YRUHQSLDPXNGOKMIEBFZCWVJAT".to_owned())), err);
    assert_eq!(bad(|a| a.rot1_notch = Some("26".to_owned())), err);
    assert_eq!(bad(|a| a.rot2_notch = Some("-1".to_owned())), err);
    assert_eq!(bad(|a| a.rot3_position = Some("".to_owned())), err);
    assert_eq!(bad(|a| a.rot3_position = Some("1a".to_owned())), err);
    assert_eq!(bad(|a| a.plugboard = Some("PO ML".to_owned())), err);
    assert_eq!(bad(|a| a.plugboard = Some("pom l".to_owned())), err);
    assert_eq!(bad(|a| a.plugboard = Some("q7".to_owned())), err);
}

#[test]
fn enigma_accepts_numerals_as_std_reads_them() {
    let mut args = EnigmaArgs::default();
    args.rot1_notch = Some("+8".to_owned());
    args.rot2_notch = Some("008".to_owned());
    args.rot3_position = Some("25".to_owned());
    args.plugboard = Some(" po  ml ".to_owned());
    assert!(Enigma::try_new(&args).is_ok());
}

#[test]
fn shuffled_alphabet_checks() {
    assert!(is_shuffled_alphabet("ekmflgdqvzntowyhxuspaibrcj"));
    assert!(is_shuffled_alphabet("abcdefghijklmnopqrstuvwxyz"));
    assert!(!is_shuffled_alphabet("abcdefghijklmnopqrstuvwxya"));
    assert!(!is_shuffled_alphabet("abcdefghijklmnopqrstuvwxy"));
    assert!(!is_shuffled_alphabet("Abcdefghijklmnopqrstuvwxyz"));
    assert!(!is_shuffled_alphabet(""));
}
