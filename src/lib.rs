//! A small cipher engine: an Enigma-style rotor machine and the XXTEA block
//! cipher, used directly or in ciphertext-feedback mode; with the frame and
//! digest in which ciphertext travels between peers, and the names of the
//! files that results are written to.

pub mod alphabet;
pub mod buffers;
pub mod cipher;
pub mod engine;
pub mod enigma;
pub mod modes;
pub mod naming;
pub mod plugboard;
pub mod reflector;
pub mod rotor;
pub mod rotor_assembly;
pub mod settings;
pub mod transport;
pub mod words;
pub mod xxtea;
