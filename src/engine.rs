//! The cipher that the settings select, behind one interface.

use crate::cipher::{Algorithm, AlgorithmOption, CipherError, MAX_DATA_LEN};
use crate::enigma::{enigma_args_valid, enigma_from_args, Enigma};
use crate::modes::{cfb_args_fault, cfb_from_args, key_of, Xxtea, XxteaCfb};
use crate::settings::{field_bytes, EnigmaArgs, XxteaArgs, XxteaCfbArgs};
use vstd::prelude::*;

verus! {

/// The settings of every cipher, and which one is chosen.
#[derive(Clone, Default)]
pub struct SettingsState {
    pub algorithm_option: AlgorithmOption,
    pub enigma_args: EnigmaArgs,
    pub xxtea_args: XxteaArgs,
    pub xxtea_cfb_args: XxteaCfbArgs,
}

/// One of the ciphers.
pub enum Cipher {
    Enigma(Enigma),
    Xxtea(Xxtea),
    XxteaCfb(XxteaCfb),
}

impl Algorithm for Cipher {
    open spec fn valid(&self) -> bool {
        match self {
            Cipher::Enigma(c) => c.valid(),
            Cipher::Xxtea(c) => c.valid(),
            Cipher::XxteaCfb(c) => c.valid(),
        }
    }

    open spec fn encrypt_spec(&self, data: Seq<u8>) -> Result<Seq<u8>, CipherError> {
        match self {
            Cipher::Enigma(c) => c.encrypt_spec(data),
            Cipher::Xxtea(c) => c.encrypt_spec(data),
            Cipher::XxteaCfb(c) => c.encrypt_spec(data),
        }
    }

    open spec fn decrypt_spec(&self, data: Seq<u8>) -> Result<Seq<u8>, CipherError> {
        match self {
            Cipher::Enigma(c) => c.decrypt_spec(data),
            Cipher::Xxtea(c) => c.decrypt_spec(data),
            Cipher::XxteaCfb(c) => c.decrypt_spec(data),
        }
    }

    fn encrypt(&self, data: &[u8]) -> (r: Result<Vec<u8>, CipherError>) {
        match self {
            Cipher::Enigma(c) => c.encrypt(data),
            Cipher::Xxtea(c) => c.encrypt(data),
            Cipher::XxteaCfb(c) => c.encrypt(data),
        }
    }

    fn decrypt(&self, data: &[u8]) -> (r: Result<Vec<u8>, CipherError>) {
        match self {
            Cipher::Enigma(c) => c.decrypt(data),
            Cipher::Xxtea(c) => c.decrypt(data),
            Cipher::XxteaCfb(c) => c.decrypt(data),
        }
    }
}

/// Builds the chosen cipher from its settings.
pub fn get_algorithm(settings: &SettingsState) -> (r: Result<Cipher, CipherError>)
    ensures
        r matches Ok(c) ==> c.valid(),
        settings.algorithm_option == AlgorithmOption::Enigma ==> {
            &&& (r is Ok <==> enigma_args_valid(settings.enigma_args))
            &&& (r matches Err(e) ==> e == CipherError::InvalidEnigmaSettings)
            &&& (r matches Ok(c) ==> c matches Cipher::Enigma(m) && enigma_from_args(
                m,
                settings.enigma_args,
            ))
        },
        settings.algorithm_option == AlgorithmOption::Xxtea ==> match settings.xxtea_args.key {
            None => r matches Err(e) && e == CipherError::MissingField,
            Some(s) => r matches Ok(c) && c matches Cipher::Xxtea(x) && x.key() == key_of(
                field_bytes(Some(s)),
            ),
        },
        settings.algorithm_option == AlgorithmOption::XxteaCfb ==> match cfb_args_fault(
            settings.xxtea_cfb_args,
        ) {
            Some(f) => r matches Err(e) && e == f,
            None => r matches Ok(c) && c matches Cipher::XxteaCfb(x) && cfb_from_args(
                x,
                settings.xxtea_cfb_args,
            ),
        },
{
    match settings.algorithm_option {
        AlgorithmOption::Enigma => match Enigma::try_new(&settings.enigma_args) {
            Ok(m) => Ok(Cipher::Enigma(m)),
            Err(e) => Err(e),
        },
        AlgorithmOption::Xxtea => match Xxtea::try_new(&settings.xxtea_args) {
            Ok(x) => Ok(Cipher::Xxtea(x)),
            Err(e) => Err(e),
        },
        AlgorithmOption::XxteaCfb => match XxteaCfb::try_new(&settings.xxtea_cfb_args) {
            Ok(x) => Ok(Cipher::XxteaCfb(x)),
            Err(e) => Err(e),
        },
    }
}

/// A port has been entered.
pub fn valid_port(port: &Option<u16>) -> (r: bool)
    ensures
        r == port is Some,
{
    port.is_some()
}

} // verus!
