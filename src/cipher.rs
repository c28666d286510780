//! What every cipher offers: encryption and decryption of byte buffers.

use vstd::prelude::*;

verus! {

/// The longest buffer a cipher takes: 2 GiB less one byte, so that lengths and
/// rotor turns stay within 32 bits.
pub const MAX_DATA_LEN: usize = 0x7fff_ffff;

/// Why a cipher could not be built, or could not finish its work.
#[derive(Debug, Clone, Copy, PartialEq, Eq, Structural)]
pub enum CipherError {
    /// A configuration field that the cipher needs is absent.
    MissingField,
    /// An Enigma field is absent or malformed.
    InvalidEnigmaSettings,
    /// The block size is not a decimal numeral that fits in a `usize`.
    InvalidBlockSize,
    /// The block size is under 8 bytes.
    BlockSizeTooSmall,
    /// The initialisation vector is empty.
    EmptyIv,
    /// The initialisation vector is shorter than a block.
    IvTooShort,
    /// Ciphertext whose embedded length does not fit its size.
    Corrupt,
    /// The block cipher turned a block into one of another length (a block size
    /// that is not a multiple of four).
    BlockLengthMismatch,
}

#[derive(Debug, Clone, Copy, PartialEq, Eq, Structural, Default)]
pub enum Operation {
    #[default]
    Encrypt,
    Decrypt,
}

#[derive(Debug, Clone, Copy, PartialEq, Eq, Structural, Default)]
pub enum AlgorithmOption {
    #[default]
    Enigma,
    Xxtea,
    XxteaCfb,
}

impl AlgorithmOption {
    /// The name shown to the user.
    pub fn name(&self) -> (r: &'static str)
        ensures
            r@ == match self {
                AlgorithmOption::Enigma => "Enigma"@,
                AlgorithmOption::Xxtea => "XXTEA"@,
                AlgorithmOption::XxteaCfb => "XXTEA CFB"@,
            },
    {
        proof {
            reveal_strlit("Enigma");
            reveal_strlit("XXTEA");
            reveal_strlit("XXTEA CFB");
        }
        match self {
            AlgorithmOption::Enigma => "Enigma",
            AlgorithmOption::Xxtea => "XXTEA",
            AlgorithmOption::XxteaCfb => "XXTEA CFB",
        }
    }
}

/// A configured cipher.
pub trait Algorithm {
    /// The invariant that the cipher's constructors establish.
    spec fn valid(&self) -> bool;

    /// What encrypting `data` yields.
    spec fn encrypt_spec(&self, data: Seq<u8>) -> Result<Seq<u8>, CipherError>;

    /// What decrypting `data` yields.
    spec fn decrypt_spec(&self, data: Seq<u8>) -> Result<Seq<u8>, CipherError>;

    fn encrypt(&self, data: &[u8]) -> (r: Result<Vec<u8>, CipherError>)
        requires
            self.valid(),
            data@.len() <= MAX_DATA_LEN,
        ensures
            match r {
                Ok(v) => self.encrypt_spec(data@) == Ok::<Seq<u8>, CipherError>(v@),
                Err(e) => self.encrypt_spec(data@) == Err::<Seq<u8>, CipherError>(e),
            },
    ;

    fn decrypt(&self, data: &[u8]) -> (r: Result<Vec<u8>, CipherError>)
        requires
            self.valid(),
            data@.len() <= MAX_DATA_LEN,
        ensures
            match r {
                Ok(v) => self.decrypt_spec(data@) == Ok::<Seq<u8>, CipherError>(v@),
                Err(e) => self.decrypt_spec(data@) == Err::<Seq<u8>, CipherError>(e),
            },
    ;
}

} // verus!
