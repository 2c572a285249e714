//! The symmetric cipher and the source of random bytes, as the engine sees
//! them. The contracts of the outside functions in this file are not
//! proved: they state what the engine relies on.
use vstd::prelude::*;
use rand::RngCore;
use simplecrypt::DecryptionError;
use crate::utils::number::{decimal, push_number};

verus! {

/// How many bytes sealing adds to the data: a salt of 16 bytes, a nonce of
/// 24 and an authentication tag of 16.
pub const SEAL_OVERHEAD: usize = 56;

/// The longest passphrase, in bytes, that the key derivation of the cipher
/// takes.
pub const PASSPHRASE_LIMIT: u64 = 4294967295;

/// Why sealed data did not open.
#[derive(Debug, Clone, Copy, PartialEq, Eq, Structural)]
pub enum DecryptionFailure {
    /// The data, of the given length, is too short to hold a salt.
    IncompleteSalt(usize),
    /// The data, of the given length, is too short to hold a nonce.
    IncompleteNonce(usize),
    /// The data, of the given length, is too short to hold a tag.
    IncompleteMac(usize),
    /// The data is not what the key sealed.
    Decryption,
}

/// `n` less `by`, or zero where `n` is smaller.
pub open spec fn beyond(n: usize, by: usize) -> nat {
    if n >= by {
        (n - by) as nat
    } else {
        0
    }
}

impl DecryptionFailure {
    /// What to tell the user about this failure.
    pub open spec fn text(self) -> Seq<char> {
        match self {
            DecryptionFailure::IncompleteSalt(n) => "expected a 0 byte at index 16 but only got "@
                + decimal(n as nat) + " bytes"@,
            DecryptionFailure::IncompleteNonce(n) => "expected a 24 byte nonce at index 16 but only got "@
                + decimal(beyond(n, 16)) + " bytes"@,
            DecryptionFailure::IncompleteMac(n) => "expected a 16 byte nonce at index 40 but only got "@
                + decimal(beyond(n, 40)) + " bytes"@,
            DecryptionFailure::Decryption => "invalid data or secret key"@,
        }
    }

    /// What to tell the user about this failure.
    pub fn message(&self) -> (text: String)
        ensures
            text@ == self.text(),
    {
        let (head, count): (&str, usize) = match self {
            DecryptionFailure::IncompleteSalt(n) => (
                "expected a 0 byte at index 16 but only got ",
                *n,
            ),
            DecryptionFailure::IncompleteNonce(n) => (
                "expected a 24 byte nonce at index 16 but only got ",
                if *n >= 16 {
                    *n - 16
                } else {
                    0
                },
            ),
            DecryptionFailure::IncompleteMac(n) => (
                "expected a 16 byte nonce at index 40 but only got ",
                if *n >= 40 {
                    *n - 40
                } else {
                    0
                },
            ),
            DecryptionFailure::Decryption => {
                return String::from_str("invalid data or secret key");
            },
        };
        let mut digits: Vec<char> = Vec::new();
        push_number(&mut digits, count as u64);
        let number = crate::utils::text::from_chars(digits.as_slice());
        let mut text = String::from_str(head);
        text.append(number.as_str());
        text.append(" bytes");
        assert(digits@ =~= decimal(count as nat));
        text
    }
}

/// What `simplecrypt::decrypt` opens from the given data with the given
/// passphrase, where the data is long enough and the cipher accepts it.
pub uninterp spec fn opening(data: Seq<u8>, passphrase: Seq<u8>) -> Option<Seq<u8>>;

/// What opening the given data with the given passphrase gives: data too
/// short for salt (16 bytes), nonce (24 more) or tag (16 more) is refused
/// with its length; longer data opens or is refused by the cipher.
pub open spec fn decryption(data: Seq<u8>, passphrase: Seq<u8>) -> Result<
    Seq<u8>,
    DecryptionFailure,
> {
    if data.len() < 16 {
        Err(DecryptionFailure::IncompleteSalt(data.len() as usize))
    } else if data.len() < 40 {
        Err(DecryptionFailure::IncompleteNonce(data.len() as usize))
    } else if data.len() < SEAL_OVERHEAD {
        Err(DecryptionFailure::IncompleteMac(data.len() as usize))
    } else {
        match opening(data, passphrase) {
            Some(plain) => Ok(plain),
            None => Err(DecryptionFailure::Decryption),
        }
    }
}

/// `simplecrypt::encrypt` seals the data under a key derived from the
/// passphrase and a fresh random salt, with a fresh random nonce. Two calls
/// on the same input differ. Of every outcome the contract claims: it is 56
/// bytes longer than the data (salt, nonce and tag stand before it), and
/// `simplecrypt::decrypt` with the same passphrase gives the data back.
///
/// The key derivation refuses a passphrase of more than 4294967295 bytes,
/// and the function then panics: `requires` leaves such a passphrase out.
/// (It panics too where libsodium cannot be set up or the derivation runs
/// out of memory, which no argument decides.)
pub assume_specification[ simplecrypt::encrypt ](data: &[u8], passphrase: &[u8]) -> (sealed: Vec<u8>)
    requires
        passphrase@.len() <= PASSPHRASE_LIMIT,
    ensures
        sealed@.len() == data@.len() + SEAL_OVERHEAD,
        opening(sealed@, passphrase@) == Some(data@),
;

/// `simplecrypt::decrypt` refuses data shorter than 16, 40 or 56 bytes
/// with the error that holds the length; else it reads salt and nonce from
/// the first 40 bytes, derives the key from the passphrase and the salt,
/// and opens the rest. Its result depends on the data and the passphrase
/// alone. The contract names what is opened, gives each error of the
/// outside function as the library's own, and claims that what is opened is
/// 56 bytes shorter than the data.
///
/// A passphrase of more than 4294967295 bytes is left out as for
/// `simplecrypt::encrypt`.
#[verifier::external_body]
pub(crate) fn open_sealed(data: &[u8], passphrase: &[u8]) -> (opened: Result<
    Vec<u8>,
    DecryptionFailure,
>)
    requires
        passphrase@.len() <= PASSPHRASE_LIMIT,
    ensures
        match opened {
            Ok(plain) => decryption(data@, passphrase@) == Ok::<Seq<u8>, DecryptionFailure>(
                plain@,
            ) && plain@.len() + SEAL_OVERHEAD == data@.len(),
            Err(e) => decryption(data@, passphrase@) == Err::<Seq<u8>, DecryptionFailure>(e),
        },
        (opened is Ok) == (data@.len() >= SEAL_OVERHEAD && opening(data@, passphrase@) is Some),
{
    match simplecrypt::decrypt(data, passphrase) {
        Ok(plain) => Ok(plain),
        Err(DecryptionError::IncompleteSalt(n)) => Err(DecryptionFailure::IncompleteSalt(n)),
        Err(DecryptionError::IncompleteNonce(n)) => Err(DecryptionFailure::IncompleteNonce(n)),
        Err(DecryptionError::IncompleteMac(n)) => Err(DecryptionFailure::IncompleteMac(n)),
        Err(DecryptionError::Decryption) => Err(DecryptionFailure::Decryption),
    }
}

/// `length` bytes from `rand::thread_rng()`, the thread's cryptographically
/// secure generator. Only the length is claimed: the bytes are random.
#[verifier::external_body]
pub fn generate_encryption_key(length: usize) -> (key: Vec<u8>)
    ensures
        key@.len() == length,
{
    let mut key = vec![0u8; length];
    rand::thread_rng().fill_bytes(&mut key);
    key
}

} // verus!
