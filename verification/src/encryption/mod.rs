//! The file-encryption engine: the key registry, the layered encryption of a
//! file, and the re-keying of a file to the newest key.
pub mod annex;
pub mod keys;
pub mod laws;
pub mod registry;
pub mod seal;

use vstd::prelude::*;
use crate::encryption::seal::DecryptionFailure;

verus! {

/// The keyword of the registry lines in the configuration store, one line
/// for each key version.
pub const ENCRYPTION_KEYWORD: &'static str = "MUCLI_ENCRYPT";

/// The length in bytes of a key of the registry.
pub const KEY_LENGTH: usize = 32;

/// Why an operation of the engine failed.
#[derive(Debug, PartialEq, Eq)]
pub enum EncryptionError {
    /// The content could not be decrypted with the key.
    Decrypt { source: DecryptionFailure },
    /// The registry holds no key.
    NoKeyFound,
    /// A registry line does not hold a readable key.
    RetrievingKey,
    /// The registry holds no key at the position asked for.
    KeyNotExist,
    /// The registry holds no version.
    NoVersionFound,
    /// A registry line does not hold a readable version.
    VersionFormat,
    /// The file starts like an encrypted file but its header is not usable.
    InvalidFileContent,
    /// The file to decrypt is not encrypted.
    DecryptNotCryptedFile,
    /// A newer key cannot be added.
    KeyUpdateFailed,
    /// The file is already bound to the newest key.
    CannotUpdateLatest,
    /// The file is empty.
    CannotProcessEmptyFile,
}

impl EncryptionError {
    /// What to tell the user about this error.
    pub fn message(&self) -> (text: String)
        ensures
            self matches EncryptionError::Decrypt { source } ==> text@ == source.text(),
            self is NoKeyFound ==> text@ == "No key found in config.txt"@,
            self is RetrievingKey ==> text@ == "Error retrieving encryption key"@,
            self is KeyNotExist ==> text@ == "Encryption key does not exist"@,
            self is NoVersionFound ==> text@ == "No version found in config.txt"@,
            self is VersionFormat ==> text@ == "Invalid version format found in config.txt"@,
            self is InvalidFileContent ==> text@ == "Target file must be a crypted file"@,
            self is DecryptNotCryptedFile ==> text@ == "Cannot decrypt a non-encrypted file"@,
            self is KeyUpdateFailed ==> text@ == "Impossible to update encryption key"@,
            self is CannotUpdateLatest ==> text@
                == "File is already at the latest encryption version"@,
            self is CannotProcessEmptyFile ==> text@ == "Cannot process empty file"@,
    {
        match self {
            EncryptionError::Decrypt { source } => source.message(),
            EncryptionError::NoKeyFound => String::from_str("No key found in config.txt"),
            EncryptionError::RetrievingKey => String::from_str("Error retrieving encryption key"),
            EncryptionError::KeyNotExist => String::from_str("Encryption key does not exist"),
            EncryptionError::NoVersionFound => String::from_str("No version found in config.txt"),
            EncryptionError::VersionFormat => String::from_str(
                "Invalid version format found in config.txt",
            ),
            EncryptionError::InvalidFileContent => String::from_str(
                "Target file must be a crypted file",
            ),
            EncryptionError::DecryptNotCryptedFile => String::from_str(
                "Cannot decrypt a non-encrypted file",
            ),
            EncryptionError::KeyUpdateFailed => String::from_str(
                "Impossible to update encryption key",
            ),
            EncryptionError::CannotUpdateLatest => String::from_str(
                "File is already at the latest encryption version",
            ),
            EncryptionError::CannotProcessEmptyFile => String::from_str("Cannot process empty file"),
        }
    }
}

} // verus!
