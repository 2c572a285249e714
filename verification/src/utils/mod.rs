//! Building blocks shared by the other modules: text handling, the
//! configuration store, the line codec and the file header codec.
pub mod config_interact;
pub mod file;
pub mod json;
pub mod line;
pub mod number;
pub mod text;

pub use crate::encryption::seal::generate_encryption_key;
use vstd::prelude::*;

verus! {

/// An error that is not particular to one part of the library.
#[derive(Debug, PartialEq, Eq)]
pub enum GenericError {
    /// No line of the configuration store carries the keyword.
    KeyNotFound { key: String },
    /// The message says what went wrong.
    Custom { message: String },
}

impl GenericError {
    /// What to tell the user about this error.
    pub open spec fn text(self) -> Seq<char> {
        match self {
            GenericError::KeyNotFound { key } => "Key \""@ + key@ + "\" not found in config file."@,
            GenericError::Custom { message } => message@,
        }
    }

    /// What to tell the user about this error.
    pub fn message(&self) -> (text: String)
        ensures
            text@ == self.text(),
    {
        match self {
            GenericError::KeyNotFound { key } => {
                let mut text = String::from_str("Key \"");
                text.append(key.as_str());
                text.append("\" not found in config file.");
                text
            },
            GenericError::Custom { message } => String::from_str(message.as_str()),
        }
    }
}

} // verus!
