use vstd::prelude::*;
use vstd::string::StringExecFns;

verus! {

/// What can go wrong in the store.
#[derive(Debug, PartialEq, Eq)]
pub enum CyKvError {
    /// A file system or socket failure.
    Io,
    /// A request on the wire could not be decoded.
    SerdeJson,
    /// The encoder refused a command.
    Serialize,
    /// A record is malformed or ends too early.
    Deserialize,
    /// An invariant of the store is violated.
    Internal,
    /// The key is not in the store, or a scan was asked with `begin > end`.
    KeyNotFound(String),
}

pub type Result<T> = std::result::Result<T, CyKvError>;

impl CyKvError {
    /// The words that say what went wrong.
    pub open spec fn words(&self) -> Seq<char> {
        match self {
            CyKvError::Io => "IO error"@,
            CyKvError::SerdeJson => "serde json"@,
            CyKvError::Serialize => "serde bson ser error"@,
            CyKvError::Deserialize => "serde bson de error"@,
            CyKvError::Internal => "internal error"@,
            CyKvError::KeyNotFound(key) => "key not found:"@ + key@,
        }
    }

    /// A short text that says what went wrong.
    pub fn message(&self) -> (text: String)
        ensures
            text@ == self.words(),
    {
        match self {
            CyKvError::Io => String::from_str("IO error"),
            CyKvError::SerdeJson => String::from_str("serde json"),
            CyKvError::Serialize => String::from_str("serde bson ser error"),
            CyKvError::Deserialize => String::from_str("serde bson de error"),
            CyKvError::Internal => String::from_str("internal error"),
            CyKvError::KeyNotFound(key) => {
                let mut text = String::from_str("key not found:");
                text.append(key.as_str());
                text
            },
        }
    }
}

} // verus!
