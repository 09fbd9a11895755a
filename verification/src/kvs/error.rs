//! Errors of the key/value store.
use vstd::prelude::*;
use vstd::string::StringExecFns;

verus! {

/// Why a key/value operation failed. Errors raised by the file system,
/// the serializer, UTF-8 decoding or sled carry their message.
#[derive(Debug)]
pub enum KvsError {
    /// An I/O error.
    Io(String),
    /// A serialization or deserialization error.
    Serde(String),
    /// Removing a key that is not there.
    KeyNotFound,
    /// The log holds a command of the wrong kind where a value was expected:
    /// the log is corrupt or the program has a bug.
    UnexpectedCommandType,
    /// A key or value is not valid UTF-8.
    Utf8(String),
    /// An error of the sled engine.
    Sled(String),
    /// An error described by its message.
    StringError(String),
}

/// The text of an error.
pub open spec fn error_message(e: KvsError) -> Seq<char> {
    match e {
        KvsError::Io(m) => "IO error: "@ + m@,
        KvsError::Serde(m) => "serde_json error: "@ + m@,
        KvsError::KeyNotFound => "Key not found"@,
        KvsError::UnexpectedCommandType => "Unexpected command type"@,
        KvsError::Utf8(m) => "UTF-8 error: "@ + m@,
        KvsError::Sled(m) => "sled error: "@ + m@,
        KvsError::StringError(m) => m@,
    }
}

impl KvsError {
    /// The text of the error, as it is shown to a user.
    pub fn message(&self) -> (m: String)
        ensures
            m@ == error_message(*self),
    {
        match self {
            KvsError::Io(m) => "IO error: ".to_owned().concat(m.as_str()),
            KvsError::Serde(m) => "serde_json error: ".to_owned().concat(m.as_str()),
            KvsError::KeyNotFound => "Key not found".to_owned(),
            KvsError::UnexpectedCommandType => "Unexpected command type".to_owned(),
            KvsError::Utf8(m) => "UTF-8 error: ".to_owned().concat(m.as_str()),
            KvsError::Sled(m) => "sled error: ".to_owned().concat(m.as_str()),
            KvsError::StringError(m) => m.clone(),
        }
    }
}

} // verus!
