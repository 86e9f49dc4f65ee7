//! The store's error type.

use vstd::prelude::*;

verus! {

/// Every failure the engine can surface to a caller.
#[derive(Debug)]
pub enum WiscError {
    /// A stored checksum did not match the checksum of the bytes read.
    DataCorruption { checksum: u32, saved_checksum: u32 },
    /// A declared size in an encoded record does not fit the bytes supplied.
    Truncated,
    /// Bytes that must be UTF-8 were not.
    Encoding,
    /// A file that was expected on disk is missing.
    FileNotFound(String),
    /// `remove`/`update` of a key that is not present.
    KeyNotExist(String),
    /// `insert` of a key that is already present.
    KeyExist(String),
    /// A socket address string could not be parsed.
    SocketAddrParserFail,
    /// The operation is reserved in the contract but not implemented.
    NotImplemented,
    /// The process-wide sequence counter has no values left.
    SequenceExhausted,
    /// A key or record too large for its length field.
    OversizeRecord,
}

impl WiscError {
    /// A human-readable description, used by the server layer as the
    /// response body for a failed command.
    pub fn describe(&self) -> (r: String)
        ensures
            r@ == self.describe_spec(),
    {
        match self {
            WiscError::DataCorruption { .. } => "data corruption encountered".to_owned(),
            WiscError::Truncated => "data corruption encountered: truncated record".to_owned(),
            WiscError::Encoding => "UTF-8 error".to_owned(),
            WiscError::FileNotFound(name) => {
                let mut r = "file not found: ".to_owned();
                r.append(name.as_str());
                r
            },
            WiscError::KeyNotExist(key) => {
                let mut r = "key: [".to_owned();
                r.append(key.as_str());
                r.append("] not exist!");
                r
            },
            WiscError::KeyExist(key) => {
                let mut r = "insert fail :key: [".to_owned();
                r.append(key.as_str());
                r.append("] existed, consider update that");
                r
            },
            WiscError::SocketAddrParserFail => "SocketAddr parser fail !".to_owned(),
            WiscError::NotImplemented => "not implemented".to_owned(),
            WiscError::SequenceExhausted => "sequence counter exhausted".to_owned(),
            WiscError::OversizeRecord => "record too large".to_owned(),
        }
    }

    /// What `describe` returns, as a function of the error value.
    pub open spec fn describe_spec(&self) -> Seq<char> {
        match self {
            WiscError::DataCorruption { .. } => "data corruption encountered"@,
            WiscError::Truncated => "data corruption encountered: truncated record"@,
            WiscError::Encoding => "UTF-8 error"@,
            WiscError::FileNotFound(name) => "file not found: "@ + name@,
            WiscError::KeyNotExist(key) => "key: ["@ + key@ + "] not exist!"@,
            WiscError::KeyExist(key) => "insert fail :key: ["@ + key@
                + "] existed, consider update that"@,
            WiscError::SocketAddrParserFail => "SocketAddr parser fail !"@,
            WiscError::NotImplemented => "not implemented"@,
            WiscError::SequenceExhausted => "sequence counter exhausted"@,
            WiscError::OversizeRecord => "record too large"@,
        }
    }
}

} // verus!
