use vstd::prelude::*;
use vstd::string::StringExecFns;

verus! {

/// Every failure the library reports. Failures raised inside an outside
/// engine (the persistent log store, the TLS stack) are carried as their
/// textual description, so that the error type itself stays a plain value.
#[derive(Debug, Clone, PartialEq)]
pub enum KvError {
    /// No value stands under this table and key.
    NotFound(String, String),
    /// The request held no recognisable command.
    InvalidCommand(String),
    /// A value could not be converted to the requested shape.
    ConvertError(String, String),
    /// The storage backend failed; command, table, key and cause.
    StorageError(String, String, String, String),
    /// A validation or internal failure, with its description.
    Internal(String),
    /// The expected-absence case: a lookup found nothing.
    KeyNotFound,
    /// The persistent engine reported a failure.
    SledError(String),
    /// A frame was over the size ceiling or its header was malformed.
    FrameError,
    /// Certificate or key material could not be parsed; path and cause.
    CertParseError(String, String),
}

/// The description of an error, as a character sequence.
pub open spec fn describe_spec(e: KvError) -> Seq<char> {
    match e {
        KvError::NotFound(t, k) => "Not found for table: "@ + t@ + ", key: "@ + k@,
        KvError::InvalidCommand(c) => "Command parse error: "@ + c@,
        KvError::ConvertError(v, t) => "Convert value error: "@ + v@ + " to "@ + t@,
        KvError::StorageError(c, t, k, e) => "storage error: with command: "@ + c@ + ", table: "@
            + t@ + ", key: "@ + k@ + ", error: "@ + e@,
        KvError::Internal(s) => "Internal error: "@ + s@,
        KvError::KeyNotFound => "key not found"@,
        KvError::SledError(s) => "sled error: "@ + s@,
        KvError::FrameError => "frame error"@,
        KvError::CertParseError(p, c) => "CertificateParse error: "@ + p@ + " "@ + c@,
    }
}

impl KvError {
    /// The human-readable description carried into a 500-status response.
    pub fn describe(&self) -> (r: String)
        ensures
            r@ == describe_spec(*self),
    {
        match self {
            KvError::NotFound(t, k) => {
                let mut s = "Not found for table: ".to_owned();
                s.append(t.as_str());
                s.append(", key: ");
                s.append(k.as_str());
                s
            },
            KvError::InvalidCommand(c) => {
                let mut s = "Command parse error: ".to_owned();
                s.append(c.as_str());
                s
            },
            KvError::ConvertError(v, t) => {
                let mut s = "Convert value error: ".to_owned();
                s.append(v.as_str());
                s.append(" to ");
                s.append(t.as_str());
                s
            },
            KvError::StorageError(c, t, k, e) => {
                let mut s = "storage error: with command: ".to_owned();
                s.append(c.as_str());
                s.append(", table: ");
                s.append(t.as_str());
                s.append(", key: ");
                s.append(k.as_str());
                s.append(", error: ");
                s.append(e.as_str());
                s
            },
            KvError::Internal(m) => {
                let mut s = "Internal error: ".to_owned();
                s.append(m.as_str());
                s
            },
            KvError::KeyNotFound => "key not found".to_owned(),
            KvError::SledError(m) => {
                let mut s = "sled error: ".to_owned();
                s.append(m.as_str());
                s
            },
            KvError::FrameError => "frame error".to_owned(),
            KvError::CertParseError(p, c) => {
                let mut s = "CertificateParse error: ".to_owned();
                s.append(p.as_str());
                s.append(" ");
                s.append(c.as_str());
                s
            },
        }
    }
}

} // verus!
