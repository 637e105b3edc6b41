//! The error type shared by the patcher.
use vstd::prelude::*;

verus! {

/// Why an operation of the patcher failed.
#[derive(Debug)]
pub enum PatchError {
    /// Low-level binary format problem (bad signature, CRC, layout, ...).
    Format(String),
    /// The patch document does not match the archive it is applied to.
    Mismatch(String),
    /// A string cannot be encoded as CP932.
    Encoding(String),
    /// Filesystem or I/O problem.
    Io(String),
}

/// The category of a [`PatchError`], without its message.
pub enum ErrorKind {
    Format,
    Mismatch,
    Encoding,
    Io,
}

impl PatchError {
    /// The category of the error.
    pub open spec fn kind(&self) -> ErrorKind {
        match self {
            PatchError::Format(_) => ErrorKind::Format,
            PatchError::Mismatch(_) => ErrorKind::Mismatch,
            PatchError::Encoding(_) => ErrorKind::Encoding,
            PatchError::Io(_) => ErrorKind::Io,
        }
    }

    /// The message carried by the error.
    pub open spec fn message(&self) -> Seq<char> {
        match self {
            PatchError::Format(m) => m@,
            PatchError::Mismatch(m) => m@,
            PatchError::Encoding(m) => m@,
            PatchError::Io(m) => m@,
        }
    }

    /// The human-readable form of the error: its category, a colon and its message.
    pub fn describe(&self) -> (r: String)
        ensures
            r@ == (match self {
                PatchError::Format(_) => "format error: "@,
                PatchError::Mismatch(_) => "patch mismatch: "@,
                PatchError::Encoding(_) => "encoding error: "@,
                PatchError::Io(_) => "io error: "@,
            }) + self.message(),
    {
        match self {
            PatchError::Format(m) => {
                let mut r = String::from_str("format error: ");
                r.append(m.as_str());
                r
            },
            PatchError::Mismatch(m) => {
                let mut r = String::from_str("patch mismatch: ");
                r.append(m.as_str());
                r
            },
            PatchError::Encoding(m) => {
                let mut r = String::from_str("encoding error: ");
                r.append(m.as_str());
                r
            },
            PatchError::Io(m) => {
                let mut r = String::from_str("io error: ");
                r.append(m.as_str());
                r
            },
        }
    }
}

} // verus!
