//! Error types for APFS parsing and I/O.

use crate::apfs::text::{
    decimal_signed, decimal_signed_string, hex, hex_string, msg2, msg_str, text2, text_str,
};
use vstd::prelude::*;

verus! {

/// Why a device refused a request.
#[derive(Debug, Clone, Copy, PartialEq, Eq, Structural)]
pub enum IoError {
    /// The range reaches past the end of the device.
    UnexpectedEof,
    /// Nothing could be written at the requested place.
    WriteZero,
    /// The request itself made no sense.
    InvalidInput,
    /// Anything else, as the operating system numbers it.
    Other(i32),
}

/// Everything that can go wrong while a container is read or changed.
#[derive(Debug)]
pub enum ApfsError {
    Io(IoError),
    BadContainerMagic(u32),
    BadVolumeMagic(u32),
    BadChecksum,
    BadObjectType { expected: u16, actual: u16 },
    Truncated { need: usize, have: usize },
    BadBTree(String),
    BadCatalog(String),
    NotFound(String),
    Unsupported(String),
    NoVolume,
    NotADirectory(String),
    Internal(String),
}

/// What an [`ApfsError`] says, with its text as a sequence of characters.
pub enum Fault {
    Io(IoError),
    BadContainerMagic(u32),
    BadVolumeMagic(u32),
    BadChecksum,
    BadObjectType { expected: u16, actual: u16 },
    Truncated { need: int, have: int },
    BadBTree(Seq<char>),
    BadCatalog(Seq<char>),
    NotFound(Seq<char>),
    Unsupported(Seq<char>),
    NoVolume,
    NotADirectory(Seq<char>),
    Internal(Seq<char>),
}

impl View for ApfsError {
    type V = Fault;

    open spec fn view(&self) -> Fault {
        match self {
            ApfsError::Io(e) => Fault::Io(*e),
            ApfsError::BadContainerMagic(m) => Fault::BadContainerMagic(*m),
            ApfsError::BadVolumeMagic(m) => Fault::BadVolumeMagic(*m),
            ApfsError::BadChecksum => Fault::BadChecksum,
            ApfsError::BadObjectType { expected, actual } => Fault::BadObjectType {
                expected: *expected,
                actual: *actual,
            },
            ApfsError::Truncated { need, have } => Fault::Truncated {
                need: *need as int,
                have: *have as int,
            },
            ApfsError::BadBTree(s) => Fault::BadBTree(s@),
            ApfsError::BadCatalog(s) => Fault::BadCatalog(s@),
            ApfsError::NotFound(s) => Fault::NotFound(s@),
            ApfsError::Unsupported(s) => Fault::Unsupported(s@),
            ApfsError::NoVolume => Fault::NoVolume,
            ApfsError::NotADirectory(s) => Fault::NotADirectory(s@),
            ApfsError::Internal(s) => Fault::Internal(s@),
        }
    }
}

/// The outcome of a call with both the value and the error taken by view.
pub open spec fn outcome<T: View>(r: Result<T, ApfsError>) -> Result<T::V, Fault> {
    match r {
        Ok(v) => Ok(v@),
        Err(e) => Err(e@),
    }
}

/// The outcome of a call that yields a plain value.
pub open spec fn plain<T>(r: Result<T, ApfsError>) -> Result<T, Fault> {
    match r {
        Ok(v) => Ok(v),
        Err(e) => Err(e@),
    }
}

pub fn bad_btree(m: &str) -> (e: ApfsError)
    ensures
        e@ == Fault::BadBTree(m@),
{
    ApfsError::BadBTree(m.to_string())
}

pub fn bad_catalog(m: &str) -> (e: ApfsError)
    ensures
        e@ == Fault::BadCatalog(m@),
{
    ApfsError::BadCatalog(m.to_string())
}

pub fn internal(m: &str) -> (e: ApfsError)
    ensures
        e@ == Fault::Internal(m@),
{
    ApfsError::Internal(m.to_string())
}

pub fn unsupported(m: &str) -> (e: ApfsError)
    ensures
        e@ == Fault::Unsupported(m@),
{
    ApfsError::Unsupported(m.to_string())
}

/// The text of an I/O failure.
pub open spec fn io_text(e: IoError) -> Seq<char> {
    match e {
        IoError::UnexpectedEof => "failed to fill whole buffer"@,
        IoError::WriteZero => "failed to write whole buffer"@,
        IoError::InvalidInput => "invalid input"@,
        IoError::Other(code) => msg_str("os error "@, decimal_signed(code as int), ""@),
    }
}

impl Fault {
    /// The line shown to a user.
    pub open spec fn text(self) -> Seq<char> {
        match self {
            Fault::Io(e) => msg_str("io: "@, io_text(e), ""@),
            Fault::BadContainerMagic(m) => msg_str(
                "not an APFS container (magic "@,
                hex(m as nat, 8),
                ")"@,
            ),
            Fault::BadVolumeMagic(m) => msg_str(
                "not an APFS volume superblock (magic "@,
                hex(m as nat, 8),
                ")"@,
            ),
            Fault::BadChecksum => "Fletcher-64 checksum mismatch in object"@,
            Fault::BadObjectType { expected, actual } => msg_str(
                msg_str("object header type mismatch: expected "@, hex(expected as nat, 4), ", got "@),
                hex(actual as nat, 4),
                ""@,
            ),
            Fault::Truncated { need, have } => msg2(
                "buffer too small: need "@,
                need as nat,
                " bytes, have "@,
                have as nat,
                ""@,
            ),
            Fault::BadBTree(s) => msg_str("malformed b-tree node: "@, s, ""@),
            Fault::BadCatalog(s) => msg_str("malformed catalog record: "@, s, ""@),
            Fault::NotFound(s) => msg_str("file not found: "@, s, ""@),
            Fault::Unsupported(s) => msg_str("unsupported volume layout: "@, s, ""@),
            Fault::NoVolume => "no usable volume in container"@,
            Fault::NotADirectory(s) => msg_str("not a directory: "@, s, ""@),
            Fault::Internal(s) => msg_str("internal invariant broken: "@, s, ""@),
        }
    }
}

impl IoError {
    /// The text of an I/O failure.
    pub fn text(&self) -> (s: String)
        ensures
            s@ == io_text(*self),
    {
        match self {
            IoError::UnexpectedEof => "failed to fill whole buffer".to_string(),
            IoError::WriteZero => "failed to write whole buffer".to_string(),
            IoError::InvalidInput => "invalid input".to_string(),
            IoError::Other(code) => {
                let n = decimal_signed_string(*code as i64);
                text_str("os error ", n.as_str(), "")
            },
        }
    }
}

impl ApfsError {
    /// The line shown to a user.
    pub fn message(&self) -> (s: String)
        ensures
            s@ == self@.text(),
    {
        match self {
            ApfsError::Io(e) => text_str("io: ", e.text().as_str(), ""),
            ApfsError::BadContainerMagic(m) => text_str(
                "not an APFS container (magic ",
                hex_string(*m as u64, 8).as_str(),
                ")",
            ),
            ApfsError::BadVolumeMagic(m) => text_str(
                "not an APFS volume superblock (magic ",
                hex_string(*m as u64, 8).as_str(),
                ")",
            ),
            ApfsError::BadChecksum => "Fletcher-64 checksum mismatch in object".to_string(),
            ApfsError::BadObjectType { expected, actual } => {
                let head = text_str(
                    "object header type mismatch: expected ",
                    hex_string(*expected as u64, 4).as_str(),
                    ", got ",
                );
                text_str(head.as_str(), hex_string(*actual as u64, 4).as_str(), "")
            },
            ApfsError::Truncated { need, have } => text2(
                "buffer too small: need ",
                *need as u64,
                " bytes, have ",
                *have as u64,
                "",
            ),
            ApfsError::BadBTree(s) => text_str("malformed b-tree node: ", s.as_str(), ""),
            ApfsError::BadCatalog(s) => text_str("malformed catalog record: ", s.as_str(), ""),
            ApfsError::NotFound(s) => text_str("file not found: ", s.as_str(), ""),
            ApfsError::Unsupported(s) => text_str("unsupported volume layout: ", s.as_str(), ""),
            ApfsError::NoVolume => "no usable volume in container".to_string(),
            ApfsError::NotADirectory(s) => text_str("not a directory: ", s.as_str(), ""),
            ApfsError::Internal(s) => text_str("internal invariant broken: ", s.as_str(), ""),
        }
    }
}

} // verus!
