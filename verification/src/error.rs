//! Errors of the Windows side.

use crate::apfs::error::{io_text, IoError};
use crate::apfs::text::{msg_str, text_str};
use vstd::prelude::*;

verus! {

#[derive(Debug)]
pub enum Error {
    Io(IoError),
    /// A call into Windows failed, with what Windows says of it.
    Windows(String),
    Apfs(String),
    WinFsp(String),
    InvalidPath(String),
    NotFound(String),
}

/// What an [`Error`] says, with its text as a sequence of characters.
pub enum Failure {
    Io(IoError),
    Windows(Seq<char>),
    Apfs(Seq<char>),
    WinFsp(Seq<char>),
    InvalidPath(Seq<char>),
    NotFound(Seq<char>),
}

impl View for Error {
    type V = Failure;

    open spec fn view(&self) -> Failure {
        match self {
            Error::Io(e) => Failure::Io(*e),
            Error::Windows(s) => Failure::Windows(s@),
            Error::Apfs(s) => Failure::Apfs(s@),
            Error::WinFsp(s) => Failure::WinFsp(s@),
            Error::InvalidPath(s) => Failure::InvalidPath(s@),
            Error::NotFound(s) => Failure::NotFound(s@),
        }
    }
}

impl Failure {
    /// The line shown to a user.
    pub open spec fn text(self) -> Seq<char> {
        match self {
            Failure::Io(e) => msg_str("I/O error: "@, io_text(e), ""@),
            Failure::Windows(s) => msg_str("Windows API error: "@, s, ""@),
            Failure::Apfs(s) => msg_str("APFS error: "@, s, ""@),
            Failure::WinFsp(s) => msg_str("WinFsp error: "@, s, ""@),
            Failure::InvalidPath(s) => msg_str("Invalid path: "@, s, ""@),
            Failure::NotFound(s) => msg_str("Not found: "@, s, ""@),
        }
    }
}

impl Error {
    /// The line shown to a user.
    pub fn message(&self) -> (s: String)
        ensures
            s@ == self@.text(),
    {
        match self {
            Error::Io(e) => text_str("I/O error: ", e.text().as_str(), ""),
            Error::Windows(s) => text_str("Windows API error: ", s.as_str(), ""),
            Error::Apfs(s) => text_str("APFS error: ", s.as_str(), ""),
            Error::WinFsp(s) => text_str("WinFsp error: ", s.as_str(), ""),
            Error::InvalidPath(s) => text_str("Invalid path: ", s.as_str(), ""),
            Error::NotFound(s) => text_str("Not found: ", s.as_str(), ""),
        }
    }
}

/// The outcome of a call that yields a plain value.
pub open spec fn settled<T>(r: Result<T, Error>) -> Result<T, Failure> {
    match r {
        Ok(v) => Ok(v),
        Err(e) => Err(e@),
    }
}

/// The kinds of I/O failure that statuses stand for.
#[derive(Debug, Clone, Copy, PartialEq, Eq, Structural)]
pub enum FailureKind {
    NotFound,
    PermissionDenied,
    InvalidInput,
    Other,
}

/// An I/O failure as the standard library tells of it: a kind and a text.
#[derive(Debug)]
pub struct IoFailure {
    pub kind: FailureKind,
    pub message: String,
}

/// A digit of a number in upper-case hexadecimal.
pub open spec fn upper_digit(d: int) -> Seq<char> {
    if d == 0 { "0"@ } else if d == 1 { "1"@ } else if d == 2 { "2"@ } else if d == 3 { "3"@ }
    else if d == 4 { "4"@ } else if d == 5 { "5"@ } else if d == 6 { "6"@ } else if d == 7 { "7"@ }
    else if d == 8 { "8"@ } else if d == 9 { "9"@ } else if d == 10 { "A"@ } else if d == 11 { "B"@ }
    else if d == 12 { "C"@ } else if d == 13 { "D"@ } else if d == 14 { "E"@ } else { "F"@ }
}

/// The last `width` digits of `n` in upper-case hexadecimal.
pub open spec fn upper_hex(n: nat, width: nat) -> Seq<char>
    decreases width,
{
    if width == 0 {
        seq![]
    } else {
        upper_hex(n / 16, (width - 1) as nat) + upper_digit((n % 16) as int)
    }
}

/// The bits of a status, read without a sign.
pub open spec fn status_bits(status: i32) -> u32 {
    if status >= 0 { status as u32 } else { (status + 0x1_0000_0000) as u32 }
}

/// What a status stands for.
pub open spec fn io_failure(status: u32) -> (FailureKind, Seq<char>) {
    if status == 0xC0000034 {
        (FailureKind::NotFound, "Object name not found"@)
    } else if status == 0xC000003A {
        (FailureKind::NotFound, "Path not found"@)
    } else if status == 0xC0000022 {
        (FailureKind::PermissionDenied, "Access denied"@)
    } else if status == 0xC0000043 {
        (FailureKind::InvalidInput, "Sharing violation"@)
    } else {
        (FailureKind::Other, msg_str("NTSTATUS: 0x"@, upper_hex(status as nat, 8), ""@))
    }
}

fn upper_str(d: u32) -> (s: &'static str)
    requires
        d < 16,
    ensures
        s@ == upper_digit(d as int),
{
    if d == 0 { "0" } else if d == 1 { "1" } else if d == 2 { "2" } else if d == 3 { "3" }
    else if d == 4 { "4" } else if d == 5 { "5" } else if d == 6 { "6" } else if d == 7 { "7" }
    else if d == 8 { "8" } else if d == 9 { "9" } else if d == 10 { "A" } else if d == 11 { "B" }
    else if d == 12 { "C" } else if d == 13 { "D" } else if d == 14 { "E" } else { "F" }
}

fn upper_string(n: u32, width: u32) -> (s: String)
    ensures
        s@ == upper_hex(n as nat, width as nat),
    decreases width,
{
    if width == 0 {
        String::new()
    } else {
        let mut s = upper_string(n / 16, width - 1);
        s.append(upper_str(n % 16));
        s
    }
}

/// Convert an NTSTATUS to the I/O failure it stands for.
pub fn ntstatus_to_io_error(status: i32) -> (e: IoFailure)
    ensures
        (e.kind, e.message@) == io_failure(status_bits(status)),
{
    let code: u32 = status as u32;
    assert(status < 0 ==> status as u32 == status + 0x1_0000_0000) by (bit_vector);
    if code == 0xC0000034 {
        IoFailure { kind: FailureKind::NotFound, message: "Object name not found".to_string() }
    } else if code == 0xC000003A {
        IoFailure { kind: FailureKind::NotFound, message: "Path not found".to_string() }
    } else if code == 0xC0000022 {
        IoFailure { kind: FailureKind::PermissionDenied, message: "Access denied".to_string() }
    } else if code == 0xC0000043 {
        IoFailure { kind: FailureKind::InvalidInput, message: "Sharing violation".to_string() }
    } else {
        let digits = upper_string(code, 8);
        IoFailure {
            kind: FailureKind::Other,
            message: text_str("NTSTATUS: 0x", digits.as_str(), ""),
        }
    }
}

/// A status stands for one kind of failure: two say that something was not
/// found, one that access is denied, one that the file is in use, and all
/// others are told by their number. Its bits are its value without the sign.
pub proof fn law_statuses(status: i32, bits: u32)
    ensures
        (status_bits(status) - status) % 0x1_0000_0000 == 0,
        io_failure(bits).0 is NotFound <==> bits == 0xC0000034 || bits == 0xC000003A,
        io_failure(bits).0 is PermissionDenied <==> bits == 0xC0000022,
        io_failure(bits).0 is InvalidInput <==> bits == 0xC0000043,
        io_failure(bits).0 is Other ==> io_failure(bits).1.len() == 20,
{
    if io_failure(bits).0 is Other {
        reveal_strlit("NTSTATUS: 0x");
        reveal_strlit("");
        lemma_hex_length(bits as nat, 8);
    }
}

proof fn lemma_hex_length(n: nat, width: nat)
    ensures
        upper_hex(n, width).len() == width,
    decreases width,
{
    reveal_strlit("0"); reveal_strlit("1"); reveal_strlit("2"); reveal_strlit("3");
    reveal_strlit("4"); reveal_strlit("5"); reveal_strlit("6"); reveal_strlit("7");
    reveal_strlit("8"); reveal_strlit("9"); reveal_strlit("A"); reveal_strlit("B");
    reveal_strlit("C"); reveal_strlit("D"); reveal_strlit("E"); reveal_strlit("F");
    if width > 0 {
        lemma_hex_length(n / 16, (width - 1) as nat);
    }
}

} // verus!
