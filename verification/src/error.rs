use vstd::prelude::*;
use vstd::string::StringExecFns;

use crate::text::{ParseFault, parse_fault_message};

verus! {

/// The file operation that failed.
#[derive(Debug, Clone, Copy, PartialEq, Eq)]
pub enum PackFsErrorOpt {
    Read,
    Write,
    Dir,
    Remove,
    Stat,
    Move,
}

/// A failed file operation: on which file, which operation, and what the
/// system reported.
#[derive(Debug)]
pub struct PackFsError {
    pub file: String,
    pub inner: String,
    pub opt: PackFsErrorOpt,
}

impl PackFsError {
    /// The failure of `opt` on `file`, with the system's message.
    pub fn new(file: &String, opt: PackFsErrorOpt, error: String) -> (r: PackFsError)
        ensures
            r.file@ == file@,
            r.opt == opt,
            r.inner@ == error@,
    {
        PackFsError { file: file.clone(), inner: error, opt }
    }
}

/// The errors of the storage.
#[derive(Debug)]
pub enum StorageError {
    /// A file operation failed.
    Fs(PackFsError),
    /// The scope is written before it has been read.
    ScopeNotLoaded,
    /// A pack has a different number of keys and values.
    PackLengthMismatch,
    /// A path does not lie under the root of the storage.
    RelativePath,
    /// A number of the scope meta file does not parse, for this reason.
    MetaParse(ParseFault),
    /// The scope meta file has fewer than three options.
    MetaBroken,
    /// A pack entry of the scope meta file lacks a field or has a size that
    /// is not a number.
    PackInfo,
    /// The system clock stands before the Unix epoch, or before the time a
    /// scope was written.
    Clock,
}

/// The message that reading a line gives for bytes that are not UTF-8.
pub open spec fn invalid_utf8_message() -> Seq<char> {
    seq![
        's', 't', 'r', 'e', 'a', 'm', ' ', 'd', 'i', 'd', ' ', 'n', 'o', 't', ' ', 'c', 'o', 'n',
        't', 'a', 'i', 'n', ' ', 'v', 'a', 'l', 'i', 'd', ' ', 'U', 'T', 'F', '-', '8',
    ]
}

/// The message that reading past the end of a file gives.
pub open spec fn eof_message() -> Seq<char> {
    seq![
        'f', 'a', 'i', 'l', 'e', 'd', ' ', 't', 'o', ' ', 'f', 'i', 'l', 'l', ' ', 'w', 'h', 'o',
        'l', 'e', ' ', 'b', 'u', 'f', 'f', 'e', 'r',
    ]
}

/// The read error for a line of `file` that is not valid UTF-8.
pub fn invalid_utf8_error(file: &String) -> (e: StorageError)
    ensures
        e matches StorageError::Fs(f) && f.file@ == file@ && f.opt == PackFsErrorOpt::Read
            && f.inner@ == invalid_utf8_message(),
{
    let m = "stream did not contain valid UTF-8";
    proof {
        reveal_strlit("stream did not contain valid UTF-8");
    }
    let m = String::from_str(m);
    proof {
        assert(m@ =~= invalid_utf8_message());
    }
    StorageError::Fs(PackFsError::new(file, PackFsErrorOpt::Read, m))
}

/// The read error for reading past the end of `file`.
pub fn eof_error(file: &String) -> (e: StorageError)
    ensures
        e matches StorageError::Fs(f) && f.file@ == file@ && f.opt == PackFsErrorOpt::Read
            && f.inner@ == eof_message(),
{
    let m = "failed to fill whole buffer";
    proof {
        reveal_strlit("failed to fill whole buffer");
    }
    let m = String::from_str(m);
    proof {
        assert(m@ =~= eof_message());
    }
    StorageError::Fs(PackFsError::new(file, PackFsErrorOpt::Read, m))
}

/// How an operation is named in messages.
pub open spec fn opt_name(opt: PackFsErrorOpt) -> Seq<char> {
    match opt {
        PackFsErrorOpt::Read => "read"@,
        PackFsErrorOpt::Write => "write"@,
        PackFsErrorOpt::Dir => "create dir"@,
        PackFsErrorOpt::Remove => "remove"@,
        PackFsErrorOpt::Stat => "stat"@,
        PackFsErrorOpt::Move => "move"@,
    }
}

impl PackFsErrorOpt {
    /// The name of the operation.
    pub fn to_string(&self) -> (r: String)
        ensures
            r@ == opt_name(*self),
    {
        let s = match self {
            PackFsErrorOpt::Read => "read",
            PackFsErrorOpt::Write => "write",
            PackFsErrorOpt::Dir => "create dir",
            PackFsErrorOpt::Remove => "remove",
            PackFsErrorOpt::Stat => "stat",
            PackFsErrorOpt::Move => "move",
        };
        String::from_str(s)
    }
}

impl PackFsError {
    /// The diagnostic code of the error.
    pub fn code(&self) -> (r: String)
        ensures
            r@ == "PackFsError"@,
    {
        String::from_str("PackFsError")
    }

    /// The message of the error: the operation, the file, and what the
    /// system reported, in the storage's own wording.
    pub fn to_string(&self) -> (r: String)
        ensures
            r@ == fs_error_message(*self),
    {
        let mut r = String::from_str("Rspack Storage FS Error: ");
        let op = self.opt.to_string();
        r.append(op.as_str());
        r.append(" `");
        r.append(self.file.as_str());
        r.append("` failed with `");
        r.append(self.inner.as_str());
        r.append("`");
        r
    }
}

/// The message of a failed file operation.
pub open spec fn fs_error_message(f: PackFsError) -> Seq<char> {
    "Rspack Storage FS Error: "@ + opt_name(f.opt) + " `"@ + f.file@ + "` failed with `"@ + f.inner@
        + "`"@
}

/// The message of each error.
pub open spec fn error_message(e: StorageError) -> Seq<char> {
    match e {
        StorageError::Fs(f) => fs_error_message(f),
        StorageError::ScopeNotLoaded => "scope not loaded, run `get_all` first"@,
        StorageError::PackLengthMismatch => "pack keys and contents length not match"@,
        StorageError::RelativePath => "failed to get relative path: prefix not found"@,
        StorageError::MetaParse(f) => "parse meta file failed: "@ + parse_fault_message(f),
        StorageError::MetaBroken => "meta broken"@,
        StorageError::PackInfo => "parse pack file info failed"@,
        StorageError::Clock => "get current time failed"@,
    }
}

impl StorageError {
    /// The message of the error.
    pub fn to_string(&self) -> (r: String)
        ensures
            r@ == error_message(*self),
    {
        match self {
            StorageError::Fs(f) => f.to_string(),
            StorageError::ScopeNotLoaded => String::from_str("scope not loaded, run `get_all` first"),
            StorageError::PackLengthMismatch => String::from_str(
                "pack keys and contents length not match",
            ),
            StorageError::RelativePath => String::from_str(
                "failed to get relative path: prefix not found",
            ),
            StorageError::MetaParse(f) => {
                let mut r = String::from_str("parse meta file failed: ");
                let why = f.to_string();
                r.append(why.as_str());
                r
            },
            StorageError::MetaBroken => String::from_str("meta broken"),
            StorageError::PackInfo => String::from_str("parse pack file info failed"),
            StorageError::Clock => String::from_str("get current time failed"),
        }
    }
}

} // verus!
