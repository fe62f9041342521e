//! The typed errors that the operations of the store report.

use crate::text::{decimal, push_decimal};
use vstd::prelude::*;
use vstd::std_specs::convert::FromSpecImpl;
use vstd::string::StringExecFns;

verus! {

/// `std::io::Error`: an I/O failure as the operating system reported it.
/// The store looks into no such value; it carries it from the place where it
/// arose to the caller.
#[verifier::external_type_specification]
#[verifier::external_body]
pub struct ExIoError(std::io::Error);

pub type DbResult<T> = Result<T, DbError>;

/// What can go wrong in the store.
#[derive(Debug)]
pub enum DbError {
    /// A read, write, flush or rename on disk failed.
    Io(std::io::Error),
    /// A log record or a snapshot does not decode.  `line` says why:
    /// `<truncated>` where bytes are missing, `<utf8>` where the bytes of a
    /// string are not UTF-8.
    CorruptLog { line: String },
    /// An unknown opcode, a malformed line of text, or a record that is too
    /// large for the log.
    InvalidCommand { input: String },
    /// The ingestion pipeline has shut down.
    ChannelClosed,
    /// A read found no entry under the key.
    KeyNotFound,
}

/// Why a sequence of bytes does not decode.
pub enum Fault {
    /// Fewer bytes remain than the reader needs.
    Truncated,
    /// The bytes of a string are not UTF-8.
    InvalidEncoding,
    /// The record starts with a byte that stands for no command.
    UnknownOpcode(u8),
}

impl From<std::io::Error> for DbError {
    fn from(e: std::io::Error) -> (r: DbError) {
        DbError::Io(e)
    }
}

impl FromSpecImpl<std::io::Error> for DbError {
    open spec fn obeys_from_spec() -> bool {
        true
    }

    open spec fn from_spec(e: std::io::Error) -> DbError {
        DbError::Io(e)
    }
}

impl DbError {
    /// The error of a reader that ran out of bytes.
    pub open spec fn is_truncated(self) -> bool {
        self matches DbError::CorruptLog { line } && line@ == "<truncated>"@
    }

    /// The error of a reader whose bytes are not UTF-8.
    pub open spec fn is_invalid_encoding(self) -> bool {
        self matches DbError::CorruptLog { line } && line@ == "<utf8>"@
    }

    /// The error of a decoder that met the opcode `op`, which stands for no
    /// command.
    pub open spec fn is_unknown_opcode(self, op: u8) -> bool {
        self matches DbError::InvalidCommand { input } && input@ == "unknown opcode "@ + decimal(
            op as nat,
        )
    }

    /// Whether this error reports the fault `f`.
    pub open spec fn reports(self, f: Fault) -> bool {
        match f {
            Fault::Truncated => self.is_truncated(),
            Fault::InvalidEncoding => self.is_invalid_encoding(),
            Fault::UnknownOpcode(op) => self.is_unknown_opcode(op),
        }
    }

    /// The error as a line of text, where `detail` is what an I/O failure
    /// says of itself.
    pub open spec fn text(self, detail: Seq<char>) -> Seq<char> {
        match self {
            DbError::Io(_) => "disk error: "@ + detail,
            DbError::CorruptLog { line } => "corrupt log entry: "@ + line@,
            DbError::InvalidCommand { input } => "invalid command: "@ + input@,
            DbError::ChannelClosed => "task channel was closed"@,
            DbError::KeyNotFound => "key not found"@,
        }
    }

    /// The error for bytes that end too early.
    pub fn truncated() -> (e: DbError)
        ensures
            e.reports(Fault::Truncated),
    {
        DbError::CorruptLog { line: "<truncated>".to_owned() }
    }

    /// The error for a string whose bytes are not UTF-8.
    pub fn invalid_encoding() -> (e: DbError)
        ensures
            e.reports(Fault::InvalidEncoding),
    {
        DbError::CorruptLog { line: "<utf8>".to_owned() }
    }

    /// The error for a record that starts with the byte `op`, which stands
    /// for no command.
    pub fn unknown_opcode(op: u8) -> (e: DbError)
        ensures
            e.reports(Fault::UnknownOpcode(op)),
    {
        let mut input = "unknown opcode ".to_owned();
        push_decimal(&mut input, op as u64);
        DbError::InvalidCommand { input }
    }

    /// The error as a line of text; `detail` is used for an I/O failure only.
    pub fn render(&self, detail: &str) -> (r: String)
        ensures
            r@ == self.text(detail@),
    {
        let mut out = String::new();
        match self {
            DbError::Io(_) => {
                out.append("disk error: ");
                out.append(detail);
            },
            DbError::CorruptLog { line } => {
                out.append("corrupt log entry: ");
                out.append(line.as_str());
            },
            DbError::InvalidCommand { input } => {
                out.append("invalid command: ");
                out.append(input.as_str());
            },
            DbError::ChannelClosed => {
                out.append("task channel was closed");
            },
            DbError::KeyNotFound => {
                out.append("key not found");
            },
        }
        assert(out@ =~= self.text(detail@));
        out
    }

    /// The error as a line of text.  An I/O failure is shown with what the
    /// operating system says of it, which may be any text.
    pub fn to_string(&self) -> (r: String)
        ensures
            exists|detail: Seq<char>| r@ == self.text(detail),
    {
        match self {
            DbError::Io(e) => {
                let detail = e.to_string();
                self.render(detail.as_str())
            },
            _ => self.render(""),
        }
    }
}

} // verus!
