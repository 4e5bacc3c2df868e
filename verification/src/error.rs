//! The library's error type: every fallible operation says what happened,
//! where, and — where it can — how to fix it.

use vstd::prelude::*;

use crate::model::{imbalance_text, Imbalance};
use crate::text::{append_str, chars_of, string_of, uint_chars, uint_text};

verus! {

#[derive(Debug)]
pub enum JamaError {
    /// A parse error in a ledger text file: line number + message.
    Parse { line: usize, message: String },
    /// A transaction (or set of postings) that doesn't balance.
    Imbalance(Imbalance),
    /// A `balance` assertion directive that doesn't hold.
    BalanceAssertionFailed { message: String },
    /// An account referenced without an `open` directive (strict mode).
    UndeclaredAccount { account: String },
    /// A problem reading, writing, or migrating the store.
    Store(String),
    /// A problem with a CSV import file or its rules file.
    Import(String),
    /// Any other I/O failure, with context about which file/operation and
    /// the system's description of the failure.
    Io { context: String, source: String },
    /// A user-facing validation error (bad flag, bad path, etc).
    Invalid(String),
}

/// The message of an error, as its `Display` writes it.
pub open spec fn error_text(e: JamaError) -> Seq<char> {
    match e {
        JamaError::Parse { line, message } => "parse error at line "@ + uint_text(line as nat) + ": "@ + message@,
        JamaError::Imbalance(imb) => "imbalance: "@ + imbalance_text(imb),
        JamaError::BalanceAssertionFailed { message } => "balance assertion failed: "@ + message@,
        JamaError::UndeclaredAccount { account } => "undeclared account: "@ + account@,
        JamaError::Store(msg) => "store error: "@ + msg@,
        JamaError::Import(msg) => "import error: "@ + msg@,
        JamaError::Io { context, source } => context@ + ": "@ + source@,
        JamaError::Invalid(msg) => msg@,
    }
}

impl JamaError {
    /// The message (`Display`).
    pub fn to_string(&self) -> (r: String)
        ensures
            r@ == error_text(*self),
    {
        match self {
            JamaError::Parse { line, message } => {
                let mut v = chars_of("parse error at line ");
                let n = uint_chars(*line as u64);
                crate::text::append_chars(&mut v, &n);
                append_str(&mut v, ": ");
                append_str(&mut v, message.as_str());
                string_of(&v)
            },
            JamaError::Imbalance(imb) => {
                let mut v = chars_of("imbalance: ");
                let t = imb.to_string();
                append_str(&mut v, t.as_str());
                string_of(&v)
            },
            JamaError::BalanceAssertionFailed { message } => {
                let mut v = chars_of("balance assertion failed: ");
                append_str(&mut v, message.as_str());
                string_of(&v)
            },
            JamaError::UndeclaredAccount { account } => {
                let mut v = chars_of("undeclared account: ");
                append_str(&mut v, account.as_str());
                string_of(&v)
            },
            JamaError::Store(msg) => {
                let mut v = chars_of("store error: ");
                append_str(&mut v, msg.as_str());
                string_of(&v)
            },
            JamaError::Import(msg) => {
                let mut v = chars_of("import error: ");
                append_str(&mut v, msg.as_str());
                string_of(&v)
            },
            JamaError::Io { context, source } => {
                let mut v = chars_of(context.as_str());
                append_str(&mut v, ": ");
                append_str(&mut v, source.as_str());
                string_of(&v)
            },
            JamaError::Invalid(msg) => msg.clone(),
        }
    }
}

} // verus!
