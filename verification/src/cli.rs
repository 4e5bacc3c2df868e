//! How the command line reports failure: one line of what happened, one of
//! where, one of the fix, and the process exit code; and how it reads a
//! date flag.

use vstd::prelude::*;

use crate::date::{date_text, iso_result, Date};
use crate::error::{error_text, JamaError};
use crate::model::opt_string;
use crate::text::{append_str, chars_of, debug_text, string_of, trim, uint_chars, uint_text};

verus! {

/// A CLI-facing error: what happened, where, and how to fix it, plus the
/// exit code it should produce.
#[derive(Debug)]
pub struct CliError {
    pub what: String,
    pub where_: Option<String>,
    pub fix: Option<String>,
    pub exit_code: i32,
}

/// Where a library error happened, as the CLI reports it.
pub open spec fn error_where(e: JamaError) -> Option<Seq<char>> {
    match e {
        JamaError::Parse { line, .. } => Some("jama.beancount:"@ + uint_text(line as nat)),
        JamaError::Imbalance(imb) => Some("transaction dated "@ + date_text(imb.date)),
        _ => None,
    }
}

/// The fix the CLI suggests for a library error.
pub open spec fn error_fix(e: JamaError) -> Option<Seq<char>> {
    match e {
        JamaError::Parse { .. } => Some("fix the syntax at that line and try again"@),
        JamaError::Imbalance(_) => Some("add or correct a posting so the transaction sums to zero"@),
        JamaError::BalanceAssertionFailed { .. } => Some("run `jama check` for details"@),
        JamaError::UndeclaredAccount { account } => Some(
            "add `open "@ + account@ + "` to the ledger, or drop --strict"@,
        ),
        JamaError::Import(_) => Some("check the CSV file and rules file paths and column names"@),
        _ => None,
    }
}

/// The exit code of a library error: 2 for ledger content, 3 for the
/// store and I/O, 1 for bad input.
pub open spec fn error_exit_code(e: JamaError) -> i32 {
    match e {
        JamaError::Parse { .. } => 2,
        JamaError::Imbalance(_) => 2,
        JamaError::BalanceAssertionFailed { .. } => 2,
        JamaError::UndeclaredAccount { .. } => 2,
        JamaError::Store(_) => 3,
        JamaError::Import(_) => 1,
        JamaError::Io { .. } => 3,
        JamaError::Invalid(_) => 1,
    }
}

fn some_text(s: &str) -> (r: Option<String>)
    ensures
        opt_string(r) == Some(s@),
{
    Some(String::from_str(s))
}

impl CliError {
    /// A mistake of the user's, with a fix; exit code 1.
    pub fn user(what: &str, fix: &str) -> (r: CliError)
        ensures
            r.what@ == what@,
            r.where_ is None,
            opt_string(r.fix) == Some(fix@),
            r.exit_code == 1,
    {
        CliError { what: String::from_str(what), where_: None, fix: some_text(fix), exit_code: 1 }
    }

    /// A failure of the machine's, with no fix; exit code 3.
    pub fn internal(what: &str) -> (r: CliError)
        ensures
            r.what@ == what@,
            r.where_ is None,
            r.fix is None,
            r.exit_code == 3,
    {
        CliError { what: String::from_str(what), where_: None, fix: None, exit_code: 3 }
    }

    /// The CLI's report of a library error.
    pub fn from_error(e: &JamaError) -> (r: CliError)
        ensures
            r.what@ == error_text(*e),
            opt_string(r.where_) == error_where(*e),
            opt_string(r.fix) == error_fix(*e),
            r.exit_code == error_exit_code(*e),
    {
        let what = e.to_string();
        match e {
            JamaError::Parse { line, .. } => {
                let mut v = chars_of("jama.beancount:");
                let n = uint_chars(*line as u64);
                crate::text::append_chars(&mut v, &n);
                CliError {
                    what,
                    where_: Some(string_of(&v)),
                    fix: some_text("fix the syntax at that line and try again"),
                    exit_code: 2,
                }
            },
            JamaError::Imbalance(imb) => {
                let mut v = chars_of("transaction dated ");
                let d = imb.date.to_string();
                append_str(&mut v, d.as_str());
                CliError {
                    what,
                    where_: Some(string_of(&v)),
                    fix: some_text("add or correct a posting so the transaction sums to zero"),
                    exit_code: 2,
                }
            },
            JamaError::BalanceAssertionFailed { .. } => CliError {
                what,
                where_: None,
                fix: some_text("run `jama check` for details"),
                exit_code: 2,
            },
            JamaError::UndeclaredAccount { account } => {
                let mut v = chars_of("add `open ");
                append_str(&mut v, account.as_str());
                append_str(&mut v, "` to the ledger, or drop --strict");
                CliError { what, where_: None, fix: Some(string_of(&v)), exit_code: 2 }
            },
            JamaError::Store(_) => CliError { what, where_: None, fix: None, exit_code: 3 },
            JamaError::Import(_) => CliError {
                what,
                where_: None,
                fix: some_text("check the CSV file and rules file paths and column names"),
                exit_code: 1,
            },
            JamaError::Io { .. } => CliError { what, where_: None, fix: None, exit_code: 3 },
            JamaError::Invalid(_) => CliError { what, where_: None, fix: None, exit_code: 1 },
        }
    }
}

/// The process exit code for an error.
pub fn exit_code_for(e: &CliError) -> (r: i32)
    ensures
        r == e.exit_code,
{
    e.exit_code
}

/// The message for a date flag that did not parse.
pub open spec fn bad_date_text(flag: Seq<char>, text: Seq<char>, msg: Seq<char>) -> Seq<char> {
    "bad "@ + flag + " value "@ + debug_text(text) + ": "@ + msg
}

/// Reads a `--since`/`--until`-style date flag, accepting `today`,
/// `yesterday` and `YYYY-MM-DD`, with `today` the given date.
pub fn parse_date_flag_at(s: &Option<String>, flag: &str, today: Date) -> (r: Result<Option<Date>, CliError>)
    requires
        -crate::date::day_limit() < today.days(),
    ensures
        s is None ==> r matches Ok(None),
        s matches Some(text) ==> {
            let t = trim(text@);
            if t == "today"@ {
                r == Ok::<Option<Date>, CliError>(Some(today))
            } else if t == "yesterday"@ {
                r matches Ok(Some(d)) && d.days() == today.days() - 1
            } else {
                match iso_result(t) {
                    Ok(f) => r matches Ok(Some(d)) && d.ymd() == f,
                    Err(msg) => r matches Err(e) && e.what@ == bad_date_text(flag@, text@, msg)
                        && e.where_ is None && opt_string(e.fix) == Some(
                        "use YYYY-MM-DD, `today`, or `yesterday`"@,
                    ) && e.exit_code == 1,
                }
            }
        },
{
    match s {
        None => Ok(None),
        Some(text) => match Date::parse_at(text.as_str(), today) {
            Ok(d) => Ok(Some(d)),
            Err(msg) => {
                let mut v = chars_of("bad ");
                append_str(&mut v, flag);
                append_str(&mut v, " value ");
                let q = crate::text::debug_quoted(text.as_str());
                append_str(&mut v, q.as_str());
                append_str(&mut v, ": ");
                append_str(&mut v, msg.as_str());
                let what = string_of(&v);
                Err(CliError::user(what.as_str(), "use YYYY-MM-DD, `today`, or `yesterday`"))
            },
        },
    }
}

/// Reads a `--since`/`--until`-style date flag, accepting `today`,
/// `yesterday` and `YYYY-MM-DD`, with `today` read from the system clock
/// (see [`parse_date_flag_at`]).
pub fn parse_date_flag(s: &Option<String>, flag: &str) -> (r: Result<Option<Date>, CliError>)
    ensures
        s is None ==> r matches Ok(None),
        s matches Some(text) ==> {
            let t = trim(text@);
            if t == "today"@ || t == "yesterday"@ {
                r matches Ok(Some(_))
            } else {
                match iso_result(t) {
                    Ok(f) => r matches Ok(Some(d)) && d.ymd() == f,
                    Err(msg) => r matches Err(e) && e.what@ == bad_date_text(flag@, text@, msg)
                        && e.where_ is None && opt_string(e.fix) == Some(
                        "use YYYY-MM-DD, `today`, or `yesterday`"@,
                    ) && e.exit_code == 1,
                }
            }
        },
{
    parse_date_flag_at(s, flag, Date::today())
}

} // verus!
