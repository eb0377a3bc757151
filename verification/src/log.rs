use vstd::prelude::*;
use crate::common::commands::{Command, CommandModel};
use crate::error::KvError;
use crate::numbers::{decimal, format_i64, format_u64, i64_text};

verus! {

/// Writes what the server does to its log.
pub struct Logger;

/// The line that describes a command's key and argument in the log, for the
/// commands that have one.
pub open spec fn details_text(c: CommandModel) -> Option<Seq<char>> {
    match c {
        CommandModel::SetValue(k, v) => Some("Set command - Key: "@ + k + ", Value: "@ + v),
        CommandModel::Get(k) => Some("Get command - Key: "@ + k),
        CommandModel::Del(k) => Some("Del command - Key: "@ + k),
        CommandModel::Incr(k, n) => Some("Incr command - Key: "@ + k + ", Amount: "@ + i64_text(n)),
        CommandModel::Decr(k, n) => Some("Decr command - Key: "@ + k + ", Amount: "@ + i64_text(n)),
        CommandModel::Rollback(k, n) => Some(
            "Rollback command - Key: "@ + k + ", Commit: "@ + decimal(n as nat),
        ),
        _ => None,
    }
}

/// The line that records an answer in the log.
pub open spec fn response_text(ok: bool, text: Seq<char>) -> Seq<char> {
    if ok {
        "Response: "@ + text
    } else {
        "Error: "@ + text
    }
}

fn joined(a: &str, b: &str) -> (s: String)
    ensures
        s@ == a@ + b@,
{
    let mut s = a.to_owned();
    s.append(b);
    s
}

fn joined4(a: &str, b: &str, c: &str, d: &str) -> (s: String)
    ensures
        s@ == a@ + b@ + c@ + d@,
{
    let mut s = a.to_owned();
    s.append(b);
    s.append(c);
    s.append(d);
    s
}

impl Logger {
    /// The log line that describes the command's key and argument, for
    /// `set`, `get`, `del`, `incr`, `decr` and `rollback`.
    pub fn details(command: &Command) -> (r: Option<String>)
        ensures
            match (r, details_text(command.model())) {
                (Some(s), Some(t)) => s@ == t,
                (None, None) => true,
                _ => false,
            },
    {
        match command {
            Command::SetValue(k, v) => Some(
                joined4("Set command - Key: ", k.as_str(), ", Value: ", v.as_str()),
            ),
            Command::Get(k) => Some(joined("Get command - Key: ", k.as_str())),
            Command::Del(k) => Some(joined("Del command - Key: ", k.as_str())),
            Command::Incr(k, n) => {
                let t = format_i64(*n);
                Some(joined4("Incr command - Key: ", k.as_str(), ", Amount: ", t.as_str()))
            },
            Command::Decr(k, n) => {
                let t = format_i64(*n);
                Some(joined4("Decr command - Key: ", k.as_str(), ", Amount: ", t.as_str()))
            },
            Command::Rollback(k, n) => {
                let t = format_u64(*n);
                Some(joined4("Rollback command - Key: ", k.as_str(), ", Commit: ", t.as_str()))
            },
            _ => None,
        }
    }

    /// The log line that records an answer: its text, or its error's
    /// message.
    pub fn response(respond: &Result<String, KvError>) -> (s: String)
        ensures
            s@ == match respond {
                Ok(t) => response_text(true, t@),
                Err(e) => response_text(false, e.message@),
            },
    {
        match respond {
            Ok(t) => joined("Response: ", t.as_str()),
            Err(e) => joined("Error: ", e.message.as_str()),
        }
    }
}

} // verus!
