use vstd::prelude::*;

verus! {

/// What kind of failure an error reports.
#[derive(PartialEq, Eq, Structural, Clone, Copy, Debug)]
pub enum ErrorKind {
    NotFound,
    InvalidInput,
    Other,
}

/// An error of the store: a kind and the message that a client is shown.
#[derive(Debug, PartialEq, Eq)]
pub struct KvError {
    pub kind: ErrorKind,
    pub message: String,
}

impl KvError {
    pub fn new(kind: ErrorKind, message: String) -> (e: KvError)
        ensures
            e.kind == kind,
            e.message@ == message@,
    {
        KvError { kind, message }
    }

    /// The text shown to a client for this error: its message.
    pub fn to_string(&self) -> (s: String)
        ensures
            s@ == self.message@,
    {
        self.message.clone()
    }
}

/// The message of a missing key or version.
pub open spec fn not_found_text() -> Seq<char> {
    "Item not found"@
}

/// The error returned for a key that is not stored.
pub fn not_found() -> (e: KvError)
    ensures
        e.kind == ErrorKind::NotFound,
        e.message@ == not_found_text(),
{
    KvError { kind: ErrorKind::NotFound, message: String::from_str("Item not found") }
}

} // verus!
