//! Errors reported by the engine.

use vstd::prelude::*;

verus! {

/// The class of an error.
#[derive(Debug, Clone, Copy, PartialEq, Eq, Structural)]
pub enum ErrorKind {
    Parse,
    Schema,
    Constraint,
    Type,
    Overflow,
    Unsupported,
    Transaction,
    Limit,
}

/// An error with its class and a message.
#[derive(Debug)]
pub struct KkdbError {
    pub kind: ErrorKind,
    pub message: String,
}

pub type Result<T> = core::result::Result<T, KkdbError>;

impl KkdbError {
    /// An error of the given class with a message.
    pub fn new(kind: ErrorKind, msg: &str) -> (r: KkdbError)
        ensures r.kind == kind, r.message@ == msg@,
    {
        KkdbError { kind, message: msg.to_owned() }
    }

    /// An error whose message is given as characters.
    pub fn from_chars(kind: ErrorKind, msg: &Vec<char>) -> (r: KkdbError)
        ensures r.kind == kind, r.message@ == msg@,
    {
        KkdbError { kind, message: crate::types::chars_to_string(msg) }
    }

    /// The message of the error.
    pub fn to_string(&self) -> (r: String)
        ensures r@ == self.message@,
    {
        self.message.clone()
    }
}

} // verus!
