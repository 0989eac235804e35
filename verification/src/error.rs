//! What can go wrong.
use vstd::prelude::*;

use crate::text::{chars_of, join2, put_str, string_of};

verus! {

#[derive(Clone, Copy, PartialEq, Eq, Structural, Debug)]
pub enum ErrorKind {
    NotFound,
    AlreadyExists,
    InvalidInput,
    InvalidData,
    Other,
}

/// An archive that cannot be read or written, with what the `zip` crate says of
/// it; or a refusal of this library's own.
#[derive(Debug)]
pub enum Error {
    Archive(String),
    Said(ErrorKind, String),
}

/// What an `Error` says. The words of the `zip` crate are left open.
#[verifier::ext_equal]
pub enum Fault {
    Archive,
    Said(ErrorKind, Seq<char>),
}

impl View for Error {
    type V = Fault;

    open spec fn view(&self) -> Fault {
        match *self {
            Error::Archive(_) => Fault::Archive,
            Error::Said(kind, message) => Fault::Said(kind, message@),
        }
    }
}

impl Error {
    /// The kind of the error.
    pub fn kind(&self) -> (r: ErrorKind)
        ensures
            r == match self@ {
                Fault::Archive => ErrorKind::Other,
                Fault::Said(kind, _) => kind,
            },
    {
        match self {
            Error::Archive(_) => ErrorKind::Other,
            Error::Said(kind, _) => *kind,
        }
    }

    /// The words of the error.
    pub fn message(&self) -> (r: String)
        ensures
            self@ matches Fault::Said(_, m) ==> r@ == m,
    {
        match self {
            Error::Archive(m) => m.clone(),
            Error::Said(_, m) => m.clone(),
        }
    }
}

/// A refusal in fixed words.
pub fn refuse(kind: ErrorKind, words: &str) -> (r: Error)
    ensures
        r@ == Fault::Said(kind, words@),
{
    Error::Said(kind, string_of(&chars_of(words)))
}

/// A refusal that names something: `before`, the name, `after`.
pub fn refuse_named(kind: ErrorKind, before: &str, name: &str, after: &str) -> (r: Error)
    ensures
        r@ == Fault::Said(kind, before@ + name@ + after@),
{
    let mut out = join2(&chars_of(before), &chars_of(name));
    put_str(&mut out, after);
    Error::Said(kind, string_of(&out))
}

/// What a result with a string says.
pub open spec fn str_result(r: Result<String, Error>) -> Result<Seq<char>, Fault> {
    match r {
        Ok(s) => Ok(s@),
        Err(e) => Err(e@),
    }
}

} // verus!
