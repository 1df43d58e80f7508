//! The library's error type: a failure category plus an optional
//! human-readable message attached at the site that caught the failure.
use vstd::prelude::*;

verus! {

/// The category of a failure.
///
/// `Plain` marks an error that carries a message and no underlying cause.
/// `BadShape` is the structural failure: a value parsed as JSON but had the
/// wrong shape (a grid that is not an object, a metadata value that is not
/// a string).
#[derive(Clone, Copy, Debug, PartialEq, Eq, Structural)]
pub enum InnerError {
    Plain,
    Io,
    Store,
    Parse,
    PathEncoding,
    SchemeMismatch,
    BadShape,
}

/// An error of the library: a category and an optional message.
#[derive(Debug)]
pub struct MBTileError {
    pub message: Option<String>,
    pub source: InnerError,
}

impl MBTileError {
    /// An error carrying only a static message.
    pub fn new_static(message: &'static str) -> (r: MBTileError)
        ensures
            r.source == InnerError::Plain,
            r.message is Some && r.message->Some_0@ == message@,
    {
        MBTileError { message: Some(String::from_str(message)), source: InnerError::Plain }
    }

    /// An error carrying only a message.
    pub fn new(message: String) -> (r: MBTileError)
        ensures
            r.source == InnerError::Plain,
            r.message == Some(message),
    {
        MBTileError { message: Some(message), source: InnerError::Plain }
    }

    /// An error of the given category, with a message naming the failing
    /// operation.
    pub fn with_source(source: InnerError, message: &'static str) -> (r: MBTileError)
        ensures
            r.source == source,
            r.message is Some && r.message->Some_0@ == message@,
    {
        MBTileError { message: Some(String::from_str(message)), source }
    }
}

} // verus!
