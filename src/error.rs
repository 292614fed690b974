use crate::command::Method;
use vstd::prelude::*;

verus! {

/// What the library's operations report when they cannot do what was asked.
#[derive(Debug, PartialEq, Eq)]
pub enum Error {
    /// A command took the wrong number of arguments: the command, how many it
    /// takes and how many were given.
    InvalidArgumentLength(Method, usize, usize),
    /// The line does not start with a known command word; it holds the line.
    CommandParse(String),
    /// The input is too long to be hashed into a key.
    InputTooLong(usize),
    /// A position in a bucket was out of range: the position given, and the
    /// bucket's length.
    IndexOutOfBounds(usize, usize),
    /// A bucket was full.
    CapacityError,
}

} // verus!
