//! Parse failures.

use vstd::prelude::*;

verus! {

/// Why and where a parse stopped: a fixed message and the byte offset at
/// which the problem was detected.
#[derive(Debug, Clone, Copy, PartialEq, Eq)]
pub struct Error {
    pub msg: &'static str,
    pub pos: usize,
}

/// The mathematical content of an [`Error`]: the same message, with the offset
/// as an unbounded integer.
pub ghost struct Fault {
    pub msg: &'static str,
    pub pos: int,
}

impl View for Error {
    type V = Fault;

    open spec fn view(&self) -> Fault {
        Fault { msg: self.msg, pos: self.pos as int }
    }
}

impl Error {
    /// The message that says what was wrong.
    pub fn msg(&self) -> (m: &'static str)
        ensures
            m == self.msg,
    {
        self.msg
    }

    /// The byte offset at which the problem was detected.
    pub fn pos(&self) -> (p: usize)
        ensures
            p == self.pos,
    {
        self.pos
    }
}

} // verus!
