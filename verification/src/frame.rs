//! The vocabulary of a pull-based sequence: what one pull can answer.

use vstd::prelude::*;

verus! {

/// One frame of a sequence: either a piece of data, or a signal of the
/// source that carries no data and passes through every stage untouched.
#[derive(Debug, PartialEq, Eq)]
pub enum Frame<T, F> {
    Data(T),
    Other(F),
}

/// The answer to one pull.
#[derive(Debug, PartialEq, Eq)]
pub enum Polled<T, E> {
    /// The next item of the sequence.
    Item(T),
    /// The sequence failed; nothing follows.
    Failed(E),
    /// The sequence is complete.
    End,
    /// Nothing is buffered: the source has to be asked, and its answer
    /// handed over, before the next pull can say more.
    Pull,
}

} // verus!
