use vstd::prelude::*;

verus! {

/// A fatal puzzle-generation failure, carrying a human-readable message.
/// The view of a `PuzzleError` is the character sequence of its message.
#[derive(Debug)]
pub struct PuzzleError {
    err: String,
}

impl View for PuzzleError {
    type V = Seq<char>;

    closed spec fn view(&self) -> Seq<char> {
        self.err@
    }
}

impl PuzzleError {
    pub fn new(err: String) -> (r: PuzzleError)
        ensures
            r@ == err@,
    {
        PuzzleError { err }
    }

    /// The message carried by this error.
    pub fn message(&self) -> (r: &String)
        ensures
            r@ == self@,
    {
        &self.err
    }
}

} // verus!
