//! The errors one attempt to read a record can yield.

use vstd::prelude::*;

verus! {

/// WARC processing error.
#[derive(Debug)]
pub enum WarcError {
    /// A structural violation of the format, with its reason.
    Malformed(String),
    /// The stream ended before the declared content and trailer were read.
    IO,
    /// The stream was already at its end when the read began: orderly
    /// termination, never surfaced by the streaming reader as an error.
    EOF,
}

impl WarcError {
    /// The reason text of a `Malformed` error, or an empty string.
    pub fn reason(&self) -> (r: &str)
        ensures
            self matches WarcError::Malformed(m) ==> r@ == m@,
            !(self matches WarcError::Malformed(m)) ==> r@ == Seq::<char>::empty(),
    {
        proof {
            reveal_strlit("");
        }
        match self {
            WarcError::Malformed(m) => m.as_str(),
            _ => "",
        }
    }
}

} // verus!
