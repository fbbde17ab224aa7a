//! The error a parse reports: where it stopped and why.
use vstd::prelude::*;
use crate::text::{decimal, decimal_text, push_str};

verus! {

/// A parse failure: the byte offset in the input where parsing stopped and a
/// short description.
#[derive(Clone, Debug, PartialEq, Eq)]
pub struct Error {
    pub offset: usize,
    pub message: String,
}

impl Error {
    pub fn new(offset: usize, message: &str) -> (r: Self)
        ensures
            r.offset == offset,
            r.message@ == message@,
    {
        Error { offset, message: message.to_owned() }
    }

    /// The error as a sentence: `JSON error at byte <offset>: <message>`.
    pub fn to_string(&self) -> (r: String)
        ensures
            r@ == "JSON error at byte "@ + decimal(self.offset as nat) + ": "@ + self.message@,
    {
        let mut out = String::new();
        push_str(&mut out, "JSON error at byte ");
        let digits = decimal_text(self.offset);
        push_str(&mut out, digits.as_str());
        push_str(&mut out, ": ");
        push_str(&mut out, self.message.as_str());
        proof {
            assert(Seq::<char>::empty() + "JSON error at byte "@ =~= "JSON error at byte "@);
        }
        out
    }
}

} // verus!
