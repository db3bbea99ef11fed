use vstd::prelude::*;

verus! {

/// The error returned when a string cannot be decoded.
#[derive(Debug)]
pub struct DecodeError {
    pub msg: String,
}

impl DecodeError {
    pub fn new(msg: &str) -> (r: DecodeError)
        ensures
            r.msg@ == msg@,
    {
        DecodeError { msg: String::from_str(msg) }
    }

    /// The message carried by this error.
    pub fn message(&self) -> (r: String)
        ensures
            r@ == self.msg@,
    {
        self.msg.clone()
    }
}

} // verus!
