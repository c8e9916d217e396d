use vstd::prelude::*;

verus! {

/// Error value carried by the fallible operations of this crate.
///
/// Its view is the error message itself, as a sequence of characters.
#[derive(Debug)]
pub struct KprError {
    message: String,
}

impl View for KprError {
    type V = Seq<char>;

    closed spec fn view(&self) -> Seq<char> {
        self.message@
    }
}

impl KprError {
    pub fn new(message: &str) -> (r: Self)
        ensures
            r@ == message@,
    {
        KprError { message: message.to_owned() }
    }

    pub fn default() -> (r: Self)
        ensures
            r@ == "Unknown error"@,
    {
        KprError { message: String::from_str("Unknown error") }
    }

    /// The human-readable description of the error.
    pub fn message(&self) -> (r: &str)
        ensures
            r@ == self@,
    {
        self.message.as_str()
    }
}

} // verus!
