use vstd::prelude::*;

use crate::text::push_text;

verus! {

/// The one error kind of the evaluator: a message, with a source position reserved for later
/// diagnostics.
#[derive(Debug)]
pub struct LispError {
    message: String,
    _row: usize,
    _col: usize,
}

impl View for LispError {
    type V = Seq<char>;

    closed spec fn view(&self) -> Seq<char> {
        self.message@
    }
}

impl LispError {
    pub fn new(message: &str) -> (r: LispError)
        ensures
            r@ == message@,
    {
        LispError { message: message.to_owned(), _row: 0, _col: 0 }
    }

    /// An error that takes ownership of an already built message.
    pub fn from_message(message: String) -> (r: LispError)
        ensures
            r@ == message@,
    {
        LispError { message, _row: 0, _col: 0 }
    }

    /// An error whose message is `a`, `b` and `c` in a row.
    pub fn framed(a: &str, b: &str, c: &str) -> (r: LispError)
        ensures
            r@ == a@ + b@ + c@,
    {
        let mut m = String::new();
        push_text(&mut m, a);
        push_text(&mut m, b);
        push_text(&mut m, c);
        assert(m@ =~= a@ + b@ + c@);
        LispError { message: m, _row: 0, _col: 0 }
    }

    pub fn message(&self) -> (r: &str)
        ensures
            r@ == self@,
    {
        self.message.as_str()
    }
}

pub type LispResult<T> = Result<T, LispError>;

} // verus!
