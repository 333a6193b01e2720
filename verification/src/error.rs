//! The error that the gateway's decisions end in: a text for the operator.

use vstd::prelude::*;

verus! {

/// A failure, told as a text.
#[derive(Debug)]
pub struct GatewayError {
    /// What went wrong.
    pub message: String,
}

impl GatewayError {
    /// What went wrong.
    pub fn message(&self) -> (r: &str)
        ensures
            r@ == self.message@,
    {
        self.message.as_str()
    }
}

/// An error with a given text.
pub fn failure(message: String) -> (r: GatewayError)
    ensures
        r.message == message,
{
    GatewayError { message }
}

/// An error whose text is two pieces in a row.
pub fn failure_of(a: &str, b: &str) -> (r: GatewayError)
    ensures
        r.message@ == a@ + b@,
{
    let mut message = a.to_owned();
    message.append(b);
    GatewayError { message }
}

/// An error whose text is three pieces in a row.
pub fn failure_of3(a: &str, b: &str, c: &str) -> (r: GatewayError)
    ensures
        r.message@ == a@ + b@ + c@,
{
    let mut message = a.to_owned();
    message.append(b);
    message.append(c);
    GatewayError { message }
}

} // verus!
