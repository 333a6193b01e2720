//! Fetching the AsyncAPI document.

use vstd::prelude::*;

verus! {

/// Where the document is.
pub open spec fn document_url(base_url: Seq<char>) -> Seq<char> {
    base_url + "/asyncapi"@
}

/// Where the document is.
pub fn asyncapi_url(base_url: &str) -> (r: String)
    ensures
        r@ == document_url(base_url@),
{
    let mut r = base_url.to_owned();
    r.append("/asyncapi");
    r
}

/// What one attempt at the document brought.
#[derive(Debug, Clone, Copy, PartialEq, Eq, Structural)]
pub enum Attempt {
    /// The request failed.
    NoResponse,
    /// A response came, with this status, and its body could be read.
    Body(u16),
    /// A response came, with this status, and its body could not be read.
    NoBody(u16),
}

/// What follows an attempt.
#[derive(Debug, Clone, Copy, PartialEq, Eq, Structural)]
pub enum Verdict {
    /// Try again.
    Transient,
    /// Give up.
    Permanent,
    /// The body is the document.
    Document,
}

/// A failed request and a server error may pass; a body that cannot be read
/// does not. The body of every other response is the document.
pub open spec fn verdict_of(attempt: Attempt) -> Verdict {
    match attempt {
        Attempt::NoResponse => Verdict::Transient,
        Attempt::Body(status) => if 500 <= status <= 599 {
            Verdict::Transient
        } else {
            Verdict::Document
        },
        Attempt::NoBody(status) => if 500 <= status <= 599 {
            Verdict::Transient
        } else {
            Verdict::Permanent
        },
    }
}

/// Whether a status is a server error.
pub fn is_server_error(status: u16) -> (r: bool)
    ensures
        r == (500 <= status <= 599),
        r <==> status / 100 == 5,
{
    500 <= status && status <= 599
}

/// What follows an attempt at the document.
pub fn classify(attempt: Attempt) -> (r: Verdict)
    ensures
        r == verdict_of(attempt),
{
    match attempt {
        Attempt::NoResponse => Verdict::Transient,
        Attempt::Body(status) => if is_server_error(status) {
            Verdict::Transient
        } else {
            Verdict::Document
        },
        Attempt::NoBody(status) => if is_server_error(status) {
            Verdict::Transient
        } else {
            Verdict::Permanent
        },
    }
}

/// The document is had from a response that is no server error and whose body could
/// be read, and from nothing else. It is given up where such a response's body could
/// not be read. Everything else is tried again.
pub proof fn lemma_verdicts(status: u16)
    ensures
        verdict_of(Attempt::NoResponse) is Transient,
        status < 500 || 600 <= status ==> verdict_of(Attempt::Body(status)) is Document
            && verdict_of(Attempt::NoBody(status)) is Permanent,
        500 <= status < 600 ==> verdict_of(Attempt::Body(status)) is Transient && verdict_of(
            Attempt::NoBody(status),
        ) is Transient,
{
}

} // verus!
