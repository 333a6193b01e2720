//! Network endpoints as text.

use crate::text;
use crate::text::decimal;
use vstd::prelude::*;

verus! {

/// Host and port, joined by a colon.
pub open spec fn endpoint_text(host: Seq<char>, port: nat) -> Seq<char> {
    host + ":"@ + text::digits(port)
}

/// Join host and port.
pub fn endpoint(host: &str, port: u16) -> (r: String)
    ensures
        r@ == endpoint_text(host@, port as nat),
{
    let mut r = host.to_owned();
    r.append(":");
    r.append(decimal(port as u64).as_str());
    r
}

/// Host and port can be told apart again where the host holds no colon.
pub proof fn lemma_endpoint_is_host_and_port(host: Seq<char>, port: nat)
    requires
        !host.contains(':'),
    ensures
        text::pieces(endpoint_text(host, port), ':') == seq![host, text::digits(port)],
{
    reveal_strlit(":");
    text::lemma_decimal_reads_back(port, port);
    let parts = seq![host, text::digits(port)];
    assert forall|i: int| 0 <= i < parts.len() implies !(#[trigger] parts[i]).contains(':') by {}
    text::lemma_pieces_of_joined(parts, ':');
    assert(parts.skip(1) =~= seq![text::digits(port)]);
    assert(text::joined(parts.skip(1), ':') == text::digits(port));
    assert(endpoint_text(host, port) =~= text::joined(parts, ':'));
}

} // verus!
