//! BACnet/SC reads: the present value of one analog input, through a hub.

use crate::asyncapi::types::BacnetScBinding;
use crate::bacnet::client as bacnet;
use crate::bacnet::client::{check_supported, to_number, BacnetValue};
use crate::config::GatewayCredentials;
use crate::error::{failure, failure_of, GatewayError};
use crate::scalar::Scalar;
use crate::text;
use crate::text::{chars_of, decimal};
use vstd::prelude::*;

verus! {

// ---------------------------------------------------------------------
// Addresses
// ---------------------------------------------------------------------

/// The value of a hexadecimal digit, if a character is one.
pub open spec fn hex_value(c: char) -> Option<u8> {
    if '0' <= c <= '9' {
        Some((c as u32 - '0' as u32) as u8)
    } else if 'a' <= c <= 'f' {
        Some((c as u32 - 'a' as u32 + 10) as u8)
    } else if 'A' <= c <= 'F' {
        Some((c as u32 - 'A' as u32 + 10) as u8)
    } else {
        None
    }
}

/// The value of a hexadecimal digit, if a character is one.
fn hex_digit(c: char) -> (r: Option<u8>)
    ensures
        r == hex_value(c),
{
    if '0' <= c && c <= '9' {
        Some((c as u32 - '0' as u32) as u8)
    } else if 'a' <= c && c <= 'f' {
        Some((c as u32 - 'a' as u32 + 10) as u8)
    } else if 'A' <= c && c <= 'F' {
        Some((c as u32 - 'A' as u32 + 10) as u8)
    } else {
        None
    }
}

/// The values of the hexadecimal digits of a text; other characters are left
/// out.
pub open spec fn nibbles(s: Seq<char>) -> Seq<u8>
    decreases s.len(),
{
    if s.len() == 0 {
        Seq::empty()
    } else {
        match hex_value(s.last()) {
            Some(v) => nibbles(s.drop_last()).push(v),
            None => nibbles(s.drop_last()),
        }
    }
}

/// The digits of two texts in a row are those of the one, and then those of
/// the other.
pub proof fn lemma_nibbles_in_a_row(a: Seq<char>, b: Seq<char>)
    ensures
        nibbles(a + b) == nibbles(a) + nibbles(b),
    decreases b.len(),
{
    if b.len() == 0 {
        assert(a + b =~= a);
        assert(nibbles(a) + nibbles(b) =~= nibbles(a));
    } else {
        assert((a + b).drop_last() =~= a + b.drop_last());
        lemma_nibbles_in_a_row(a, b.drop_last());
        match hex_value(b.last()) {
            Some(v) => {
                assert((nibbles(a) + nibbles(b.drop_last())).push(v) =~= nibbles(a) + nibbles(
                    b.drop_last(),
                ).push(v));
            },
            None => {},
        }
    }
}

/// Separators do not matter: an address reads the same with a character that is
/// no digit put in anywhere.
pub proof fn lemma_separators_do_not_matter(a: Seq<char>, separator: char, b: Seq<char>)
    requires
        hex_value(separator) is None,
    ensures
        nibbles(a.push(separator) + b) == nibbles(a + b),
{
    lemma_nibbles_in_a_row(a.push(separator), b);
    lemma_nibbles_in_a_row(a, b);
    assert(a.push(separator).drop_last() =~= a);
}

/// The values of the hexadecimal digits of a text.
fn collect_nibbles(s: &str) -> (r: Vec<u8>)
    ensures
        r@ == nibbles(s@),
        forall|i: int| 0 <= i < r@.len() ==> #[trigger] r@[i] < 16,
{
    let chars = chars_of(s);
    let mut out: Vec<u8> = Vec::new();
    let mut i: usize = 0;
    while i < chars.len()
        invariant
            i <= chars@.len(),
            out@ == nibbles(chars@.take(i as int)),
            forall|k: int| 0 <= k < out@.len() ==> #[trigger] out@[k] < 16,
        decreases chars@.len() - i,
    {
        assert(chars@.take(i + 1).drop_last() =~= chars@.take(i as int));
        if let Some(v) = hex_digit(chars[i]) {
            out.push(v);
        }
        i = i + 1;
    }
    assert(chars@.take(i as int) =~= chars@);
    out
}

/// A text as the `Debug` format shows it.
pub uninterp spec fn debug_quoted(s: Seq<char>) -> Seq<char>;

/// The `Debug` format of `str`: quoted, and escaped where it asks for it. The
/// result depends on the text alone.
#[verifier::external_body]
fn debug_quote(s: &str) -> (r: String)
    ensures
        r@ == debug_quoted(s@),
{
    format!("{s:?}")
}

/// What is said of a text that is no address, given how it is shown.
pub open spec fn bad_vmac(digits: nat, shown: Seq<char>) -> Seq<char> {
    "VMAC must be 12 hex digits (got "@ + text::digits(digits) + " from "@ + shown + ")"@
}

/// The address that twelve hexadecimal digits make, two to a byte.
pub open spec fn vmac_of(n: Seq<u8>) -> Seq<u8> {
    Seq::new(6, |i: int| (n[2 * i] * 16 + n[2 * i + 1]) as u8)
}

/// The bytes of an address, from its digits.
fn assemble(n: &[u8]) -> (r: [u8; 6])
    requires
        n@.len() == 12,
        forall|i: int| 0 <= i < 12 ==> #[trigger] n@[i] < 16,
    ensures
        r@ == vmac_of(n@),
{
    let r: [u8; 6] = [
        n[0] * 16 + n[1],
        n[2] * 16 + n[3],
        n[4] * 16 + n[5],
        n[6] * 16 + n[7],
        n[8] * 16 + n[9],
        n[10] * 16 + n[11],
    ];
    assert(r@ =~= vmac_of(n@));
    r
}

/// Read an address: twelve hexadecimal digits, whatever stands between them.
pub fn parse_vmac(s: &str) -> (r: Result<[u8; 6], GatewayError>)
    ensures
        match r {
            Ok(v) => nibbles(s@).len() == 12 && v@ == vmac_of(nibbles(s@)),
            Err(e) => nibbles(s@).len() != 12 && e.message@ == bad_vmac(
                nibbles(s@).len(),
                debug_quoted(s@),
            ),
        },
{
    let digits = collect_nibbles(s);
    if digits.len() != 12 {
        let mut m = "VMAC must be 12 hex digits (got ".to_owned();
        m.append(decimal(digits.len() as u64).as_str());
        m.append(" from ");
        m.append(debug_quote(s).as_str());
        m.append(")");
        return Err(failure(m));
    }
    Ok(assemble(digits.as_slice()))
}

// ---------------------------------------------------------------------
// Identity
// ---------------------------------------------------------------------

/// The seed where the clock gives none.
pub const FALLBACK_SEED: u32 = 0xDEAD_BEEF;

/// The byte at an index that a seed is spread to.
pub open spec fn spread(seed: u32, i: u32) -> u8 {
    ((seed >> ((i % 4) * 8) as u32) ^ (i * 31) as u32) as u8
}

/// The byte at an index that a seed is spread to.
fn spread_byte(seed: u32, i: u32) -> (r: u8)
    requires
        i < 16,
    ensures
        r == spread(seed, i),
{
    ((seed >> ((i % 4) * 8)) ^ (i * 31)) as u8
}

/// The seed of an identity: the clock's nanoseconds, or a fixed number where
/// the clock is before its epoch.
pub open spec fn seed_of(subsec_nanos: Option<u32>) -> u32 {
    match subsec_nanos {
        Some(n) => n,
        None => FALLBACK_SEED,
    }
}

/// A fresh address for the gateway's own node: random bytes, or the clock
/// spread over it where there are none to be had.
pub fn random_vmac(random: Option<[u8; 6]>, subsec_nanos: Option<u32>) -> (r: [u8; 6])
    ensures
        match random {
            Some(bytes) => r@ == bytes@,
            None => forall|i: int|
                0 <= i < 6 ==> #[trigger] r@[i] == spread(seed_of(subsec_nanos), i as u32),
        },
{
    if let Some(bytes) = random {
        return bytes;
    }
    let seed: u32 = match subsec_nanos {
        Some(n) => n,
        None => FALLBACK_SEED,
    };
    [
        spread_byte(seed, 0),
        spread_byte(seed, 1),
        spread_byte(seed, 2),
        spread_byte(seed, 3),
        spread_byte(seed, 4),
        spread_byte(seed, 5),
    ]
}

/// A fresh device identifier for the gateway's own node: random bytes, or the
/// clock spread over it where there are none to be had.
pub fn random_uuid(random: Option<[u8; 16]>, subsec_nanos: Option<u32>) -> (r: [u8; 16])
    ensures
        match random {
            Some(bytes) => r@ == bytes@,
            None => forall|i: int|
                0 <= i < 16 ==> #[trigger] r@[i] == spread(seed_of(subsec_nanos), i as u32),
        },
{
    if let Some(bytes) = random {
        return bytes;
    }
    let seed: u32 = match subsec_nanos {
        Some(n) => n,
        None => FALLBACK_SEED,
    };
    [
        spread_byte(seed, 0),
        spread_byte(seed, 1),
        spread_byte(seed, 2),
        spread_byte(seed, 3),
        spread_byte(seed, 4),
        spread_byte(seed, 5),
        spread_byte(seed, 6),
        spread_byte(seed, 7),
        spread_byte(seed, 8),
        spread_byte(seed, 9),
        spread_byte(seed, 10),
        spread_byte(seed, 11),
        spread_byte(seed, 12),
        spread_byte(seed, 13),
        spread_byte(seed, 14),
        spread_byte(seed, 15),
    ]
}

// ---------------------------------------------------------------------
// Reads
// ---------------------------------------------------------------------

/// What is said where the gateway has no credentials.
pub open spec fn no_credentials() -> Seq<char> {
    "BACnet/SC requires gateway_credentials (CA bundle + cert + key) \u{2014} not configured"@
}

/// One read.
#[derive(Debug)]
pub struct ScPlan {
    /// Address of the device.
    pub dest_vmac: [u8; 6],
    /// Credentials for the hub.
    pub credentials: GatewayCredentials,
}

/// Why a binding is not read, if it is not.
pub open spec fn refusal(b: BacnetScBinding, has_credentials: bool) -> Option<Seq<char>> {
    if !has_credentials {
        Some(no_credentials())
    } else if bacnet::unsupported("BACnet/SC"@, b.object_type@, b.property_id@) is Some {
        bacnet::unsupported("BACnet/SC"@, b.object_type@, b.property_id@)
    } else if nibbles(b.device_vmac@).len() != 12 {
        Some(bad_vmac(nibbles(b.device_vmac@).len(), debug_quoted(b.device_vmac@)))
    } else {
        None
    }
}

/// The read that measures a binding.
pub fn plan_read(b: &BacnetScBinding, creds: Option<&GatewayCredentials>) -> (r: Result<
    ScPlan,
    GatewayError,
>)
    ensures
        match r {
            Ok(p) => {
                &&& refusal(*b, creds is Some) is None
                &&& p.dest_vmac@ == vmac_of(nibbles(b.device_vmac@))
                &&& creds == Some(&p.credentials)
            },
            Err(e) => refusal(*b, creds is Some) == Some(e.message@),
        },
{
    let credentials = match creds {
        Some(c) => c.clone(),
        None => {
            return Err(
                failure(
                    "BACnet/SC requires gateway_credentials (CA bundle + cert + key) \u{2014} not configured".to_owned(),
                ),
            );
        },
    };
    if let Err(e) = check_supported("BACnet/SC", b.object_type.as_str(), b.property_id.as_str()) {
        return Err(e);
    }
    match parse_vmac(b.device_vmac.as_str()) {
        Err(e) => Err(e),
        Ok(dest_vmac) => Ok(ScPlan { dest_vmac, credentials }),
    }
}

/// The number of a value that was read, given how the value is shown.
pub fn coerce_to_number<N: Scalar>(v: BacnetValue, shown: &str) -> (r: Result<N, GatewayError>)
    ensures
        match bacnet::number_of::<N>(v) {
            Some(x) => r matches Ok(y) && y == x,
            None => r matches Err(e) && e.message@
                == "Tier 1 BACnet/SC only supports numeric PropertyValue variants, got "@ + shown@,
        },
{
    match to_number::<N>(v) {
        Some(x) => Ok(x),
        None => Err(
            failure_of(
                "Tier 1 BACnet/SC only supports numeric PropertyValue variants, got ",
                shown,
            ),
        ),
    }
}

// ---------------------------------------------------------------------
// Laws
// ---------------------------------------------------------------------

/// A character stands for a hexadecimal digit's value if it is that digit, in either
/// case, and no other character stands for any.
pub proof fn lemma_hexadecimal_digits(c: char, v: u8)
    requires
        v < 16,
    ensures
        hex_value(c) == Some(v) <==> (v < 10 && c as int == '0' as int + v) || (v >= 10 && (
        c as int == 'a' as int + v - 10 || c as int == 'A' as int + v - 10)),
        hex_value(c) is None <==> !('0' <= c <= '9') && !('a' <= c <= 'f') && !('A' <= c <= 'F'),
{
}

/// The digits of an address are found again in its bytes, the higher one first.
pub proof fn lemma_address_holds_its_digits(n: Seq<u8>, i: int)
    requires
        n.len() == 12,
        forall|k: int| 0 <= k < 12 ==> #[trigger] n[k] < 16,
        0 <= i < 6,
    ensures
        vmac_of(n).len() == 6,
        vmac_of(n)[i] / 16 == n[2 * i],
        vmac_of(n)[i] % 16 == n[2 * i + 1],
{
    assert(n[2 * i] < 16 && n[2 * i + 1] < 16);
}

/// A device is read if the gateway has credentials, the binding names the present
/// value of an analog input, and the device's address has twelve digits; and else it
/// is not.
pub proof fn lemma_what_is_read(b: BacnetScBinding, has_credentials: bool)
    ensures
        refusal(b, has_credentials) is None <==> has_credentials && b.object_type@
            == "analog_input"@ && b.property_id@ == "present_value"@ && nibbles(
            b.device_vmac@,
        ).len() == 12,
{
}

/// Addresses that the clock is spread over differ where the clock did.
pub proof fn lemma_clocks_give_different_addresses(a: u32, b: u32)
    requires
        spread(a, 0) == spread(b, 0),
        spread(a, 1) == spread(b, 1),
        spread(a, 2) == spread(b, 2),
        spread(a, 3) == spread(b, 3),
    ensures
        a == b,
{
    assert(a == b) by (bit_vector)
        requires
            ((a >> 0u32) ^ 0u32) as u8 == ((b >> 0u32) ^ 0u32) as u8,
            ((a >> 8u32) ^ 31u32) as u8 == ((b >> 8u32) ^ 31u32) as u8,
            ((a >> 16u32) ^ 62u32) as u8 == ((b >> 16u32) ^ 62u32) as u8,
            ((a >> 24u32) ^ 93u32) as u8 == ((b >> 24u32) ^ 93u32) as u8,
    ;
}

/// A lone character has its own digit, if it is one, and no other.
pub proof fn lemma_lone_digit(c: char)
    ensures
        hex_value(c) matches Some(v) ==> nibbles(seq![c]) == seq![v],
        hex_value(c) is None ==> nibbles(seq![c]).len() == 0,
{
    assert(seq![c].drop_last() =~= Seq::<char>::empty());
    assert(nibbles(seq![c].drop_last()) =~= Seq::<u8>::empty());
    if let Some(v) = hex_value(c) {
        assert(nibbles(seq![c]) =~= seq![v]);
    }
}

} // verus!
