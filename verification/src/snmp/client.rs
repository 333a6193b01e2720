//! SNMP reads: one object of an agent, by v2c or by v3 with user-based
//! security.

use crate::asyncapi::trust::{DeviceTrust, Snmpv3AuthProtocol, Snmpv3PrivProtocol};
use crate::asyncapi::types::SnmpBinding;
use crate::endpoint;
use crate::endpoint::endpoint as join_endpoint;
use crate::error::{failure, failure_of, GatewayError};
use crate::modbus::client as modbus;
use crate::scalar::Scalar;
use crate::text;
use crate::text::{parse_unsigned, replace_text, split_text};
use vstd::prelude::*;

verus! {

// ---------------------------------------------------------------------
// Object identifiers
// ---------------------------------------------------------------------

/// Every piece of a dotted text is an unsigned 64-bit number.
pub open spec fn is_dotted(s: Seq<char>) -> bool {
    forall|i: int|
        0 <= i < text::pieces(s, '.').len() ==> text::unsigned_value(
            #[trigger] text::pieces(s, '.')[i],
            u64::MAX as nat,
        ) is Some
}

/// The numbers of a dotted text.
pub open spec fn dotted_numbers(s: Seq<char>) -> Seq<u64> {
    Seq::new(
        text::pieces(s, '.').len(),
        |i: int| text::unsigned_value(text::pieces(s, '.')[i], u64::MAX as nat)->0 as u64,
    )
}

/// The leading octets of a number in base 128: each has its high bit set.
pub open spec fn leading_octets(n: nat) -> Seq<u8>
    decreases n,
{
    if n == 0 {
        Seq::empty()
    } else {
        leading_octets(n / 128).push((128 + n % 128) as u8)
    }
}

/// A number in base 128: the last octet has its high bit clear.
pub open spec fn base128(n: nat) -> Seq<u8> {
    leading_octets(n / 128).push((n % 128) as u8)
}

/// Numbers in base 128, in a row.
pub open spec fn octets_of(numbers: Seq<u64>) -> Seq<u8>
    decreases numbers.len(),
{
    if numbers.len() == 0 {
        Seq::empty()
    } else {
        octets_of(numbers.drop_last()) + base128(numbers.last() as nat)
    }
}

/// The content octets of an object identifier: the first two numbers share an
/// octet, the others are in base 128. A single zero is one octet.
pub open spec fn oid_octets(numbers: Seq<u64>) -> Seq<u8> {
    if numbers.len() < 2 {
        seq![0u8]
    } else {
        seq![((numbers[0] * 40 + numbers[1]) % 0x100) as u8] + octets_of(numbers.skip(2))
    }
}

/// Why numbers are no object identifier, if they are none: it takes two of
/// them, the first below seven and the second below forty. A single zero
/// counts as one too.
pub open spec fn oid_fault(numbers: Seq<u64>) -> Option<Seq<char>> {
    if numbers.len() < 2 {
        if numbers.len() == 1 && numbers[0] == 0 {
            None
        } else {
            Some("TooShort"@)
        }
    } else if numbers[0] >= 7 || numbers[1] >= 40 {
        Some("FirstComponentsTooLarge"@)
    } else {
        None
    }
}

/// `snmp2::Oid::from`: the content octets of the object identifier, or the
/// name of what is wrong with the numbers.
#[verifier::external_body]
fn oid_from(numbers: &[u64]) -> (r: Result<Vec<u8>, String>)
    ensures
        match r {
            Ok(octets) => oid_fault(numbers@) is None && octets@ == oid_octets(numbers@),
            Err(name) => oid_fault(numbers@) == Some(name@),
        },
{
    match snmp2::Oid::from(numbers) {
        Ok(oid) => Ok(oid.as_bytes().to_vec()),
        Err(error) => Err(format!("{error:?}")),
    }
}

/// The octets of a dotted text, or what is said where it is no object
/// identifier.
pub open spec fn oid_of(s: Seq<char>) -> Result<Seq<u8>, Seq<char>> {
    if !is_dotted(s) {
        Err("parse OID dotted-numeric: "@ + s)
    } else {
        match oid_fault(dotted_numbers(s)) {
            Some(name) => Err("invalid OID "@ + s + ": "@ + name),
            None => Ok(oid_octets(dotted_numbers(s))),
        }
    }
}

/// The numbers of a dotted text, if that is what it is.
pub fn parse_numbers(s: &str) -> (r: Option<Vec<u64>>)
    ensures
        match r {
            Some(v) => is_dotted(s@) && v@ == dotted_numbers(s@),
            None => !is_dotted(s@),
        },
{
    let parts = split_text(s, '.');
    let ghost p = text::pieces(s@, '.');
    let mut numbers: Vec<u64> = Vec::new();
    let mut i: usize = 0;
    while i < parts.len()
        invariant
            i <= parts@.len(),
            p == text::pieces(s@, '.'),
            parts@.len() == p.len(),
            forall|k: int| 0 <= k < parts@.len() ==> (#[trigger] parts@[k])@ == p[k],
            forall|k: int|
                0 <= k < i ==> text::unsigned_value(#[trigger] p[k], u64::MAX as nat) is Some,
            numbers@ == dotted_numbers(s@).take(i as int),
        decreases parts@.len() - i,
    {
        match parse_unsigned(parts[i], u64::MAX) {
            Some(n) => {
                numbers.push(n);
                assert(dotted_numbers(s@).take(i + 1) =~= dotted_numbers(s@).take(i as int).push(
                    dotted_numbers(s@)[i as int],
                ));
            },
            None => {
                assert(text::unsigned_value(p[i as int], u64::MAX as nat) is None);
                return None;
            },
        }
        i = i + 1;
    }
    assert(numbers@ =~= dotted_numbers(s@));
    Some(numbers)
}

/// Read an object identifier in dotted form, to its content octets.
pub fn parse_dotted_oid(s: &str) -> (r: Result<Vec<u8>, GatewayError>)
    ensures
        match r {
            Ok(octets) => oid_of(s@) == Ok::<_, Seq<char>>(octets@),
            Err(e) => oid_of(s@) == Err::<Seq<u8>, _>(e.message@),
        },
{
    match parse_numbers(s) {
        None => Err(failure_of("parse OID dotted-numeric: ", s)),
        Some(numbers) => match oid_from(numbers.as_slice()) {
            Ok(octets) => Ok(octets),
            Err(name) => {
                let mut m = "invalid OID ".to_owned();
                m.append(s);
                m.append(": ");
                m.append(name.as_str());
                Err(failure(m))
            },
        },
    }
}

// ---------------------------------------------------------------------
// Sessions
// ---------------------------------------------------------------------

/// How an agent is asked.
#[derive(Debug)]
pub enum SnmpSession {
    /// v2c, by community.
    V2c,
    /// v3 with user-based security.
    V3 {
        /// User name.
        security_name: String,
        /// Authentication protocol.
        auth_protocol: Snmpv3AuthProtocol,
        /// Privacy protocol.
        priv_protocol: Snmpv3PrivProtocol,
    },
}

/// Only trust by user-based security leads to v3.
pub open spec fn session_of(trust: Option<DeviceTrust>) -> SnmpSession {
    match trust {
        Some(DeviceTrust::Snmpv3Usm { security_name, auth_protocol, priv_protocol }) => {
            SnmpSession::V3 { security_name, auth_protocol, priv_protocol }
        },
        _ => SnmpSession::V2c,
    }
}

/// One read.
#[derive(Debug)]
pub struct SnmpPlan {
    /// Content octets of the object identifier.
    pub oid: Vec<u8>,
    /// Host and port of the agent.
    pub endpoint: String,
    /// How the agent is asked.
    pub session: SnmpSession,
}

/// The read that measures a binding.
pub fn plan_read(b: &SnmpBinding, trust: Option<&DeviceTrust>) -> (r: Result<
    SnmpPlan,
    GatewayError,
>)
    ensures
        match r {
            Ok(p) => {
                &&& oid_of(b.oid@) == Ok::<_, Seq<char>>(p.oid@)
                &&& p.endpoint@ == endpoint::endpoint_text(b.host@, b.port as nat)
                &&& p.session == session_of(modbus::opt(trust))
            },
            Err(e) => oid_of(b.oid@) == Err::<Seq<u8>, _>(e.message@),
        },
{
    match parse_dotted_oid(b.oid.as_str()) {
        Err(e) => Err(e),
        Ok(oid) => {
            let session: SnmpSession = match trust {
                Some(DeviceTrust::Snmpv3Usm { security_name, auth_protocol, priv_protocol }) => {
                    SnmpSession::V3 {
                        security_name: security_name.clone(),
                        auth_protocol: *auth_protocol,
                        priv_protocol: *priv_protocol,
                    }
                },
                _ => SnmpSession::V2c,
            };
            Ok(SnmpPlan { oid, endpoint: join_endpoint(b.host.as_str(), b.port), session })
        },
    }
}

// ---------------------------------------------------------------------
// Passphrases
// ---------------------------------------------------------------------

/// A text in upper case.
pub uninterp spec fn uppercase(s: Seq<char>) -> Seq<char>;

/// `str::to_uppercase`: the text in upper case, which depends on the text
/// alone.
#[verifier::external_body]
fn to_uppercase(s: &str) -> (r: String)
    ensures
        r@ == uppercase(s@),
{
    s.to_uppercase()
}

/// A user name as it stands in environment variables: upper case, with
/// hyphens as underscores.
pub open spec fn usm_key(security_name: Seq<char>) -> Seq<char> {
    text::replaced(uppercase(security_name), "-"@, "_"@)
}

/// The variable of the authentication passphrase.
pub open spec fn auth_variable(key: Seq<char>) -> Seq<char> {
    "SNMP_USM_"@ + key + "_AUTH_PASSPHRASE"@
}

/// The variable of the privacy passphrase.
pub open spec fn priv_variable(key: Seq<char>) -> Seq<char> {
    "SNMP_USM_"@ + key + "_PRIV_PASSPHRASE"@
}

/// The variables of a user name in its environment form.
pub fn variables_of_key(upper: &str) -> (r: (String, String))
    ensures
        r.0@ == auth_variable(text::replaced(upper@, "-"@, "_"@)),
        r.1@ == priv_variable(text::replaced(upper@, "-"@, "_"@)),
{
    proof {
        reveal_strlit("-");
    }
    let key = replace_text(upper, "-", "_");
    let mut auth = "SNMP_USM_".to_owned();
    auth.append(key.as_str());
    auth.append("_AUTH_PASSPHRASE");
    let mut privacy = "SNMP_USM_".to_owned();
    privacy.append(key.as_str());
    privacy.append("_PRIV_PASSPHRASE");
    (auth, privacy)
}

/// The environment variables that hold a user's passphrases: authentication,
/// then privacy.
pub fn usm_variables(security_name: &str) -> (r: (String, String))
    ensures
        r.0@ == auth_variable(usm_key(security_name@)),
        r.1@ == priv_variable(usm_key(security_name@)),
{
    let upper = to_uppercase(security_name);
    variables_of_key(upper.as_str())
}

/// What is said of a variable that is not set.
pub open spec fn missing_variable(name: Seq<char>) -> Seq<char> {
    "missing required env: "@ + name
}

/// The passphrases, from what the environment holds under a user's variables.
/// Both are required.
pub fn load_usm_passphrases(
    variables: &(String, String),
    auth: Option<String>,
    privacy: Option<String>,
) -> (r: Result<(String, String), GatewayError>)
    ensures
        match r {
            Ok(p) => auth == Some(p.0) && privacy == Some(p.1),
            Err(e) => if auth is None {
                e.message@ == missing_variable(variables.0@)
            } else {
                privacy is None && e.message@ == missing_variable(variables.1@)
            },
        },
        r is Ok <==> auth is Some && privacy is Some,
{
    match auth {
        None => Err(failure_of("missing required env: ", variables.0.as_str())),
        Some(a) => match privacy {
            None => Err(failure_of("missing required env: ", variables.1.as_str())),
            Some(p) => Ok((a, p)),
        },
    }
}

// ---------------------------------------------------------------------
// Values
// ---------------------------------------------------------------------

/// A value of a response.
#[derive(Debug)]
pub enum SnmpValue {
    /// Signed integer.
    Integer(i64),
    /// 32-bit counter.
    Counter32(u32),
    /// 32-bit unsigned integer.
    Unsigned32(u32),
    /// 64-bit counter.
    Counter64(u64),
    /// Anything else; how it is shown.
    Other(String),
}

/// The integer of a value, if it has one.
pub open spec fn integer_of(v: SnmpValue) -> Option<int> {
    match v {
        SnmpValue::Integer(i) => Some(i as int),
        SnmpValue::Counter32(c) => Some(c as int),
        SnmpValue::Unsigned32(u) => Some(u as int),
        SnmpValue::Counter64(c) => Some(c as int),
        SnmpValue::Other(_) => None,
    }
}

/// The number of a response's first value.
pub fn extract_integer<N: Scalar>(first: Option<SnmpValue>) -> (r: Result<N, GatewayError>)
    ensures
        match first {
            None => r matches Err(e) && e.message@ == "snmp response had no varbinds"@,
            Some(v) => match integer_of(v) {
                Some(i) => r matches Ok(x) && x == N::int_spec(i),
                None => r matches Err(e) && e.message@
                    == "expected integer-shaped SNMP value, got "@ + v->Other_0@,
            },
        },
{
    match first {
        None => Err(failure("snmp response had no varbinds".to_owned())),
        Some(SnmpValue::Integer(i)) => Ok(N::from_i64(i)),
        Some(SnmpValue::Counter32(c)) => Ok(N::from_u64(c as u64)),
        Some(SnmpValue::Unsigned32(u)) => Ok(N::from_u64(u as u64)),
        Some(SnmpValue::Counter64(c)) => Ok(N::from_u64(c)),
        Some(SnmpValue::Other(shown)) => Err(
            failure_of("expected integer-shaped SNMP value, got ", shown.as_str()),
        ),
    }
}

/// Numbers that are written in decimal with dots between them read as those
/// numbers, in order.
pub proof fn lemma_dotted_numbers_read_back(numbers: Seq<u64>)
    requires
        numbers.len() > 0,
    ensures
        ({
            let written = text::joined(
                Seq::new(numbers.len(), |i: int| text::digits(numbers[i] as nat)),
                '.',
            );
            is_dotted(written) && dotted_numbers(written) == numbers
        }),
{
    let parts = Seq::new(numbers.len(), |i: int| text::digits(numbers[i] as nat));
    let written = text::joined(parts, '.');
    assert forall|i: int| 0 <= i < parts.len() implies !(#[trigger] parts[i]).contains('.')
        && text::unsigned_value(parts[i], u64::MAX as nat) == Some(numbers[i] as nat) by {
        text::lemma_decimal_reads_back(numbers[i] as nat, u64::MAX as nat);
    }
    text::lemma_pieces_of_joined(parts, '.');
    assert(text::pieces(written, '.') == parts);
    assert forall|i: int| 0 <= i < parts.len() implies text::unsigned_value(
        #[trigger] text::pieces(written, '.')[i],
        u64::MAX as nat,
    ) == Some(numbers[i] as nat) by {
        assert(!parts[i].contains('.'));
    }
    assert(dotted_numbers(written) =~= numbers);
}

/// Numbers are an object identifier if there are at least two of them, the first at
/// most six and the second at most thirty-nine, or if they are a single zero.
pub proof fn lemma_first_numbers_are_bounded(numbers: Seq<u64>)
    ensures
        oid_fault(numbers) is None <==> numbers == seq![0u64] || (numbers.len() >= 2 && numbers[0]
            <= 6 && numbers[1] <= 39),
{
    if numbers.len() == 1 && numbers[0] == 0 {
        assert(numbers =~= seq![0u64]);
    }
}

/// An agent is asked by v3 if and only if it is trusted by user-based security, and
/// then by that user and those protocols.
pub proof fn lemma_session_is_as_trusted(trust: Option<DeviceTrust>)
    ensures
        session_of(trust) is V3 <==> trust is Some && trust->0 is Snmpv3Usm,
        session_of(trust) matches SnmpSession::V3 { security_name, auth_protocol, priv_protocol }
            ==> trust == Some(
            DeviceTrust::Snmpv3Usm { security_name, auth_protocol, priv_protocol },
        ),
{
}

/// A user's name stands in its variables with every hyphen as an underscore, and the
/// variables of the two passphrases differ.
pub proof fn lemma_variables_of_a_user(security_name: Seq<char>)
    ensures
        ({
            let key = uppercase(security_name).map_values(
                |c: char|
                    if c == '-' {
                        '_'
                    } else {
                        c
                    },
            );
            &&& usm_key(security_name) == key
            &&& auth_variable(usm_key(security_name)) == "SNMP_USM_"@ + key + "_AUTH_PASSPHRASE"@
            &&& priv_variable(usm_key(security_name)) == "SNMP_USM_"@ + key + "_PRIV_PASSPHRASE"@
            &&& auth_variable(usm_key(security_name)) != priv_variable(usm_key(security_name))
        }),
{
    let upper = uppercase(security_name);
    reveal_strlit("-");
    reveal_strlit("_");
    reveal_strlit("_AUTH_PASSPHRASE");
    reveal_strlit("_PRIV_PASSPHRASE");
    assert("-"@ =~= seq!['-']);
    assert("_"@ =~= seq!['_']);
    text::lemma_character_replaced(upper, '-', '_');
    let a = auth_variable(usm_key(security_name));
    let p = priv_variable(usm_key(security_name));
    let n = ("SNMP_USM_"@ + usm_key(security_name)).len() as int;
    assert("_AUTH_PASSPHRASE"@[1] == 'A' && "_PRIV_PASSPHRASE"@[1] == 'P');
    assert(a[n + 1] == 'A' && p[n + 1] == 'P');
}

/// Every value that holds an integer stands for that integer, and no other does for
/// any.
pub proof fn lemma_integers_of_values(i: i64, narrow: u32, wide: u64, v: SnmpValue)
    ensures
        integer_of(SnmpValue::Integer(i)) == Some(i as int),
        integer_of(SnmpValue::Counter32(narrow)) == Some(narrow as int),
        integer_of(SnmpValue::Unsigned32(narrow)) == Some(narrow as int),
        integer_of(SnmpValue::Counter64(wide)) == Some(wide as int),
        integer_of(v) is None <==> v is Other,
{
}

/// Numbers that are an object identifier and are written in decimal with dots between them
/// give its octets; numbers that are none, and texts that are no such numbers, give none.
pub proof fn lemma_dotted_identifiers(numbers: Seq<u64>, s: Seq<char>)
    requires
        numbers.len() > 0,
    ensures
        ({
            let written = text::joined(
                Seq::new(numbers.len(), |i: int| text::digits(numbers[i] as nat)),
                '.',
            );
            &&& oid_fault(numbers) is None ==> oid_of(written) == Ok::<Seq<u8>, Seq<char>>(
                oid_octets(numbers),
            )
            &&& oid_fault(numbers) is Some ==> oid_of(written) is Err
        }),
        !is_dotted(s) ==> oid_of(s) is Err,
        numbers.len() >= 2 && oid_fault(numbers) is None ==> oid_octets(numbers)[0] as int == 40
            * numbers[0] + numbers[1] || 256 <= 40 * numbers[0] + numbers[1],
{
    lemma_dotted_numbers_read_back(numbers);
}

} // verus!
