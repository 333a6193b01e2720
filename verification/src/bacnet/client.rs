//! BACnet/IP reads: the present value of one analog input.

use crate::asyncapi::types::BacnetIpBinding;
use crate::error::{failure, failure_of, GatewayError};
use crate::scalar::Scalar;
use crate::text;
use crate::text::{decimal, same_text};
use bacnet_rs::app::{Apdu, MaxApduSize, MaxSegments};
use bacnet_rs::service::ConfirmedServiceChoice;
use vstd::prelude::*;

verus! {

/// The invoke id of every request; there is one at a time.
pub const INVOKE_ID: u8 = 1;

// ---------------------------------------------------------------------
// Request
// ---------------------------------------------------------------------

/// What is said of an object that is not read.
pub open spec fn unsupported_object(stack: Seq<char>, object_type: Seq<char>) -> Seq<char> {
    "Tier 1 "@ + stack + " only supports analog_input object_type, got "@ + object_type
}

/// What is said of a property that is not read.
pub open spec fn unsupported_property(stack: Seq<char>, property_id: Seq<char>) -> Seq<char> {
    "Tier 1 "@ + stack + " only supports present_value property_id, got "@ + property_id
}

/// Why an object and property are not read, if they are not.
pub open spec fn unsupported(
    stack: Seq<char>,
    object_type: Seq<char>,
    property_id: Seq<char>,
) -> Option<Seq<char>> {
    if object_type != "analog_input"@ {
        Some(unsupported_object(stack, object_type))
    } else if property_id != "present_value"@ {
        Some(unsupported_property(stack, property_id))
    } else {
        None
    }
}

/// Check that an object and property are read.
pub fn check_supported(stack: &str, object_type: &str, property_id: &str) -> (r: Result<
    (),
    GatewayError,
>)
    ensures
        match r {
            Ok(_) => unsupported(stack@, object_type@, property_id@) is None,
            Err(e) => unsupported(stack@, object_type@, property_id@) == Some(e.message@),
        },
{
    if !same_text(object_type, "analog_input") {
        let mut m = "Tier 1 ".to_owned();
        m.append(stack);
        m.append(" only supports analog_input object_type, got ");
        m.append(object_type);
        return Err(failure(m));
    }
    if !same_text(property_id, "present_value") {
        let mut m = "Tier 1 ".to_owned();
        m.append(stack);
        m.append(" only supports present_value property_id, got ");
        m.append(property_id);
        return Err(failure(m));
    }
    Ok(())
}

/// The object type of an analog input.
pub const ANALOG_INPUT: u32 = 0;

/// The property that holds an object's present value.
pub const PRESENT_VALUE: u8 = 85;

/// An object identifier: the object type in ten bits, then the instance.
pub open spec fn object_identifier(object_type: int, instance: int) -> int {
    object_type * 0x40_0000 + instance
}

/// The service data of a request for a property of an object: the object
/// identifier under context tag 0, in four bytes, and the property under
/// context tag 1, in one.
pub open spec fn read_service(object_type: int, instance: int, property: u8) -> Seq<u8> {
    let id = object_identifier(object_type, instance);
    seq![
        0x0Cu8,
        (id / 0x100_0000) as u8,
        ((id / 0x1_0000) % 0x100) as u8,
        ((id / 0x100) % 0x100) as u8,
        (id % 0x100) as u8,
        0x19u8,
        property,
    ]
}

/// `ReadPropertyRequest::encode` of the `bacnet-rs` crate, for a property with
/// a number of one byte and no array index: the service data, or the name of
/// the error where the object type takes more than ten bits or the instance
/// more than 22.
#[verifier::external_body]
fn encode_read_property(object_type: u32, instance: u32, property: u8) -> (r: Result<
    Vec<u8>,
    String,
>)
    ensures
        match r {
            Ok(bytes) => object_type <= 0x3FF && instance <= 0x3F_FFFF && bytes@ == read_service(
                object_type as int,
                instance as int,
                property,
            ),
            Err(name) => (object_type > 0x3FF || instance > 0x3F_FFFF) && name@
                == "ValueOutOfRange"@,
        },
{
    let object = bacnet_rs::object::ObjectIdentifier::new(object_type.into(), instance);
    let request = bacnet_rs::service::ReadPropertyRequest::new(object, (property as u32).into());
    let mut bytes = Vec::new();
    match request.encode(&mut bytes) {
        Ok(()) => Ok(bytes),
        Err(error) => Err(format!("{error:?}")),
    }
}

/// How large a response may be, in bytes.
#[derive(Debug, Clone, Copy, PartialEq, Eq, Structural)]
pub enum ResponseSize {
    /// Up to 50.
    Up50,
    /// Up to 128.
    Up128,
    /// Up to 206.
    Up206,
    /// Up to 480.
    Up480,
    /// Up to 1024.
    Up1024,
    /// Up to 1476.
    Up1476,
}

/// The code of a response size.
pub open spec fn size_code(size: ResponseSize) -> u8 {
    match size {
        ResponseSize::Up50 => 0,
        ResponseSize::Up128 => 1,
        ResponseSize::Up206 => 2,
        ResponseSize::Up480 => 3,
        ResponseSize::Up1024 => 4,
        ResponseSize::Up1476 => 5,
    }
}

/// A confirmed read-property request: unsegmented, with no limit on the
/// segments of its response.
pub open spec fn request_apdu(
    accepts_segments: bool,
    size: ResponseSize,
    invoke_id: u8,
    service: Seq<u8>,
) -> Seq<u8> {
    seq![
        if accepts_segments {
            0x02u8
        } else {
            0u8
        },
        size_code(size),
        invoke_id,
        0x0Cu8,
    ] + service
}

/// `Apdu::encode` of the `bacnet-rs` crate, for a confirmed read-property
/// request: a byte that tells whether a segmented response is accepted, the
/// code of the response size, the invoke id and the service choice, then the
/// service data.
#[verifier::external_body]
fn encode_request(
    segmented_response_accepted: bool,
    size: ResponseSize,
    invoke_id: u8,
    service_data: Vec<u8>,
) -> (r: Vec<u8>)
    ensures
        r@ == request_apdu(segmented_response_accepted, size, invoke_id, service_data@),
{
    let max_response_size = match size {
        ResponseSize::Up50 => MaxApduSize::Up50,
        ResponseSize::Up128 => MaxApduSize::Up128,
        ResponseSize::Up206 => MaxApduSize::Up206,
        ResponseSize::Up480 => MaxApduSize::Up480,
        ResponseSize::Up1024 => MaxApduSize::Up1024,
        ResponseSize::Up1476 => MaxApduSize::Up1476,
    };
    Apdu::ConfirmedRequest {
        segmented: false, more_follows: false, segmented_response_accepted,
        max_segments: MaxSegments::Unspecified, max_response_size, invoke_id,
        sequence_number: None, proposed_window_size: None,
        service_choice: ConfirmedServiceChoice::ReadProperty, service_data,
    }.encode()
}

/// The request of a binding: the present value of an analog input, with
/// segmented responses accepted, of up to 1476 bytes.
pub open spec fn read_request(instance: int) -> Seq<u8> {
    request_apdu(
        true,
        ResponseSize::Up1476,
        INVOKE_ID,
        read_service(ANALOG_INPUT as int, instance, PRESENT_VALUE),
    )
}

/// The network header of a request: version 1, a reply is expected.
pub open spec fn npdu_header() -> Seq<u8> {
    seq![1u8, 4u8]
}

/// `Npdu::encode` of the `bacnet-rs` crate, for a fresh header that expects a
/// reply.
#[verifier::external_body]
fn encode_npdu() -> (r: Vec<u8>)
    ensures
        r@ == npdu_header(),
{
    let mut npdu = bacnet_rs::network::Npdu::new();
    npdu.control.expecting_reply = true;
    npdu.encode()
}

/// A frame around an APDU: the BACnet/IP header of an original unicast, with
/// the length of the whole frame in two bytes, then the network header, then
/// the APDU.
pub open spec fn framed(apdu: Seq<u8>) -> Seq<u8> {
    let total = 6 + apdu.len();
    seq![0x81u8, 0x0Au8, ((total / 0x100) % 0x100) as u8, (total % 0x100) as u8] + npdu_header()
        + apdu
}

/// Put a frame around an APDU.
pub fn wrap_bvlc(apdu: Vec<u8>) -> (r: Vec<u8>)
    requires
        apdu@.len() + 6 <= usize::MAX,
    ensures
        r@ == framed(apdu@),
{
    let mut rest = apdu;
    let mut npdu = encode_npdu();
    let total: usize = 6 + rest.len();
    let mut out: Vec<u8> = Vec::new();
    out.push(0x81);
    out.push(0x0A);
    out.push(((total / 0x100) % 0x100) as u8);
    out.push((total % 0x100) as u8);
    out.append(&mut npdu);
    out.append(&mut rest);
    out
}

/// A frame announces its own length, as far as two bytes can tell it.
pub proof fn lemma_frame_announces_length(apdu: Seq<u8>)
    requires
        apdu.len() + 6 <= 0xFFFF,
    ensures
        framed(apdu)[2] * 0x100 + framed(apdu)[3] == framed(apdu).len(),
{
}

/// The frame that reads a binding, or what is said where there is none.
pub open spec fn request_of(b: BacnetIpBinding) -> Result<Seq<u8>, Seq<char>> {
    match unsupported("BACnet"@, b.object_type@, b.property_id@) {
        Some(reason) => Err(reason),
        None => if b.object_instance > 0x3F_FFFF {
            Err("rp encode: ValueOutOfRange"@)
        } else {
            Ok(framed(read_request(b.object_instance as int)))
        },
    }
}

/// The frame that reads the present value of a binding.
pub fn request_frame(b: &BacnetIpBinding) -> (r: Result<Vec<u8>, GatewayError>)
    ensures
        match r {
            Ok(frame) => request_of(*b) matches Ok(f) && f == frame@,
            Err(e) => request_of(*b) matches Err(m) && m == e.message@,
        },
{
    match check_supported("BACnet", b.object_type.as_str(), b.property_id.as_str()) {
        Err(e) => Err(e),
        Ok(_) => match encode_read_property(
            ANALOG_INPUT,
            b.object_instance,
            PRESENT_VALUE,
        ) {
            Err(name) => {
                proof {
                    reveal_strlit("rp encode: ");
                    reveal_strlit("ValueOutOfRange");
                    reveal_strlit("rp encode: ValueOutOfRange");
                }
                assert("rp encode: "@ + "ValueOutOfRange"@ =~= "rp encode: ValueOutOfRange"@);
                Err(failure_of("rp encode: ", name.as_str()))
            },
            Ok(service) => Ok(
                wrap_bvlc(encode_request(true, ResponseSize::Up1476, INVOKE_ID, service)),
            ),
        },
    }
}

// ---------------------------------------------------------------------
// Response
// ---------------------------------------------------------------------

/// The length of the network header at the front of some bytes, or how the
/// error is shown.
pub uninterp spec fn npdu_decoded(data: Seq<u8>) -> Result<nat, Seq<char>>;

/// `Npdu::decode` of the `bacnet-rs` crate: how many bytes the network header
/// takes, or how the error is shown. The header takes two bytes or more and
/// ends within the data. What comes back depends on the bytes alone.
#[verifier::external_body]
fn decode_npdu(data: &[u8]) -> (r: Result<usize, String>)
    ensures
        match r {
            Ok(n) => 2 <= n <= data@.len() && (npdu_decoded(data@) matches Ok(m) && m == n),
            Err(shown) => npdu_decoded(data@) matches Err(m) && m == shown@,
        },
{
    match bacnet_rs::network::Npdu::decode(data) {
        Ok((_, n)) => Ok(n),
        Err(error) => Err(format!("{error:?}")),
    }
}

/// An APDU, as far as a response to a read goes.
#[derive(Debug)]
pub enum Reply {
    /// Complex acknowledgement: service choice and service data.
    ComplexAck(u8, Vec<u8>),
    /// Error: class and code.
    Error(u8, u8),
    /// Any other.
    Other,
}

/// An APDU, with its bytes as a sequence.
pub enum ReplyView {
    /// Complex acknowledgement: service choice and service data.
    ComplexAck(u8, Seq<u8>),
    /// Error: class and code.
    Error(u8, u8),
    /// Any other.
    Other,
}

impl View for Reply {
    type V = ReplyView;

    open spec fn view(&self) -> ReplyView {
        match self {
            Reply::ComplexAck(choice, data) => ReplyView::ComplexAck(*choice, data@),
            Reply::Error(class, code) => ReplyView::Error(*class, *code),
            Reply::Other => ReplyView::Other,
        }
    }
}

/// What some bytes are as an APDU, or how the error is shown.
pub uninterp spec fn apdu_decoded(data: Seq<u8>) -> Result<ReplyView, Seq<char>>;

/// `Apdu::decode` of the `bacnet-rs` crate: the APDU, or how the error is
/// shown. What comes back depends on the bytes alone.
#[verifier::external_body]
fn decode_apdu(data: &[u8]) -> (r: Result<Reply, String>)
    ensures
        match r {
            Ok(reply) => apdu_decoded(data@) matches Ok(v) && v == reply@,
            Err(shown) => apdu_decoded(data@) matches Err(m) && m == shown@,
        },
{
    match Apdu::decode(data) {
        Ok(Apdu::ComplexAck { service_choice, service_data, .. }) => {
            Ok(Reply::ComplexAck(service_choice as u8, service_data))
        },
        Ok(Apdu::Error { error_class, error_code, .. }) => {
            Ok(Reply::Error(error_class, error_code))
        },
        Ok(_) => Ok(Reply::Other),
        Err(error) => Err(format!("{error:?}")),
    }
}

/// The service choice of a read.
pub const READ_PROPERTY: u8 = 12;

/// What an APDU brings: the service data of a read, or what is said where it
/// brings none.
pub open spec fn reply_data(reply: ReplyView) -> Result<Seq<u8>, Seq<char>> {
    match reply {
        ReplyView::ComplexAck(choice, data) => if choice == READ_PROPERTY {
            Ok(data)
        } else {
            Err("unexpected apdu type"@)
        },
        ReplyView::Error(class, code) => Err(
            "bacnet error: class="@ + text::digits(class as nat) + " code="@ + text::digits(
                code as nat,
            ),
        ),
        ReplyView::Other => Err("unexpected apdu type"@),
    }
}

/// What a frame brings: the service data of a read, or what is said where it
/// brings none.
pub open spec fn frame_data(frame: Seq<u8>) -> Result<Seq<u8>, Seq<char>> {
    if frame.len() < 4 || frame[0] != 0x81 {
        Err("not a BACnet/IP BVLC frame"@)
    } else {
        match npdu_decoded(frame.skip(4)) {
            Err(shown) => Err("npdu decode: "@ + shown),
            Ok(n) => match apdu_decoded(frame.skip(4).skip(n as int)) {
                Err(shown) => Err("apdu decode: "@ + shown),
                Ok(reply) => reply_data(reply),
            },
        }
    }
}

/// The service data that an APDU brings.
pub fn accept_reply(reply: Reply) -> (r: Result<Vec<u8>, GatewayError>)
    ensures
        match r {
            Ok(data) => reply_data(reply@) matches Ok(d) && d == data@,
            Err(e) => reply_data(reply@) matches Err(m) && m == e.message@,
        },
{
    match reply {
        Reply::ComplexAck(choice, data) => if choice == READ_PROPERTY {
            Ok(data)
        } else {
            Err(failure("unexpected apdu type".to_owned()))
        },
        Reply::Error(class, code) => {
            let mut m = "bacnet error: class=".to_owned();
            m.append(decimal(class as u64).as_str());
            m.append(" code=");
            m.append(decimal(code as u64).as_str());
            Err(failure(m))
        },
        Reply::Other => Err(failure("unexpected apdu type".to_owned())),
    }
}

/// The service data that a frame brings.
pub fn service_data(frame: &[u8]) -> (r: Result<Vec<u8>, GatewayError>)
    ensures
        match r {
            Ok(data) => frame_data(frame@) matches Ok(d) && d == data@,
            Err(e) => frame_data(frame@) matches Err(m) && m == e.message@,
        },
{
    if frame.len() < 4 || frame[0] != 0x81 {
        return Err(failure("not a BACnet/IP BVLC frame".to_owned()));
    }
    let payload = vstd::slice::slice_subrange(frame, 4, frame.len());
    assert(payload@ =~= frame@.skip(4));
    match decode_npdu(payload) {
        Err(shown) => Err(failure_of("npdu decode: ", shown.as_str())),
        Ok(n) => {
            let apdu = vstd::slice::slice_subrange(payload, n, payload.len());
            assert(apdu@ =~= payload@.skip(n as int));
            match decode_apdu(apdu) {
                Err(shown) => Err(failure_of("apdu decode: ", shown.as_str())),
                Ok(reply) => accept_reply(reply),
            }
        },
    }
}

// ---------------------------------------------------------------------
// Values
// ---------------------------------------------------------------------

/// The head of an encoded element.
#[derive(Debug, Clone, Copy, PartialEq, Eq, Structural)]
pub struct Tag {
    /// Whether the number is a context tag; else it is a type.
    pub context: bool,
    /// Tag number.
    pub number: u8,
    /// How many bytes of content the head announces.
    pub length: u32,
    /// How many bytes the head itself takes.
    pub size: u8,
}

/// The largest type number.
pub const LAST_TYPE: u8 = 12;

/// The head at a position, if there is one: number, class bit and length in one
/// byte, where length five stands for a length in the bytes that follow.
pub open spec fn tag_at(data: Seq<u8>, pos: int) -> Option<Tag> {
    let first = data[pos];
    let context = (first / 8) % 2 == 1;
    let number = (first / 16) as u8;
    let low = (first % 8) as u32;
    if pos >= data.len() || (!context && number > LAST_TYPE) {
        None
    } else if low != 5 {
        Some(Tag { context, number, length: low, size: 1 })
    } else if pos + 2 > data.len() {
        None
    } else if data[pos + 1] < 254 {
        Some(Tag { context, number, length: data[pos + 1] as u32, size: 2 })
    } else if data[pos + 1] == 254 {
        if pos + 4 > data.len() {
            None
        } else {
            let length = (data[pos + 2] * 0x100 + data[pos + 3]) as u32;
            Some(Tag { context, number, length, size: 4 })
        }
    } else if pos + 6 > data.len() {
        None
    } else {
        let length = (data[pos + 2] * 0x100_0000 + data[pos + 3] * 0x1_0000 + data[pos + 4] * 0x100
            + data[pos + 5]) as u32;
        Some(Tag { context, number, length, size: 6 })
    }
}

/// The head at a position.
fn read_tag(data: &[u8], pos: usize) -> (r: Option<Tag>)
    requires
        pos <= data@.len(),
    ensures
        r == tag_at(data@, pos as int),
{
    let left: usize = data.len() - pos;
    if left == 0 {
        return None;
    }
    let first: u8 = data[pos];
    let context: bool = (first / 8) % 2 == 1;
    let number: u8 = first / 16;
    if !context && number > LAST_TYPE {
        return None;
    }
    let low: u32 = (first % 8) as u32;
    if low != 5 {
        return Some(Tag { context, number, length: low, size: 1 });
    }
    if left < 2 {
        return None;
    }
    let second: u8 = data[pos + 1];
    if second < 254 {
        return Some(Tag { context, number, length: second as u32, size: 2 });
    }
    if second == 254 {
        if left < 4 {
            return None;
        }
        let length: u32 = data[pos + 2] as u32 * 0x100 + data[pos + 3] as u32;
        return Some(Tag { context, number, length, size: 4 });
    }
    if left < 6 {
        return None;
    }
    let length: u32 = data[pos + 2] as u32 * 0x100_0000 + data[pos + 3] as u32 * 0x1_0000 + data[pos
        + 4] as u32 * 0x100 + data[pos + 5] as u32;
    Some(Tag { context, number, length, size: 6 })
}

/// Where an element under a context tag ends, if it is at a position and is
/// four bytes long or shorter.
pub open spec fn context_end(data: Seq<u8>, pos: int, number: u8) -> Option<int> {
    match tag_at(data, pos) {
        Some(t) => if t.context && t.number == number && t.length <= 4 && pos + t.size + t.length
            <= data.len() {
            Some(pos + t.size + t.length)
        } else {
            None
        },
        None => None,
    }
}

/// Where an element under a context tag ends.
fn read_context(data: &[u8], pos: usize, number: u8) -> (r: Option<usize>)
    requires
        pos <= data@.len(),
    ensures
        match r {
            Some(end) => context_end(data@, pos as int, number) == Some(end as int) && pos <= end
                <= data@.len(),
            None => context_end(data@, pos as int, number) is None,
        },
{
    match read_tag(data, pos) {
        Some(t) => if t.context && t.number == number && t.length <= 4 && t.size as usize
            + t.length as usize <= data.len() - pos {
            Some(pos + t.size as usize + t.length as usize)
        } else {
            None
        },
        None => None,
    }
}

/// Where the values of a response begin: behind object, property, array index
/// if there is one, and the tag that opens the values.
pub open spec fn values_start(data: Seq<u8>) -> Option<int> {
    match (context_end(data, 0, 0), tag_at(data, 0)) {
        (Some(object), Some(t)) => if t.length != 4 {
            None
        } else {
            match context_end(data, object, 1) {
                Some(property) => {
                    let open = match context_end(data, property, 2) {
                        Some(index) => index,
                        None => property,
                    };
                    match tag_at(data, open) {
                        Some(t) => if t.context && t.number == 3 {
                            Some(open + t.size)
                        } else {
                            None
                        },
                        None => None,
                    }
                },
                None => None,
            }
        },
        _ => None,
    }
}

/// Where the values of a response begin.
fn find_values(data: &[u8]) -> (r: Option<usize>)
    ensures
        match r {
            Some(p) => values_start(data@) == Some(p as int) && p <= data@.len(),
            None => values_start(data@) is None,
        },
{
    let object = match (read_context(data, 0, 0), read_tag(data, 0)) {
        (Some(end), Some(t)) => if t.length == 4 {
            end
        } else {
            return None;
        },
        _ => {
            return None;
        },
    };
    let property = match read_context(data, object, 1) {
        Some(end) => end,
        None => {
            return None;
        },
    };
    let open = match read_context(data, property, 2) {
        Some(end) => end,
        None => property,
    };
    match read_tag(data, open) {
        Some(t) => if t.context && t.number == 3 {
            Some(open + t.size as usize)
        } else {
            None
        },
        None => None,
    }
}

/// Whether the content that a head announces lies within the data.
pub open spec fn is_within(data: Seq<u8>, pos: int, t: Tag) -> bool {
    pos + t.size + t.length <= data.len()
}

/// An integer, signed or not, of more than eight bytes.
pub open spec fn is_oversized(data: Seq<u8>, pos: int, t: Tag) -> bool {
    (t.number == 2 || t.number == 3) && is_within(data, pos, t) && t.length > 8
}

/// Whether the content of a value is as its type asks: null and boolean have
/// none, an unsigned integer any number of bytes, a signed integer at least
/// one, single precision, date, time and object identifier four, double
/// precision eight, a byte string any number, a character string a byte and
/// UTF-8 text, a bit string a count of up to seven and the bits, an
/// enumeration one to four.
pub open spec fn is_well_formed(data: Seq<u8>, pos: int, t: Tag) -> bool {
    let at = pos + t.size;
    if t.number == 0 {
        true
    } else if t.number == 1 {
        t.length <= 1
    } else {
        is_within(data, pos, t) && match t.number {
            2 => true,
            3 => t.length >= 1,
            5 => t.length == 8,
            6 => true,
            7 => t.length >= 1 && vstd::utf8::valid_utf8(data.subrange(at + 1, at + t.length)),
            8 => t.length >= 1 && data[at] <= 7,
            9 => 1 <= t.length <= 4,
            _ => t.length == 4,
        }
    }
}

/// Where a well-formed value ends.
pub open spec fn value_end(pos: int, t: Tag) -> int {
    if t.number <= 1 {
        pos + t.size
    } else {
        pos + t.size + t.length
    }
}

/// No oversized integer stands among the values from a position on, up to the
/// first element that is no well-formed value.
pub open spec fn sound_from(data: Seq<u8>, pos: int) -> bool
    decreases data.len() - pos,
{
    match tag_at(data, pos) {
        None => true,
        Some(t) => if t.context {
            true
        } else if is_oversized(data, pos, t) {
            false
        } else if is_well_formed(data, pos, t) && pos < value_end(pos, t) <= data.len() {
            sound_from(data, value_end(pos, t))
        } else {
            true
        },
    }
}

/// No oversized integer stands among the values of a response.
pub open spec fn is_sound(data: Seq<u8>) -> bool {
    values_start(data) matches Some(pos) ==> sound_from(data, pos)
}

/// `core::str::from_utf8`: whether some bytes are UTF-8.
#[verifier::external_body]
fn is_utf8(data: &[u8]) -> (r: bool)
    ensures
        r == vstd::utf8::valid_utf8(data@),
{
    core::str::from_utf8(data).is_ok()
}

/// Whether the content of a value is as its type asks.
fn check_value(data: &[u8], pos: usize, t: Tag) -> (r: bool)
    requires
        tag_at(data@, pos as int) == Some(t),
        pos + t.size <= data@.len(),
    ensures
        r == is_well_formed(data@, pos as int, t),
{
    if t.number == 0 {
        return true;
    }
    if t.number == 1 {
        return t.length <= 1;
    }
    let end: usize = data.len();
    let at: usize = pos + t.size as usize;
    if t.length as usize > end - at {
        return false;
    }
    match t.number {
        2 => true,
        3 => t.length >= 1,
        5 => t.length == 8,
        6 => true,
        7 => t.length >= 1 && is_utf8(
            vstd::slice::slice_subrange(data, at + 1, at + t.length as usize),
        ),
        8 => t.length >= 1 && data[at] <= 7,
        9 => 1 <= t.length && t.length <= 4,
        _ => t.length == 4,
    }
}

/// Whether the values of a response can be decoded: no integer among them is
/// of more than eight bytes.
pub fn values_sound(data: &[u8]) -> (r: bool)
    ensures
        r == is_sound(data@),
{
    let mut pos: usize = match find_values(data) {
        Some(p) => p,
        None => {
            return true;
        },
    };
    let ghost start = pos as int;
    while pos < data.len()
        invariant
            pos <= data@.len(),
            values_start(data@) == Some(start),
            sound_from(data@, start) == sound_from(data@, pos as int),
        decreases data@.len() - pos,
    {
        let t = match read_tag(data, pos) {
            Some(t) => t,
            None => {
                return true;
            },
        };
        if t.context {
            return true;
        }
        let at: usize = pos + t.size as usize;
        let within: bool = t.length as usize <= data.len() - at;
        if within && (t.number == 2 || t.number == 3) && t.length > 8 {
            return false;
        }
        if !check_value(data, pos, t) {
            return true;
        }
        pos = if t.number <= 1 {
            at
        } else {
            at + t.length as usize
        };
    }
    true
}

/// A value of a property.
#[derive(Debug, Clone, Copy, PartialEq, Eq, Structural)]
pub enum BacnetValue {
    /// Single precision, as its bit pattern.
    Real(u32),
    /// Double precision, as its bit pattern.
    Double(u64),
    /// Unsigned integer.
    Unsigned(u64),
    /// Signed integer.
    Signed(i64),
    /// A value of another type.
    Other,
}

/// The number of a value, if it has one.
pub open spec fn number_of<N: Scalar>(v: BacnetValue) -> Option<N> {
    match v {
        BacnetValue::Real(bits) => Some(N::single_spec(bits)),
        BacnetValue::Double(bits) => Some(N::bits_spec(bits)),
        BacnetValue::Unsigned(n) => Some(N::int_spec(n as int)),
        BacnetValue::Signed(n) => Some(N::int_spec(n as int)),
        BacnetValue::Other => None,
    }
}

/// The number of a value.
pub fn to_number<N: Scalar>(v: BacnetValue) -> (r: Option<N>)
    ensures
        r == number_of::<N>(v),
{
    match v {
        BacnetValue::Real(bits) => Some(N::from_single_bits(bits)),
        BacnetValue::Double(bits) => Some(N::from_bits(bits)),
        BacnetValue::Unsigned(n) => Some(N::from_u64(n)),
        BacnetValue::Signed(n) => Some(N::from_i64(n)),
        BacnetValue::Other => None,
    }
}

/// The values of a response, or how the error is shown.
pub uninterp spec fn read_property_values(data: Seq<u8>) -> Result<Seq<BacnetValue>, Seq<char>>;

/// `ReadPropertyResponse::decode` of the `bacnet-rs` crate: the values of the
/// response, or how the error is shown. What comes back depends on the bytes
/// alone. The function panics on an integer of more than eight bytes.
#[verifier::external_body]
fn decode_values(data: &[u8]) -> (r: Result<Vec<BacnetValue>, String>)
    requires
        is_sound(data@),
    ensures
        match r {
            Ok(values) => read_property_values(data@) matches Ok(v) && v == values@,
            Err(shown) => read_property_values(data@) matches Err(m) && m == shown@,
        },
{
    match bacnet_rs::service::ReadPropertyResponse::decode(data) {
        Ok(response) => Ok(
            response.property_values.into_iter().map(|value| match value {
                bacnet_rs::property::PropertyValue::Real(x) => BacnetValue::Real(x.to_bits()),
                bacnet_rs::property::PropertyValue::Double(x) => BacnetValue::Double(x.to_bits()),
                bacnet_rs::property::PropertyValue::Unsigned(n) => BacnetValue::Unsigned(n),
                bacnet_rs::property::PropertyValue::Signed(n) => BacnetValue::Signed(n),
                _ => BacnetValue::Other,
            }).collect(),
        ),
        Err(error) => Err(format!("{error:?}")),
    }
}

/// The number of the first value that has one.
pub open spec fn first_number<N: Scalar>(values: Seq<BacnetValue>) -> Option<N>
    decreases values.len(),
{
    if values.len() == 0 {
        None
    } else if number_of::<N>(values[0]) is Some {
        number_of::<N>(values[0])
    } else {
        first_number::<N>(values.skip(1))
    }
}

/// The number of the first value that has one.
pub fn first_numeric<N: Scalar>(values: &[BacnetValue]) -> (r: Result<N, GatewayError>)
    ensures
        match first_number::<N>(values@) {
            Some(x) => r matches Ok(v) && v == x,
            None => r matches Err(e) && e.message@ == "no numeric value in response"@,
        },
{
    let mut i: usize = 0;
    assert(values@.skip(0) =~= values@);
    while i < values.len()
        invariant
            i <= values@.len(),
            first_number::<N>(values@) == first_number::<N>(values@.skip(i as int)),
        decreases values@.len() - i,
    {
        assert(values@.skip(i as int).skip(1) =~= values@.skip(i + 1));
        assert(values@.skip(i as int)[0] == values@[i as int]);
        if let Some(v) = to_number::<N>(values[i]) {
            return Ok(v);
        }
        i = i + 1;
    }
    Err(failure("no numeric value in response".to_owned()))
}

/// The number that service data brings, or what is said where it brings none.
pub open spec fn data_number<N: Scalar>(data: Seq<u8>) -> Result<N, Seq<char>> {
    match read_property_values(data) {
        Err(shown) => Err("rp resp decode: "@ + shown),
        Ok(values) => match first_number::<N>(values) {
            Some(x) => Ok(x),
            None => Err("no numeric value in response"@),
        },
    }
}

/// The number that service data brings.
pub fn present_value<N: Scalar>(data: &[u8]) -> (r: Result<N, GatewayError>)
    requires
        is_sound(data@),
    ensures
        match r {
            Ok(v) => data_number::<N>(data@) matches Ok(x) && v == x,
            Err(e) => data_number::<N>(data@) matches Err(m) && m == e.message@,
        },
{
    match decode_values(data) {
        Err(shown) => Err(failure_of("rp resp decode: ", shown.as_str())),
        Ok(values) => first_numeric(values.as_slice()),
    }
}

/// The number that a frame brings, or what is said where it brings none.
pub open spec fn frame_number<N: Scalar>(frame: Seq<u8>) -> Result<N, Seq<char>> {
    match frame_data(frame) {
        Err(m) => Err(m),
        Ok(data) => data_number::<N>(data),
    }
}

/// The number that a frame brings. There is no answer where the frame holds an
/// integer of more than eight bytes.
pub fn parse_response<N: Scalar>(frame: &[u8]) -> (r: Option<Result<N, GatewayError>>)
    ensures
        match r {
            None => frame_data(frame@) matches Ok(data) && !is_sound(data),
            Some(Ok(v)) => {
                &&& frame_data(frame@) matches Ok(data) && is_sound(data)
                &&& frame_number::<N>(frame@) matches Ok(x) && v == x
            },
            Some(Err(e)) => {
                &&& frame_data(frame@) matches Ok(data) ==> is_sound(data)
                &&& frame_number::<N>(frame@) matches Err(m) && m == e.message@
            },
        },
{
    match service_data(frame) {
        Err(e) => Some(Err(e)),
        Ok(data) => if values_sound(data.as_slice()) {
            Some(present_value(data.as_slice()))
        } else {
            None
        },
    }
}

// ---------------------------------------------------------------------
// Laws
// ---------------------------------------------------------------------

/// A binding is read if it names the present value of an analog input with an
/// instance of at most 22 bits, and no other is. The frame asks the device for the
/// property of exactly that instance and announces its own length.
pub proof fn lemma_request_asks_for_the_instance(b: BacnetIpBinding)
    ensures
        request_of(b) is Ok <==> b.object_type@ == "analog_input"@ && b.property_id@
            == "present_value"@ && b.object_instance < 0x40_0000,
        request_of(b) matches Ok(f) ==> {
            &&& f.len() == 17
            &&& f[0] == 0x81 && f[1] == 0x0A && f[2] * 0x100 + f[3] == f.len()
            &&& f[4] == 1 && f[5] == 4
            &&& f[6] == 2 && f[7] == 5 && f[9] == 12
            &&& f[10] == 0x0C
            &&& f[11] * 0x100_0000 + f[12] * 0x1_0000 + f[13] * 0x100 + f[14] == b.object_instance
            &&& f[15] == 0x19 && f[16] == 85
        },
{
    let id = object_identifier(ANALOG_INPUT as int, b.object_instance as int);
    assert(id == b.object_instance);
}

/// The number of a response is that of its first value that has one: every value
/// before it is of a type without numbers. There is none where all values are.
pub proof fn lemma_first_number_is_first<N: Scalar>(values: Seq<BacnetValue>)
    ensures
        match first_number::<N>(values) {
            Some(x) => exists|i: int|
                {
                    &&& 0 <= i < values.len()
                    &&& number_of::<N>(#[trigger] values[i]) == Some(x)
                    &&& forall|j: int| 0 <= j < i ==> (#[trigger] values[j]) is Other
                },
            None => forall|j: int| 0 <= j < values.len() ==> (#[trigger] values[j]) is Other,
        },
    decreases values.len(),
{
    if values.len() > 0 {
        let rest = values.skip(1);
        lemma_first_number_is_first::<N>(rest);
        if values[0] is Other {
            match first_number::<N>(values) {
                Some(x) => {
                    let i = choose|i: int|
                        {
                            &&& 0 <= i < rest.len()
                            &&& number_of::<N>(#[trigger] rest[i]) == Some(x)
                            &&& forall|j: int| 0 <= j < i ==> (#[trigger] rest[j]) is Other
                        };
                    assert(number_of::<N>(values[i + 1]) == Some(x));
                    assert forall|j: int| 0 <= j < i + 1 implies (
                    #[trigger] values[j]) is Other by {
                        if j > 0 {
                            assert(rest[j - 1] is Other);
                        }
                    }
                },
                None => {
                    assert forall|j: int| 0 <= j < values.len() implies (
                    #[trigger] values[j]) is Other by {
                        if j > 0 {
                            assert(rest[j - 1] is Other);
                        }
                    }
                },
            }
        } else {
            assert(number_of::<N>(values[0]) is Some);
        }
    }
}

/// Every value that holds a number stands for that number, and no other does for
/// any.
pub proof fn lemma_numbers_of_values<N: Scalar>(
    single: u32,
    double: u64,
    unsigned: u64,
    signed: i64,
    v: BacnetValue,
)
    ensures
        number_of::<N>(BacnetValue::Real(single)) == Some(N::single_spec(single)),
        number_of::<N>(BacnetValue::Double(double)) == Some(N::bits_spec(double)),
        number_of::<N>(BacnetValue::Unsigned(unsigned)) == Some(N::int_spec(unsigned as int)),
        number_of::<N>(BacnetValue::Signed(signed)) == Some(N::int_spec(signed as int)),
        number_of::<N>(v) is None <==> v is Other,
{
}

/// Service data comes from an acknowledgement of a read and from nothing else, and
/// in a frame that is marked as BACnet/IP.
pub proof fn lemma_only_reads_are_taken(reply: ReplyView, frame: Seq<u8>)
    ensures
        reply_data(reply) is Ok <==> reply is ComplexAck && reply->ComplexAck_0 == 12,
        reply_data(reply) matches Ok(data) ==> reply == ReplyView::ComplexAck(12, data),
        frame_data(frame) is Ok ==> frame.len() >= 4 && frame[0] == 0x81,
{
}

/// A frame carries its APDU behind six bytes of headers.
pub proof fn lemma_frame_carries_its_apdu(apdu: Seq<u8>)
    ensures
        framed(apdu).len() == apdu.len() + 6,
        framed(apdu).skip(6) == apdu,
{
    assert(framed(apdu).skip(6) =~= apdu);
}

/// The number of a frame is that of the first value with a number in its service data.
/// Without service data, without values, or without such a value there is none.
pub proof fn lemma_frame_number_is_in_its_data<N: Scalar>(frame: Seq<u8>)
    ensures
        frame_number::<N>(frame) is Ok <==> frame_data(frame) is Ok && read_property_values(
            frame_data(frame)->Ok_0,
        ) is Ok && first_number::<N>(read_property_values(frame_data(frame)->Ok_0)->Ok_0) is Some,
        frame_number::<N>(frame) matches Ok(x) ==> first_number::<N>(
            read_property_values(frame_data(frame)->Ok_0)->Ok_0,
        ) == Some(x),
{
}

/// A response to a read without an array index: the object in four bytes, the property in
/// one, and the tag that opens the values, each under its own context tag.
pub open spec fn is_usual_response(data: Seq<u8>) -> bool {
    &&& data.len() > 8
    &&& data[0] == 0x0C
    &&& data[5] == 0x19
    &&& data[7] == 0x3E
}

/// A usual response can be decoded if its one value is single precision: four bytes behind
/// the tag of that type, with the tag that closes the values behind them.
pub proof fn lemma_single_values_are_sound(data: Seq<u8>)
    requires
        is_usual_response(data),
        data.len() == 14,
        data[8] == 0x44,
        data[13] == 0x3F,
    ensures
        is_sound(data),
{
    assert(values_start(data) == Some(8int));
    assert(tag_at(data, 8) == Some(Tag { context: false, number: 4, length: 4, size: 1 }));
    assert(tag_at(data, 13) == Some(Tag { context: true, number: 3, length: 7, size: 1 }));
    assert(sound_from(data, 13));
}

/// A usual response cannot be decoded if its first value is an integer, signed or not, that
/// announces more than eight bytes and has them. With eight bytes or fewer it is no hindrance:
/// then it depends on what follows.
pub proof fn lemma_long_integers_are_unsound(data: Seq<u8>)
    requires
        is_usual_response(data),
        data.len() > 9,
        data[8] == 0x25 || data[8] == 0x35,
        1 <= data[9] < 254,
        10 + data[9] <= data.len(),
    ensures
        8 < data[9] ==> !is_sound(data),
        data[9] <= 8 ==> (is_sound(data) <==> sound_from(data, 10 + data[9])),
{
    assert(values_start(data) == Some(8int));
    assert(tag_at(data, 8) == Some(
        Tag { context: false, number: data[8] / 16, length: data[9] as u32, size: 2 },
    ));
}

} // verus!
