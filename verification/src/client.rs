//! The client's side of the protocol: framing requests and reading responses.
use vstd::prelude::*;
use vstd::string::StringExecFns;

use crate::codec;
use crate::codec::DecodeError;
use crate::decode;
use crate::network;
use crate::network::{bytes_get_u32, frame_encode};
use crate::octets;
use crate::roundtrip;
use crate::text::utf8_text;
use crate::types::{ClientRequest, ClientResponse, MessageType, PROTOCOL_VERSION, RequestView, ResponseView, WireMessage, WireView};

verus! {

/// The wire message that carries a request.
pub open spec fn request_wire(request: RequestView) -> WireView {
    WireView {
        version: PROTOCOL_VERSION,
        msg_type: MessageType::ClientRequest,
        payload: codec::enc_request(request),
    }
}

/// The wire message that carries a response.
pub open spec fn response_wire(response: ResponseView) -> WireView {
    WireView {
        version: PROTOCOL_VERSION,
        msg_type: MessageType::ClientResponse,
        payload: codec::enc_response(response),
    }
}

/// The response that a frame's payload holds: a wire message whose payload is
/// the response.
pub open spec fn dec_response_wire(payload: Seq<u8>) -> codec::Parsed<ResponseView> {
    match codec::dec_wire(payload) {
        Err(e) => Err(e),
        Ok((wire, _)) => codec::dec_response(wire.payload),
    }
}

/// The frame that sends a request.
pub fn request_frame(request: &ClientRequest) -> (frame: Vec<u8>)
    ensures
        frame@ == network::frame_of(request_wire(request@)),
{
    let wire = WireMessage {
        version: PROTOCOL_VERSION,
        msg_type: MessageType::ClientRequest,
        payload: request.to_bytes(),
    };
    frame_encode(&wire)
}

/// The payload length that the header of a response announces.
pub fn response_len(header: &[u8]) -> (n: u32)
    requires
        header@.len() >= network::HEADER_LEN,
    ensures
        n == octets::be_value(header@.take(4)),
{
    bytes_get_u32(header)
}

/// Reads the response that a frame's payload holds.
pub fn read_response(payload: &[u8]) -> (result: Result<ClientResponse, DecodeError>)
    ensures
        decode::decodes(dec_response_wire(payload@), result),
{
    let wire = WireMessage::from_bytes(payload)?;
    ClientResponse::from_bytes(&wire.payload)
}

/// What a client is told.
#[derive(Debug, PartialEq, Eq)]
pub enum Outcome {
    /// The operation was committed.
    Committed,
    /// The value that was read, as text.
    Value(String),
    /// The key that was read has no value.
    NotFound,
    /// The operation failed, and why.
    Failed(String),
}

/// What an `Outcome` stands for.
pub enum OutcomeView {
    Committed,
    Value(Seq<char>),
    NotFound,
    Failed(Seq<char>),
}

impl View for Outcome {
    type V = OutcomeView;

    open spec fn view(&self) -> OutcomeView {
        match *self {
            Outcome::Committed => OutcomeView::Committed,
            Outcome::Value(value) => OutcomeView::Value(value@),
            Outcome::NotFound => OutcomeView::NotFound,
            Outcome::Failed(reason) => OutcomeView::Failed(reason@),
        }
    }
}

/// Why an operation failed, as far as the response says.
pub open spec fn failure(response: ResponseView) -> OutcomeView {
    OutcomeView::Failed(
        match response.error {
            Some(error) => error,
            None => "unknown"@,
        },
    )
}

/// A value as text, or a stand-in where it is none.
pub open spec fn value_text(value: Seq<u8>) -> Seq<char> {
    if vstd::utf8::valid_utf8(value) {
        vstd::utf8::decode_utf8(value)
    } else {
        "<binary>"@
    }
}

/// What a client is told of a write.
pub open spec fn told_of_write(response: ResponseView) -> OutcomeView {
    if response.success {
        OutcomeView::Committed
    } else {
        failure(response)
    }
}

/// What a client is told of a read.
pub open spec fn told_of_read(response: ResponseView) -> OutcomeView {
    if !response.success {
        failure(response)
    } else {
        match response.value {
            Some(value) => OutcomeView::Value(value_text(value)),
            None => OutcomeView::NotFound,
        }
    }
}

/// A client is told of success exactly where the response says so: of a write that
/// it is committed, of a read the value, whole where it is text, or that there is
/// none. Otherwise it is told why it failed, as far as the response says.
pub proof fn law_client_is_told_the_outcome(response: ResponseView, text: Seq<char>)
    ensures
        response.success <==> told_of_write(response) == OutcomeView::Committed,
        !response.success ==> told_of_write(response) == told_of_read(response),
        !response.success ==> told_of_read(response) is Failed,
        !response.success && response.error == Some(text) ==> told_of_read(response)
            == OutcomeView::Failed(text),
        response.success && response.value is None ==> told_of_read(response)
            == OutcomeView::NotFound,
        response.success && response.value == Some(vstd::utf8::encode_utf8(text)) ==> told_of_read(
            response,
        ) == OutcomeView::Value(text),
{
    vstd::utf8::encode_utf8_valid_utf8(text);
    vstd::utf8::encode_utf8_decode_utf8(text);
}

fn failed(error: Option<String>) -> (outcome: Outcome)
    ensures
        outcome@ == OutcomeView::Failed(
            match error {
                Some(error) => error@,
                None => "unknown"@,
            },
        ),
{
    match error {
        Some(error) => Outcome::Failed(error),
        None => Outcome::Failed(String::from_str("unknown")),
    }
}

/// What a client that wrote is told.
pub fn write_outcome(response: ClientResponse) -> (outcome: Outcome)
    ensures
        outcome@ == (if response@.success {
            OutcomeView::Committed
        } else {
            failure(response@)
        }),
        outcome@ == told_of_write(response@),
{
    if response.success {
        Outcome::Committed
    } else {
        failed(response.error)
    }
}

/// What a client that read is told.
pub fn read_outcome(response: ClientResponse) -> (outcome: Outcome)
    ensures
        outcome@ == (if !response@.success {
            failure(response@)
        } else {
            match response@.value {
                Some(value) => OutcomeView::Value(value_text(value)),
                None => OutcomeView::NotFound,
            }
        }),
        outcome@ == told_of_read(response@),
{
    if !response.success {
        return failed(response.error);
    }
    match response.value {
        Some(value) => match utf8_text(value) {
            Some(text) => Outcome::Value(text),
            None => Outcome::Value(String::from_str("<binary>")),
        },
        None => Outcome::NotFound,
    }
}

/// A response that was wrapped into a wire message is read back.
pub proof fn law_response_read_back(response: ResponseView)
    requires
        roundtrip::short(codec::enc_response(response)),
        response.value matches Some(value) ==> roundtrip::short(value),
        response.error matches Some(error) ==> roundtrip::short(
            vstd::utf8::encode_utf8(error),
        ),
    ensures
        dec_response_wire(codec::enc_wire(response_wire(response))) == Ok::<_, DecodeError>(
            (response, Seq::<u8>::empty()),
        ),
{
    let wire = response_wire(response);
    roundtrip::law_wire_roundtrip(wire, Seq::empty());
    assert(codec::enc_wire(wire) + Seq::<u8>::empty() =~= codec::enc_wire(wire));
    roundtrip::law_response_roundtrip(response, Seq::empty());
    assert(wire.payload + Seq::<u8>::empty() =~= wire.payload);
}

/// A request that a client sends is what the other side of the stream reads: a
/// client request of the first version of the protocol, whose payload is the
/// request.
pub proof fn law_request_read_at_the_other_side(request: RequestView, rest: Seq<u8>)
    requires
        roundtrip::op_fits(request.operation),
        codec::enc_wire(request_wire(request)).len() <= network::MAX_FRAME,
    ensures
        ({
            let wire = request_wire(request);
            &&& wire.version == 1
            &&& wire.msg_type == MessageType::ClientRequest
            &&& codec::dec_request(wire.payload) == Ok::<_, DecodeError>(
                (request, Seq::<u8>::empty()),
            )
            &&& network::frame_read(network::frame_of(wire) + rest) == (
            network::StreamRead::Message { wire, read: network::frame_of(wire).len() })
        }),
{
    let wire = request_wire(request);
    roundtrip::law_request_roundtrip(request, Seq::empty());
    assert(wire.payload + Seq::<u8>::empty() =~= wire.payload);
    network::law_frames_in_a_row(wire, rest);
}

/// A response goes out as a client response of the first version of the protocol.
pub proof fn law_response_is_marked_as_one(response: ResponseView)
    ensures
        response_wire(response).version == 1,
        response_wire(response).msg_type == MessageType::ClientResponse,
        response_wire(response).payload == codec::enc_response(response),
{
}

/// A response is read from whatever envelope holds it; where the envelope or the
/// response does not decode, that is the error.
pub proof fn law_response_is_read_from_envelope(payload: Seq<u8>)
    ensures
        match codec::dec_wire(payload) {
            Ok((wire, rest)) => dec_response_wire(payload) == codec::dec_response(wire.payload),
            Err(e) => dec_response_wire(payload) == Err::<(ResponseView, Seq<u8>), _>(e),
        },
{
}

/// A failure is told in the words of the response, or as unknown where it has
/// none.
pub proof fn law_failure_is_told(response: ResponseView)
    ensures
        response.error matches Some(error) ==> failure(response) == OutcomeView::Failed(error),
        response.error is None ==> failure(response) == OutcomeView::Failed("unknown"@),
{
}

/// A value that is text is told as that text, whole; any other value is not told.
pub proof fn law_value_is_told(value: Seq<u8>)
    ensures
        vstd::utf8::valid_utf8(value) ==> value_text(value) == vstd::utf8::decode_utf8(value),
        !vstd::utf8::valid_utf8(value) ==> value_text(value) == "<binary>"@,
{
}

/// An outcome stands for itself.
pub proof fn law_outcome_stands_for_itself(outcome: Outcome)
    ensures
        match outcome {
            Outcome::Committed => outcome@ == OutcomeView::Committed,
            Outcome::Value(value) => outcome@ == OutcomeView::Value(value@),
            Outcome::NotFound => outcome@ == OutcomeView::NotFound,
            Outcome::Failed(reason) => outcome@ == OutcomeView::Failed(reason@),
        },
{
}

} // verus!
