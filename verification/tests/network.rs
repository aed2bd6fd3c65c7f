use bft_engine::client::{
    read_outcome, read_response, request_frame, response_len, write_outcome, Outcome,
};
use bft_engine::codec::DecodeError;
use bft_engine::network::{
    broadcast_targets, delivery_result, frame_decode, frame_encode, frame_len, frame_step,
    plan_delivery, FrameStep,
    Delivery, Handover, NetworkError,
};
use bft_engine::types::{
    ClientRequest, ClientResponse, MessageType, Operation, WireMessage, PROTOCOL_VERSION,
};

fn test_wire_msg(data: u8) -> WireMessage {
    WireMessage {
        version: PROTOCOL_VERSION,
        msg_type: MessageType::Consensus,
        payload: vec![data],
    }
}

#[test]
fn test_frame_encode_decode() {
    let msg = test_wire_msg(7);
    let encoded = frame_encode(&msg);

    // First 4 bytes are the length
    let len = u32::from_be_bytes([encoded[0], encoded[1], encoded[2], encoded[3]]);
    let payload = &encoded[4..];
    assert_eq!(len as usize, payload.len());

    let decoded = WireMessage::from_bytes(payload).unwrap();
    assert_eq!(decoded.payload, vec![7]);
}

#[test]
fn a_frame_is_read_back() {
    let msg = WireMessage { payload: vec![5; 300], ..test_wire_msg(0) };
    let frame = frame_encode(&msg);
    // 1 + 4 + 8 + 300 bytes of payload
    assert_eq!(&frame[..4], &[0, 0, 1, 0x39]);
    let n = frame_len(&frame[..4]).unwrap();
    assert_eq!(n, 313);
    assert_eq!(frame_decode(&frame[4..]).unwrap(), msg);
}

#[test]
fn long_frames_are_refused() {
    assert_eq!(frame_len(&[1, 0, 0, 0]), Ok(16 * 1024 * 1024));
    let error = frame_len(&[1, 0, 0, 1]).unwrap_err();
    assert_eq!(error, NetworkError::Codec("message too large: 16777217 bytes".to_string()));
    assert_eq!(error.describe(), "codec error: message too large: 16777217 bytes");
    assert_eq!(
        frame_len(&[255, 255, 255, 255]),
        Err(NetworkError::Codec("message too large: 4294967295 bytes".to_string()))
    );
}

#[test]
fn broken_payloads_are_refused() {
    assert_eq!(
        frame_decode(&[1, 9, 0, 0, 0]),
        Err(NetworkError::Codec(
            "invalid value: integer `9`, expected variant index 0 <= i < 3".to_string()
        ))
    );
    assert_eq!(
        frame_decode(&[]),
        Err(NetworkError::Codec("io error: unexpected end of file".to_string()))
    );
}

#[test]
fn network_errors_are_described() {
    assert_eq!(NetworkError::PeerNotFound { node_id: 99 }.describe(), "peer 99 not found");
    assert_eq!(NetworkError::ChannelClosed.describe(), "channel closed");
    assert_eq!(NetworkError::Io("broken pipe".to_string()).describe(), "I/O error: broken pipe");
}

#[test]
fn the_draws_decide_the_delivery() {
    assert_eq!(plan_delivery(true, Some(5), true), Delivery::Dropped);
    assert_eq!(
        plan_delivery(false, Some(5), true),
        Delivery::Sent { delay_ms: Some(5), twice: true }
    );
    assert_eq!(
        plan_delivery(false, None, false),
        Delivery::Sent { delay_ms: None, twice: false }
    );
}

#[test]
fn the_sender_learns_what_became_of_a_message() {
    assert_eq!(delivery_result(99, Handover::Taken), Ok(()));
    assert_eq!(
        delivery_result(99, Handover::NoInbox),
        Err(NetworkError::PeerNotFound { node_id: 99 })
    );
    assert_eq!(delivery_result(99, Handover::Closed), Err(NetworkError::ChannelClosed));
}

#[test]
fn a_broadcast_leaves_the_sender_out() {
    assert_eq!(broadcast_targets(1, &vec![0, 1, 2, 1, 3]), vec![0, 2, 3]);
    assert_eq!(broadcast_targets(9, &vec![0, 1]), vec![0, 1]);
    assert!(broadcast_targets(0, &vec![0]).is_empty());
}

#[test]
fn a_request_is_framed() {
    let request = ClientRequest {
        request_id: 3,
        operation: Operation::Put { key: b"k".to_vec(), value: b"v".to_vec() },
    };
    let frame = request_frame(&request);
    let n = frame_len(&frame[..4]).unwrap();
    assert_eq!(n, frame.len() - 4);
    let wire = frame_decode(&frame[4..]).unwrap();
    assert_eq!(wire.version, PROTOCOL_VERSION);
    assert_eq!(wire.msg_type, MessageType::ClientRequest);
    assert_eq!(ClientRequest::from_bytes(&wire.payload).unwrap(), request);
}

#[test]
fn clients_are_told_what_happened() {
    let response = |success: bool, value: Option<Vec<u8>>, error: Option<&str>| ClientResponse {
        request_id: 1,
        success,
        value,
        error: error.map(|e| e.to_string()),
    };
    assert_eq!(write_outcome(response(true, None, None)), Outcome::Committed);
    assert_eq!(
        write_outcome(response(false, None, Some("no"))),
        Outcome::Failed("no".to_string())
    );
    assert_eq!(
        write_outcome(response(false, None, None)),
        Outcome::Failed("unknown".to_string())
    );
    assert_eq!(
        read_outcome(response(true, Some("hé".as_bytes().to_vec()), None)),
        Outcome::Value("hé".to_string())
    );
    assert_eq!(
        read_outcome(response(true, Some(vec![0xff, 0xfe]), None)),
        Outcome::Value("<binary>".to_string())
    );
    assert_eq!(read_outcome(response(true, None, None)), Outcome::NotFound);
    assert_eq!(
        read_outcome(response(false, Some(vec![1]), None)),
        Outcome::Failed("unknown".to_string())
    );
}

#[test]
fn a_response_is_read_back() {
    let response = ClientResponse {
        request_id: 3,
        success: true,
        value: Some(b"v".to_vec()),
        error: None,
    };
    let wire = WireMessage {
        version: PROTOCOL_VERSION,
        msg_type: MessageType::ClientResponse,
        payload: response.to_bytes(),
    };
    assert_eq!(read_response(&wire.to_bytes()), Ok(response));
    assert_eq!(read_response(&test_wire_msg(1).to_bytes()), Err(DecodeError::UnexpectedEnd));
    assert_eq!(read_response(&[]), Err(DecodeError::UnexpectedEnd));
    // Clients take frames of any length.
    assert_eq!(response_len(&[1, 0, 0, 1]), 16_777_217);
}

#[test]
fn frames_in_a_row_are_read_one_after_the_other() {
    let first = test_wire_msg(1);
    let second = test_wire_msg(2);
    let mut stream = frame_encode(&first);
    let length = stream.len();
    stream.extend(frame_encode(&second));

    assert_eq!(frame_step(&[]), Ok(FrameStep::Need(4)));
    assert_eq!(frame_step(&stream[..3]), Ok(FrameStep::Need(1)));
    assert_eq!(frame_step(&stream[..4]), Ok(FrameStep::Need(length - 4)));
    assert_eq!(frame_step(&stream[..length - 1]), Ok(FrameStep::Need(1)));
    assert_eq!(frame_step(&stream[..length]), Ok(FrameStep::Message(first)));
    assert_eq!(frame_step(&stream[length..]), Ok(FrameStep::Message(second)));
}

#[test]
fn frames_that_are_too_long_or_broken_are_refused() {
    // No byte of the payload is asked for.
    assert_eq!(
        frame_step(&[1, 0, 0, 1]),
        Err(NetworkError::Codec("message too large: 16777217 bytes".to_string()))
    );
    assert_eq!(frame_step(&[0, 0, 0, 1]), Ok(FrameStep::Need(1)));
    assert_eq!(
        frame_step(&[0, 0, 0, 1, 1]),
        Err(NetworkError::Codec("io error: unexpected end of file".to_string()))
    );
}
