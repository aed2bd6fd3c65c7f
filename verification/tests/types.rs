use bft_engine::codec::DecodeError;
use bft_engine::types::{
    Block, ClientRequest, ClientResponse, ConsensusMessage, MessageType, NodeConfig, Operation,
    SignedMessage, WireMessage, PROTOCOL_VERSION,
};

#[test]
fn test_operation_serialization_roundtrip() {
    let op = Operation::Put {
        key: b"hello".to_vec(),
        value: b"world".to_vec(),
    };
    let encoded = op.to_bytes();
    let decoded: Operation = Operation::from_bytes(&encoded).unwrap();
    assert_eq!(op, decoded);
}

#[test]
fn test_block_hash_deterministic() {
    let block = Block {
        view: 1,
        sequence: 0,
        proposer: 0,
        operations: vec![Operation::Put {
            key: b"k".to_vec(),
            value: b"v".to_vec(),
        }],
        parent_hash: vec![0u8; 8],
    };
    let h1 = block.hash();
    let h2 = block.hash();
    assert_eq!(h1, h2, "Block hash must be deterministic");
    assert_eq!(h1.len(), 8);
}

#[test]
fn test_wire_message_roundtrip() {
    let wire = WireMessage {
        version: PROTOCOL_VERSION,
        msg_type: MessageType::Consensus,
        payload: vec![1, 2, 3, 4],
    };
    let bytes = wire.to_bytes();
    let decoded = WireMessage::from_bytes(&bytes).unwrap();
    assert_eq!(decoded.version, PROTOCOL_VERSION);
    assert_eq!(decoded.payload, vec![1, 2, 3, 4]);
}

#[test]
fn test_client_request_serialization() {
    let req = ClientRequest {
        request_id: 42,
        operation: Operation::Get {
            key: b"test".to_vec(),
        },
    };
    let encoded = req.to_bytes();
    let decoded: ClientRequest = ClientRequest::from_bytes(&encoded).unwrap();
    assert_eq!(req, decoded);
}

#[test]
fn test_consensus_message_variants() {
    let msgs: Vec<ConsensusMessage> = vec![
        ConsensusMessage::Propose {
            block: Block {
                view: 0,
                sequence: 0,
                proposer: 0,
                operations: vec![],
                parent_hash: vec![],
            },
        },
        ConsensusMessage::Vote {
            view: 1,
            sequence: 0,
            block_hash: vec![0xAB],
            voter: 2,
        },
        ConsensusMessage::ViewChange {
            new_view: 5,
            sender: 1,
            last_committed_seq: 10,
        },
    ];
    for msg in &msgs {
        let enc = msg.to_bytes();
        let dec: ConsensusMessage = ConsensusMessage::from_bytes(&enc).unwrap();
        assert_eq!(msg, &dec);
    }
}

#[test]
fn test_node_config_quorum() {
    let cfg = NodeConfig {
        id: 0,
        cluster_size: 4,
        max_faults: 1,
        peers: vec![
            (0, "127.0.0.1:9000".into()),
            (1, "127.0.0.1:9001".into()),
            (2, "127.0.0.1:9002".into()),
            (3, "127.0.0.1:9003".into()),
        ],
        data_dir: "/tmp/node0".into(),
        consensus_timeout_ms: 5000,
        chain_id: "test-chain".into(),
    };
    assert_eq!(cfg.quorum_size(), 3); // 2*1+1
    assert_eq!(cfg.leader_for_view(0), 0);
    assert_eq!(cfg.leader_for_view(1), 1);
    assert_eq!(cfg.leader_for_view(4), 0); // wraps around
}

// The layout of each message, held against the encoding of a tuple with the
// same fields.

#[test]
fn operations_have_the_layout_of_bincode() {
    let put = Operation::Put { key: vec![1, 2, 3], value: vec![] };
    let expected: Vec<u8> =
        bincode::serialize(&(0u32, vec![1u8, 2, 3], Vec::<u8>::new())).unwrap();
    assert_eq!(put.to_bytes(), expected);

    let get = Operation::Get { key: b"k".to_vec() };
    assert_eq!(get.to_bytes(), bincode::serialize(&(1u32, b"k".to_vec())).unwrap());

    let txn = Operation::Txn { ops: vec![put.clone(), get.clone()] };
    let mut expected: Vec<u8> = bincode::serialize(&(2u32, 2u64)).unwrap();
    expected.extend(put.to_bytes());
    expected.extend(get.to_bytes());
    assert_eq!(txn.to_bytes(), expected);
    assert_eq!(Operation::from_bytes(&expected).unwrap(), txn);
}

#[test]
fn blocks_have_the_layout_of_bincode() {
    let block = Block {
        view: 0x0102030405060708,
        sequence: 9,
        proposer: u64::MAX,
        operations: vec![Operation::Get { key: vec![7] }],
        parent_hash: vec![0; 8],
    };
    let mut expected: Vec<u8> =
        bincode::serialize(&(0x0102030405060708u64, 9u64, u64::MAX, 1u64)).unwrap();
    expected.extend(bincode::serialize(&(1u32, vec![7u8])).unwrap());
    expected.extend(bincode::serialize(&vec![0u8; 8]).unwrap());
    assert_eq!(block.to_bytes(), expected);
    assert_eq!(expected[0], 0x08);
}

#[test]
fn messages_have_the_layout_of_bincode() {
    let vote = ConsensusMessage::Vote { view: 1, sequence: 2, block_hash: vec![3, 4], voter: 5 };
    assert_eq!(
        vote.to_bytes(),
        bincode::serialize(&(1u32, 1u64, 2u64, vec![3u8, 4], 5u64)).unwrap()
    );
    let commit = ConsensusMessage::Commit {
        view: 1,
        sequence: 2,
        block_hash: vec![3],
        vote_signatures: vec![(4, vec![5, 6]), (7, vec![])],
    };
    let sigs: Vec<(u64, Vec<u8>)> = vec![(4, vec![5, 6]), (7, vec![])];
    assert_eq!(
        commit.to_bytes(),
        bincode::serialize(&(2u32, 1u64, 2u64, vec![3u8], sigs)).unwrap()
    );
    assert_eq!(ConsensusMessage::from_bytes(&commit.to_bytes()).unwrap(), commit);
    let change = ConsensusMessage::ViewChange { new_view: 1, sender: 2, last_committed_seq: 3 };
    assert_eq!(change.to_bytes(), bincode::serialize(&(3u32, 1u64, 2u64, 3u64)).unwrap());
    let new_view = ConsensusMessage::NewView {
        view: 8,
        leader: 9,
        view_change_proofs: vec![(1, vec![2])],
    };
    let proofs: Vec<(u64, Vec<u8>)> = vec![(1, vec![2])];
    assert_eq!(
        new_view.to_bytes(),
        bincode::serialize(&(4u32, 8u64, 9u64, proofs)).unwrap()
    );
    assert_eq!(ConsensusMessage::from_bytes(&new_view.to_bytes()).unwrap(), new_view);
}

#[test]
fn envelopes_have_the_layout_of_bincode() {
    let signed = SignedMessage { sender: 3, payload: vec![1], signature: vec![2; 64] };
    assert_eq!(
        signed.to_bytes(),
        bincode::serialize(&(3u64, vec![1u8], vec![2u8; 64])).unwrap()
    );
    assert_eq!(SignedMessage::from_bytes(&signed.to_bytes()).unwrap(), signed);

    for (kind, number) in [
        (MessageType::Consensus, 0u32),
        (MessageType::ClientRequest, 1),
        (MessageType::ClientResponse, 2),
    ] {
        let wire = WireMessage { version: 1, msg_type: kind, payload: vec![9, 8] };
        let bytes = wire.to_bytes();
        assert_eq!(bytes, bincode::serialize(&(1u8, number, vec![9u8, 8])).unwrap());
        assert_eq!(WireMessage::from_bytes(&bytes).unwrap(), wire);
    }
}

#[test]
fn client_messages_have_the_layout_of_bincode() {
    let request = ClientRequest { request_id: 7, operation: Operation::Get { key: vec![1] } };
    assert_eq!(
        request.to_bytes(),
        bincode::serialize(&(7u64, 1u32, vec![1u8])).unwrap()
    );
    let response = ClientResponse {
        request_id: 7,
        success: true,
        value: Some(vec![1, 2]),
        error: None,
    };
    let plain: (u64, bool, Option<Vec<u8>>, Option<String>) = (7, true, Some(vec![1, 2]), None);
    assert_eq!(response.to_bytes(), bincode::serialize(&plain).unwrap());
    assert_eq!(ClientResponse::from_bytes(&response.to_bytes()).unwrap(), response);

    let failed = ClientResponse {
        request_id: 8,
        success: false,
        value: None,
        error: Some("näh".to_string()),
    };
    let plain: (u64, bool, Option<Vec<u8>>, Option<String>) =
        (8, false, None, Some("näh".to_string()));
    assert_eq!(failed.to_bytes(), bincode::serialize(&plain).unwrap());
    assert_eq!(ClientResponse::from_bytes(&failed.to_bytes()).unwrap(), failed);
}

#[test]
fn bytes_behind_a_value_are_ignored() {
    let mut bytes = Operation::Get { key: vec![1, 2] }.to_bytes();
    bytes.extend([0xff; 5]);
    assert_eq!(Operation::from_bytes(&bytes).unwrap(), Operation::Get { key: vec![1, 2] });
}

#[test]
fn an_empty_transaction_is_an_operation() {
    let txn = Operation::Txn { ops: vec![] };
    assert_eq!(Operation::from_bytes(&txn.to_bytes()).unwrap(), txn);
}

#[test]
fn cut_off_bytes_are_refused() {
    let bytes = ConsensusMessage::Vote {
        view: 1,
        sequence: 2,
        block_hash: vec![3, 4],
        voter: 5,
    }
    .to_bytes();
    for n in 0..bytes.len() {
        assert_eq!(
            ConsensusMessage::from_bytes(&bytes[..n]),
            Err(DecodeError::UnexpectedEnd)
        );
    }
    // A length that the bytes cannot hold.
    let huge: Vec<u8> = bincode::serialize(&(1u32, u64::MAX)).unwrap();
    assert_eq!(Operation::from_bytes(&huge), Err(DecodeError::UnexpectedEnd));
}

#[test]
fn unknown_variants_are_refused() {
    let bytes: Vec<u8> = bincode::serialize(&7u32).unwrap();
    let error = ConsensusMessage::from_bytes(&bytes).unwrap_err();
    assert_eq!(error, DecodeError::UnknownVariant { found: 7, variants: 5 });
    assert_eq!(
        error.describe(),
        "invalid value: integer `7`, expected variant index 0 <= i < 5"
    );
    assert_eq!(
        Operation::from_bytes(&bytes),
        Err(DecodeError::UnknownVariant { found: 7, variants: 3 })
    );
    let mut wire: Vec<u8> = vec![1];
    wire.extend(bincode::serialize(&3u32).unwrap());
    assert_eq!(
        WireMessage::from_bytes(&wire),
        Err(DecodeError::UnknownVariant { found: 3, variants: 3 })
    );
}

#[test]
fn malformed_responses_are_refused() {
    let bad_bool: Vec<u8> = bincode::serialize(&(1u64, 2u8)).unwrap();
    let error = ClientResponse::from_bytes(&bad_bool).unwrap_err();
    assert_eq!(error, DecodeError::InvalidBool { found: 2 });
    let plain = bincode::deserialize::<(u64, bool)>(&bad_bool).unwrap_err();
    assert_eq!(error.describe(), plain.to_string());

    let bad_option: Vec<u8> = bincode::serialize(&(1u64, true, 5u8)).unwrap();
    let error = ClientResponse::from_bytes(&bad_option).unwrap_err();
    assert_eq!(error, DecodeError::InvalidOption { found: 5 });
    let plain = bincode::deserialize::<(u64, bool, Option<u8>)>(&bad_option).unwrap_err();
    assert_eq!(error.describe(), plain.to_string());

    let bad_text: Vec<u8> =
        bincode::serialize(&(1u64, true, 0u8, 1u8, vec![0xffu8, 0xfe])).unwrap();
    let error = ClientResponse::from_bytes(&bad_text).unwrap_err();
    assert_eq!(error, DecodeError::InvalidText { valid_up_to: 0, length: Some(1) });
    assert_eq!(
        error.describe(),
        "string is not valid utf8: invalid utf-8 sequence of 1 bytes from index 0"
    );
}

#[test]
fn text_errors_are_described() {
    // A byte that starts nothing, a sequence that breaks off, and one that the
    // end cuts off.
    let cases: [(&[u8], u64, Option<u8>); 3] = [
        (&[b'a', 0xff], 1, Some(1)),
        (&[b'a', b'b', 0xe2, 0x82, b'c'], 2, Some(2)),
        (&[b'a', b'b', b'c', 0xe2, 0x82], 3, None),
    ];
    for (bytes, valid_up_to, length) in cases {
        let response = bincode::serialize(&(1u64, true, 0u8, 1u8, bytes.to_vec())).unwrap();
        let error = ClientResponse::from_bytes(&response).unwrap_err();
        assert_eq!(error, DecodeError::InvalidText { valid_up_to, length });
        let plain =
            bincode::deserialize::<(u64, bool, Option<u8>, Option<String>)>(&response).unwrap_err();
        assert_eq!(error.describe(), plain.to_string());
    }
    let cut: Vec<u8> = bincode::serialize(&(1u64, true, 0u8, 1u8, 9u64)).unwrap();
    let error = ClientResponse::from_bytes(&cut).unwrap_err();
    assert_eq!(error, DecodeError::TextCutOff);
    let plain =
        bincode::deserialize::<(u64, bool, Option<u8>, Option<String>)>(&cut).unwrap_err();
    assert_eq!(error.describe(), plain.to_string());
    assert_eq!(error.describe(), "io error: ");
}

#[test]
fn the_end_of_the_bytes_is_described() {
    let error = Operation::from_bytes(&[]).unwrap_err();
    let plain = bincode::deserialize::<u32>(&[]).unwrap_err();
    assert_eq!(error.describe(), plain.to_string());
    assert_eq!(error.describe(), "io error: unexpected end of file");
}

#[test]
fn block_hash_is_fnv_of_the_encoding() {
    let block = Block {
        view: 1,
        sequence: 2,
        proposer: 3,
        operations: vec![],
        parent_hash: vec![],
    };
    let mut h: u64 = 0xcbf29ce484222325;
    for byte in block.to_bytes() {
        h ^= byte as u64;
        h = h.wrapping_mul(0x100000001b3);
    }
    assert_eq!(block.hash(), h.to_le_bytes().to_vec());
    let mut other = block.clone();
    other.sequence = 4;
    assert_ne!(other.hash(), block.hash());
}

#[test]
fn copies_are_equal() {
    let op = Operation::Txn {
        ops: vec![
            Operation::Put { key: vec![1], value: vec![2] },
            Operation::Txn { ops: vec![Operation::Get { key: vec![3] }] },
        ],
    };
    assert_eq!(op.clone(), op);
}
