use bft_engine::crypto::{
    accepted_or_not, open_payload, verify_message_signature, verify_signature,
    verify_signed_message, verify_signed_message_with_context, CryptoError, KeyStore, NodeKeyPair,
    PublicKeyInfo, VerifyingKey,
};
use bft_engine::types::{Block, ConsensusMessage, NodeId, Operation, SignedMessage};

fn test_keypair(node_id: NodeId) -> NodeKeyPair {
    let mut seed = [0u8; 32];
    seed[0] = node_id as u8;
    NodeKeyPair::from_seed(node_id, &seed)
}

fn build_key_store(keypairs: &[&NodeKeyPair]) -> KeyStore {
    let mut ks = KeyStore::new();
    for kp in keypairs {
        ks.insert(kp.node_id, kp.verifying_key);
    }
    ks
}

fn vote() -> ConsensusMessage {
    ConsensusMessage::Vote { view: 1, sequence: 0, block_hash: vec![0xAB], voter: 1 }
}

#[test]
fn test_sign_and_verify_bytes() {
    let kp = test_keypair(0);
    let message = b"hello world";
    let sig = kp.sign(message);

    assert!(verify_signature(&kp.verifying_key, message, &sig).is_ok());
}

#[test]
fn test_invalid_signature_rejected() {
    let kp = test_keypair(0);
    let message = b"hello world";
    let mut sig = kp.sign(message);

    // Tamper with one byte
    sig[0] ^= 0xFF;

    assert!(verify_signature(&kp.verifying_key, message, &sig).is_err());
}

#[test]
fn test_wrong_key_rejected() {
    let kp0 = test_keypair(0);
    let kp1 = test_keypair(1);
    let message = b"hello world";
    let sig = kp0.sign(message);

    // Verify with wrong key
    assert!(verify_signature(&kp1.verifying_key, message, &sig).is_err());
}

#[test]
fn test_sign_consensus_message() {
    let kp = test_keypair(0);
    let msg = ConsensusMessage::Propose {
        block: Block {
            view: 1,
            sequence: 0,
            proposer: 0,
            operations: vec![Operation::Put {
                key: b"k".to_vec(),
                value: b"v".to_vec(),
            }],
            parent_hash: vec![0u8; 8],
        },
    };

    let signed = kp.sign_consensus(&msg);
    let ks = build_key_store(&[&kp]);
    let recovered = verify_signed_message(&ks, &signed).unwrap();

    assert_eq!(msg, recovered);
}

#[test]
fn test_unknown_sender_rejected() {
    let kp0 = test_keypair(0);
    let kp1 = test_keypair(1);

    let msg = ConsensusMessage::Vote {
        view: 1,
        sequence: 0,
        block_hash: vec![0xAB],
        voter: 1,
    };
    let signed = kp1.sign_consensus(&msg);

    // Key store only has kp0
    let ks = build_key_store(&[&kp0]);
    let result = verify_signed_message(&ks, &signed);

    assert!(matches!(result, Err(CryptoError::UnknownSender { .. })));
}

#[test]
fn test_key_store_from_public_keys() {
    let kp0 = test_keypair(0);
    let kp1 = test_keypair(1);

    let infos = vec![
        PublicKeyInfo {
            node_id: 0,
            key_bytes: kp0.public_key_bytes(),
        },
        PublicKeyInfo {
            node_id: 1,
            key_bytes: kp1.public_key_bytes(),
        },
    ];

    let ks = KeyStore::from_public_keys(&infos).unwrap();
    assert_eq!(ks.len(), 2);
    assert!(ks.get(0).is_some());
    assert!(ks.get(1).is_some());
    assert!(ks.get(99).is_none());
}

#[test]
fn keys_and_signatures_are_those_of_the_scheme() {
    // A published test vector of the signature scheme.
    let seed: [u8; 32] = [
        0x9d, 0x61, 0xb1, 0x9d, 0xef, 0xfd, 0x5a, 0x60, 0xba, 0x84, 0x4a, 0xf4, 0x92, 0xec, 0x2c,
        0xc4, 0x44, 0x49, 0xc5, 0x69, 0x7b, 0x32, 0x69, 0x19, 0x70, 0x3b, 0xac, 0x03, 0x1c, 0xae,
        0x7f, 0x60,
    ];
    let public: [u8; 32] = [
        0xd7, 0x5a, 0x98, 0x01, 0x82, 0xb1, 0x0a, 0xb7, 0xd5, 0x4b, 0xfe, 0xd3, 0xc9, 0x64, 0x07,
        0x3a, 0x0e, 0xe1, 0x72, 0xf3, 0xda, 0xa6, 0x23, 0x25, 0xaf, 0x02, 0x1a, 0x68, 0xf7, 0x07,
        0x51, 0x1a,
    ];
    let kp = NodeKeyPair::from_seed(5, &seed);
    assert_eq!(kp.node_id, 5);
    assert_eq!(kp.public_key_bytes(), public);
    let sig = kp.sign(b"");
    assert_eq!(sig.len(), 64);
    assert_eq!(&sig[..4], &[0xe5, 0x56, 0x43, 0x00]);
    assert_eq!(kp.sign(b""), sig);
    assert_ne!(kp.sign(b"x"), sig);
}

#[test]
fn malformed_signatures_are_told_apart() {
    let kp = test_keypair(0);
    let error = verify_signature(&kp.verifying_key, b"m", &[1, 2, 3]).unwrap_err();
    assert_eq!(error, CryptoError::MalformedSignature { reason: "signature error".to_string() });
    assert_eq!(error.describe(), "malformed signature: signature error");

    let error = verify_signature(&kp.verifying_key, b"m", &[0u8; 64]).unwrap_err();
    assert_eq!(error, CryptoError::InvalidSignature);
    assert_eq!(error.describe(), "signature verification failed");
}

#[test]
fn invalid_public_keys_are_reported() {
    let good = test_keypair(1).public_key_bytes();
    let mut bad = [0u8; 32];
    bad[0] = 2; // not the y-coordinate of a curve point
    let reason = "signature error: Cannot decompress Edwards point".to_string();
    assert_eq!(VerifyingKey::from_bytes(&bad), Err(reason.clone()));
    assert_eq!(VerifyingKey::from_bytes(&good).unwrap().to_bytes(), good);

    let infos = [
        PublicKeyInfo { node_id: 1, key_bytes: good },
        PublicKeyInfo { node_id: 2, key_bytes: bad },
        PublicKeyInfo { node_id: 3, key_bytes: bad },
    ];
    let error = KeyStore::from_public_keys(&infos).err().unwrap();
    assert_eq!(error, CryptoError::InvalidPublicKey { node_id: 2, reason: reason.clone() });
    assert_eq!(error.describe(), format!("invalid public key for node 2: {reason}"));
}

#[test]
fn the_later_of_two_keys_counts() {
    let (a, b) = (test_keypair(1), test_keypair(2));
    let infos = [
        PublicKeyInfo { node_id: 1, key_bytes: a.public_key_bytes() },
        PublicKeyInfo { node_id: 1, key_bytes: b.public_key_bytes() },
    ];
    let ks = KeyStore::from_public_keys(&infos).unwrap();
    assert_eq!(ks.len(), 1);
    assert_eq!(ks.get(1).unwrap().to_bytes(), b.public_key_bytes());
}

#[test]
fn key_stores_start_empty() {
    let mut ks = KeyStore::default();
    assert!(ks.is_empty());
    let kp = test_keypair(3);
    ks.insert(3, kp.verifying_key);
    assert!(!ks.is_empty());
    let copy = ks.clone();
    assert_eq!(copy.len(), 1);
    assert_eq!(copy.get(3), Some(&kp.verifying_key));
}

#[test]
fn a_signature_is_bound_to_chain_and_view() {
    let kp = test_keypair(1);
    let ks = build_key_store(&[&kp]);
    let signed = kp.sign_consensus_with_context(&vote(), "chain-a", 7);
    assert_eq!(
        verify_signed_message_with_context(&ks, &signed, "chain-a", 7),
        Ok(vote())
    );
    for (chain, view) in [("chain-a", 8), ("chain-b", 7), ("chain-ab", 7), ("", 7)] {
        assert_eq!(
            verify_signed_message_with_context(&ks, &signed, chain, view),
            Err(CryptoError::InvalidSignature)
        );
    }
    assert_eq!(verify_signed_message(&ks, &signed), Err(CryptoError::InvalidSignature));
}

#[test]
fn the_signature_covers_chain_view_and_payload() {
    let kp = test_keypair(1);
    let signed = kp.sign_consensus_with_context(&vote(), "ab", 0x0102);
    let mut input = vec![2, 0, 0, 0, 0, 0, 0, 0, b'a', b'b'];
    input.extend(0x0102u64.to_le_bytes());
    input.extend(vote().to_bytes());
    assert_eq!(signed.payload, vote().to_bytes());
    assert_eq!(signed.signature, kp.sign(&input));
    assert_eq!(signed.sender, 1);
}

#[test]
fn what_is_signed_cannot_be_read_in_two_ways() {
    // Chain, view and payload in a row are the same bytes in both readings.
    let kp = test_keypair(1);
    let ks = build_key_store(&[&kp]);
    let msg = ConsensusMessage::Propose {
        block: Block {
            view: 0,
            sequence: 0,
            proposer: 0,
            operations: vec![],
            parent_hash: vec![],
        },
    };
    let signed = kp.sign_consensus_with_context(&msg, "c", 0);
    let mut moved = signed.clone();
    assert_eq!(moved.payload.remove(0), 0);
    assert_eq!(
        verify_signed_message_with_context(&ks, &moved, "c\0", 0),
        Err(CryptoError::InvalidSignature)
    );
    assert_eq!(verify_signed_message_with_context(&ks, &signed, "c", 0), Ok(msg));
}

#[test]
fn key_pairs_say_whose_they_are() {
    let kp = test_keypair(5);
    assert_eq!(kp.node_id(), 5);
    assert_eq!(kp.verifying_key(), kp.verifying_key);
    assert_eq!(kp.verifying_key().to_bytes(), kp.public_key_bytes());
}

#[test]
fn signatures_of_messages_are_verified_alone() {
    let kp = test_keypair(1);
    let ks = build_key_store(&[&kp]);
    let signed = kp.sign_consensus_with_context(&vote(), "c", 3);
    let check = |node: u64, chain: &str, view: u64, signature: &[u8]| {
        verify_message_signature(&ks, node, &vote(), chain, view, signature)
    };
    assert!(check(1, "c", 3, &signed.signature));
    assert!(!check(2, "c", 3, &signed.signature));
    assert!(!check(1, "d", 3, &signed.signature));
    assert!(!check(1, "c", 4, &signed.signature));
    assert!(!check(1, "c", 3, &signed.signature[..63]));
}

#[test]
fn an_authentic_payload_has_to_decode() {
    let kp = test_keypair(1);
    let ks = build_key_store(&[&kp]);
    let payload = vec![9, 0, 0, 0];
    let signed = SignedMessage { sender: 1, signature: kp.sign(&payload), payload };
    let error = verify_signed_message(&ks, &signed).unwrap_err();
    let reason = "invalid value: integer `9`, expected variant index 0 <= i < 5";
    assert_eq!(error, CryptoError::DeserializationFailed { reason: reason.to_string() });
    assert_eq!(error.describe(), format!("payload deserialization failed: {reason}"));
}

#[test]
fn outcomes_of_a_verification() {
    assert_eq!(accepted_or_not(true), Ok(()));
    assert_eq!(accepted_or_not(false), Err(CryptoError::InvalidSignature));
    assert_eq!(open_payload(&vote().to_bytes()), Ok(vote()));
    assert!(matches!(open_payload(&[]), Err(CryptoError::DeserializationFailed { .. })));
}

#[test]
fn crypto_errors_are_described() {
    assert_eq!(
        CryptoError::UnknownSender { node_id: 12 }.describe(),
        "unknown sender: node 12"
    );
    assert_eq!(
        CryptoError::TaskJoinError { reason: "gone".to_string() }.describe(),
        "blocking task failed: gone"
    );
}

#[test]
fn generated_keys_differ_and_work() {
    let a = NodeKeyPair::generate(1);
    let b = NodeKeyPair::generate(1);
    assert_ne!(a.public_key_bytes(), b.public_key_bytes());
    assert!(verify_signature(&a.verifying_key, b"m", &a.sign(b"m")).is_ok());
    assert!(verify_signature(&b.verifying_key, b"m", &a.sign(b"m")).is_err());
}
