use std::collections::BTreeMap;

use bft_engine::crypto::{CryptoError, KeyStore, NodeKeyPair};
use bft_engine::engine::{open_envelope, Action, ConsensusEngine};
use bft_engine::pacemaker::PaceMakerState;
use bft_engine::types::{
    Block, ClientRequest, ClientResponse, ConsensusMessage, MessageType, NodeConfig, NodeId,
    Operation, SignedMessage, WireMessage, PROTOCOL_VERSION,
};

/// Helper: create a deterministic keypair for testing.
fn test_keypair(node_id: NodeId) -> NodeKeyPair {
    let mut seed = [0u8; 32];
    seed[0] = node_id as u8;
    NodeKeyPair::from_seed(node_id, &seed)
}

fn test_config(id: NodeId, n: u64, max_faults: usize) -> NodeConfig {
    NodeConfig {
        id,
        cluster_size: n as usize,
        max_faults,
        peers: (0..n).map(|i| (i, format!("127.0.0.1:{}", 9000 + i))).collect(),
        data_dir: format!("node{id}"),
        consensus_timeout_ms: 5000,
        chain_id: "test-chain".into(),
    }
}

fn test_keys(n: u64) -> KeyStore {
    let mut key_store = KeyStore::new();
    for i in 0..n {
        key_store.insert(i, test_keypair(i).verifying_key);
    }
    key_store
}

fn test_engine(id: NodeId, n: u64, max_faults: usize) -> ConsensusEngine {
    ConsensusEngine::new(test_config(id, n, max_faults), test_keypair(id), test_keys(n), 0)
}

fn put(request_id: u64, key: &[u8], value: &[u8]) -> ClientRequest {
    ClientRequest {
        request_id,
        operation: Operation::Put { key: key.to_vec(), value: value.to_vec() },
    }
}

fn payload(wire: &WireMessage) -> ConsensusMessage {
    let signed = SignedMessage::from_bytes(&wire.payload).unwrap();
    ConsensusMessage::from_bytes(&signed.payload).unwrap()
}

fn signed_wire(signer: NodeId, msg: &ConsensusMessage, view: u64) -> WireMessage {
    let signed = test_keypair(signer).sign_consensus_with_context(msg, "test-chain", view);
    ConsensusEngine::wrap_consensus(signed)
}

/// The votes of nodes for the block of a hash.
fn votes(
    voters: &[NodeId],
    view: u64,
    sequence: u64,
    block_hash: &[u8],
) -> Vec<(NodeId, Vec<u8>)> {
    let cast = |voter: NodeId| {
        let vote =
            ConsensusMessage::Vote { view, sequence, block_hash: block_hash.to_vec(), voter };
        let signed = test_keypair(voter).sign_consensus_with_context(&vote, "test-chain", view);
        (voter, signed.signature)
    };
    voters.iter().map(|voter| cast(*voter)).collect()
}

/// The news that a block is committed, with the votes of three nodes.
fn commit(view: u64, sequence: u64, block_hash: &[u8]) -> ConsensusMessage {
    ConsensusMessage::Commit {
        view,
        sequence,
        block_hash: block_hash.to_vec(),
        vote_signatures: votes(&[0, 1, 2], view, sequence, block_hash),
    }
}

fn block(view: u64, sequence: u64, key: &[u8]) -> Block {
    Block {
        view,
        sequence,
        proposer: view,
        operations: vec![put(0, key, b"v").operation],
        parent_hash: vec![],
    }
}

fn proposed(actions: &[Action]) -> Vec<Block> {
    let mut blocks = Vec::new();
    for action in actions {
        if let Action::Broadcast(wire) = action {
            if let ConsensusMessage::Propose { block } = payload(wire) {
                blocks.push(block);
            }
        }
    }
    blocks
}

/// A cluster whose messages all arrive, in order.
struct Cluster {
    nodes: BTreeMap<NodeId, ConsensusEngine>,
    stores: BTreeMap<NodeId, BTreeMap<Vec<u8>, Vec<u8>>>,
    replies: Vec<(NodeId, ClientResponse)>,
}

impl Cluster {
    fn new(ids: &[NodeId], n: u64, max_faults: usize) -> Self {
        Cluster {
            nodes: ids.iter().map(|i| (*i, test_engine(*i, n, max_faults))).collect(),
            stores: ids.iter().map(|i| (*i, BTreeMap::new())).collect(),
            replies: Vec::new(),
        }
    }

    fn perform(&mut self, from: NodeId, actions: Vec<Action>, now: u64) {
        let mut queue: Vec<(NodeId, Action)> = actions.into_iter().map(|a| (from, a)).collect();
        while !queue.is_empty() {
            let (node, action) = queue.remove(0);
            let mut deliveries: Vec<(NodeId, WireMessage)> = Vec::new();
            match action {
                Action::Broadcast(message) => {
                    for id in self.nodes.keys() {
                        if *id != node {
                            deliveries.push((*id, message.clone()));
                        }
                    }
                }
                Action::Send { target, message } => deliveries.push((target, message)),
                Action::Store { key, value } => {
                    self.stores.get_mut(&node).unwrap().insert(key, value);
                }
                Action::Reply(response) => self.replies.push((node, response)),
                Action::ReplyRead { request_id, key } => {
                    let value = self.stores[&node].get(&key).cloned();
                    self.replies.push((
                        node,
                        ClientResponse { request_id, success: true, value, error: None },
                    ));
                }
            }
            for (target, message) in deliveries {
                if let Some(engine) = self.nodes.get_mut(&target) {
                    let more = engine.handle_wire_message(&message, now);
                    engine.record_activity(now);
                    queue.extend(more.into_iter().map(|a| (target, a)));
                }
            }
        }
    }

    fn request(&mut self, node: NodeId, request: ClientRequest, now: u64) {
        let actions = self.nodes.get_mut(&node).unwrap().handle_client_request(request, now);
        self.perform(node, actions, now);
    }

    fn timeout(&mut self, node: NodeId, now: u64) {
        let actions = self.nodes.get_mut(&node).unwrap().handle_timeout(now);
        self.perform(node, actions, now);
    }
}

#[test]
fn test_consensus_happy_path() {
    // Set up 4 nodes (f=1, quorum=3)
    let n = 4u64;
    let max_faults = 1usize;

    // Create engine for node 0 (leader at view 0)
    let engine = test_engine(0, n, max_faults);

    assert!(engine.is_leader(), "node 0 should be leader at view 0");

    // Verify state
    assert_eq!(engine.current_view(), 0);
    assert_eq!(engine.next_sequence(), 0);

    // Verify PaceMaker is in initial state
    assert_eq!(
        engine.pacemaker().state(),
        PaceMakerState::WaitingForProposal
    );
}

#[test]
fn test_wrap_consensus_message() {
    let kp = test_keypair(0);
    let msg = ConsensusMessage::Propose {
        block: Block {
            view: 0,
            sequence: 0,
            proposer: 0,
            operations: vec![],
            parent_hash: vec![],
        },
    };
    let signed = kp.sign_consensus(&msg);
    let payload = signed.to_bytes();
    let wire = WireMessage {
        version: PROTOCOL_VERSION,
        msg_type: MessageType::Consensus,
        payload,
    };
    assert_eq!(ConsensusEngine::wrap_consensus(signed), wire);
    let bytes = wire.to_bytes();
    let decoded = WireMessage::from_bytes(&bytes).unwrap();
    assert_eq!(decoded.version, PROTOCOL_VERSION);
}

#[test]
fn a_request_is_committed_by_all_and_answered() {
    let mut cluster = Cluster::new(&[0, 1, 2, 3], 4, 1);
    cluster.request(0, put(7, b"k", b"v"), 10);
    for id in 0..4 {
        assert_eq!(cluster.stores[&id].get(&b"k"[..]), Some(&b"v".to_vec()));
        let node = &cluster.nodes[&id];
        assert_eq!(node.next_sequence(), 1);
        assert_eq!(node.last_committed_seq(), 0);
        assert_eq!(node.pacemaker().state(), PaceMakerState::Committed);
    }
    assert_eq!(
        cluster.replies,
        vec![(0, ClientResponse { request_id: 7, success: true, value: None, error: None })]
    );
    cluster.request(
        0,
        ClientRequest { request_id: 8, operation: Operation::Get { key: b"k".to_vec() } },
        20,
    );
    assert_eq!(
        cluster.replies[1],
        (
            0,
            ClientResponse { request_id: 8, success: true, value: Some(b"v".to_vec()), error: None }
        )
    );
    assert_eq!(cluster.nodes[&3].next_sequence(), 2);
}

#[test]
fn a_replica_names_the_leader() {
    let mut engine = test_engine(2, 4, 1);
    let actions = engine.handle_client_request(put(9, b"k", b"v"), 0);
    assert_eq!(
        actions,
        vec![Action::Reply(ClientResponse {
            request_id: 9,
            success: false,
            value: None,
            error: Some("not leader; current leader is node 0".to_string()),
        })]
    );
}

#[test]
fn the_leader_proposes_and_waits_for_votes() {
    let mut engine = test_engine(0, 4, 1);
    let actions = engine.handle_client_request(put(1, b"k", b"v"), 5);
    assert_eq!(actions.len(), 1);
    let Action::Broadcast(wire) = &actions[0] else {
        panic!("a proposal is broadcast");
    };
    let block = Block {
        view: 0,
        sequence: 0,
        proposer: 0,
        operations: vec![put(1, b"k", b"v").operation],
        parent_hash: vec![0; 8],
    };
    assert_eq!(payload(wire), ConsensusMessage::Propose { block });
    assert_eq!(engine.pacemaker().state(), PaceMakerState::WaitingForVotes);
    assert_eq!(engine.next_sequence(), 0);
}

#[test]
fn a_quorum_of_votes_commits_once() {
    let mut engine = test_engine(0, 4, 1);
    let actions = engine.handle_client_request(put(1, b"k", b"v"), 0);
    let Action::Broadcast(wire) = &actions[0] else {
        panic!("a proposal is broadcast");
    };
    let ConsensusMessage::Propose { block } = payload(wire) else {
        panic!("it is a proposal");
    };
    let vote = |voter: NodeId| ConsensusMessage::Vote {
        view: 0,
        sequence: 0,
        block_hash: block.hash(),
        voter,
    };
    assert!(engine.handle_wire_message(&signed_wire(1, &vote(1), 0), 0).is_empty());
    // The same vote again is not counted.
    assert!(engine.handle_wire_message(&signed_wire(1, &vote(1), 0), 0).is_empty());
    let actions = engine.handle_wire_message(&signed_wire(2, &vote(2), 0), 0);
    assert_eq!(actions.len(), 3);
    let Action::Broadcast(wire) = &actions[0] else {
        panic!("the certificate is broadcast");
    };
    let ConsensusMessage::Commit { view, sequence, block_hash, vote_signatures } = payload(wire)
    else {
        panic!("it is a certificate");
    };
    assert_eq!((view, sequence, block_hash), (0, 0, block.hash()));
    let voters: Vec<NodeId> = vote_signatures.iter().map(|s| s.0).collect();
    assert_eq!(voters, vec![0, 1, 2]);
    assert_eq!(actions[1], Action::Store { key: b"k".to_vec(), value: b"v".to_vec() });
    assert!(matches!(&actions[2], Action::Reply(r) if r.request_id == 1 && r.success));
    // A vote beyond the quorum commits nothing again.
    assert!(engine.handle_wire_message(&signed_wire(3, &vote(3), 0), 0).is_empty());
    assert_eq!(engine.next_sequence(), 1);
}

#[test]
fn votes_for_another_view_or_to_a_replica_are_ignored() {
    let mut leader = test_engine(0, 4, 0);
    let vote = |view: u64| ConsensusMessage::Vote {
        view,
        sequence: 0,
        block_hash: block(view, 0, b"k").hash(),
        voter: 2,
    };
    assert!(leader.handle_judged(signed(2, &vote(1)), Ok(vote(1)), 0).is_empty());
    assert!(leader.handle_judged(signed(2, &vote(0)), Ok(vote(0)), 0).is_empty());
    let mut replica = test_engine(1, 4, 0);
    let propose = ConsensusMessage::Propose { block: block(0, 0, b"k") };
    assert_eq!(replica.handle_wire_message(&signed_wire(0, &propose, 0), 0).len(), 1);
    assert!(replica.handle_judged(signed(2, &vote(0)), Ok(vote(0)), 0).is_empty());
}

#[test]
fn a_vote_counts_for_its_signer_only() {
    let mut engine = test_engine(0, 4, 1);
    let blocks = proposed(&engine.handle_client_request(put(1, b"k", b"v"), 0));
    let vote = |voter: NodeId| ConsensusMessage::Vote {
        view: 0,
        sequence: 0,
        block_hash: blocks[0].hash(),
        voter,
    };
    // One node signs the votes of three.
    for voter in [1, 2, 3] {
        assert!(engine.handle_wire_message(&signed_wire(1, &vote(voter), 0), 0).is_empty());
    }
    assert_eq!(engine.next_sequence(), 0);
    assert_eq!(engine.handle_wire_message(&signed_wire(2, &vote(2), 0), 0).len(), 3);
}

#[test]
fn votes_for_another_block_are_not_added() {
    let mut engine = test_engine(0, 4, 1);
    let blocks = proposed(&engine.handle_client_request(put(1, b"k", b"v"), 0));
    let vote = |voter: NodeId, block_hash: Vec<u8>| {
        let vote = ConsensusMessage::Vote { view: 0, sequence: 0, block_hash, voter };
        signed_wire(voter, &vote, 0)
    };
    let other = block(0, 0, b"other").hash();
    assert!(engine.handle_wire_message(&vote(1, blocks[0].hash()), 0).is_empty());
    assert!(engine.handle_wire_message(&vote(2, other.clone()), 0).is_empty());
    assert!(engine.handle_wire_message(&vote(3, other), 0).is_empty());
    assert_eq!(engine.next_sequence(), 0);
    // The vote of a node that first voted for something else still counts.
    assert_eq!(engine.handle_wire_message(&vote(2, blocks[0].hash()), 0).len(), 3);
}

#[test]
fn a_vote_with_something_behind_it_is_not_counted() {
    let mut engine = test_engine(0, 4, 1);
    let blocks = proposed(&engine.handle_client_request(put(1, b"k", b"v"), 0));
    let vote = ConsensusMessage::Vote {
        view: 0,
        sequence: 0,
        block_hash: blocks[0].hash(),
        voter: 1,
    };
    let mut longer = signed(1, &vote);
    longer.payload.push(0);
    assert!(engine.handle_judged(longer, Ok(vote.clone()), 0).is_empty());
    let third = ConsensusMessage::Vote {
        view: 0,
        sequence: 0,
        block_hash: blocks[0].hash(),
        voter: 2,
    };
    assert!(engine.handle_wire_message(&signed_wire(2, &third, 0), 0).is_empty());
    assert_eq!(engine.handle_wire_message(&signed_wire(1, &vote, 0), 0).len(), 3);
}

#[test]
fn requests_wait_until_the_slot_is_settled() {
    let mut engine = test_engine(0, 4, 1);
    let first = proposed(&engine.handle_client_request(put(1, b"a", b"1"), 0));
    assert_eq!(first.len(), 1);
    assert!(engine.handle_client_request(put(2, b"b", b"2"), 0).is_empty());
    assert!(engine.handle_client_request(put(3, b"c", b"3"), 0).is_empty());
    let vote = |voter: NodeId| ConsensusMessage::Vote {
        view: 0,
        sequence: 0,
        block_hash: first[0].hash(),
        voter,
    };
    assert!(engine.handle_wire_message(&signed_wire(1, &vote(1), 0), 0).is_empty());
    let actions = engine.handle_wire_message(&signed_wire(2, &vote(2), 0), 0);
    assert_eq!(actions.len(), 4);
    assert_eq!(actions[1], Action::Store { key: b"a".to_vec(), value: b"1".to_vec() });
    assert!(matches!(&actions[2], Action::Reply(r) if r.request_id == 1));
    let second = proposed(&actions);
    assert_eq!(
        second,
        vec![Block {
            view: 0,
            sequence: 1,
            proposer: 0,
            operations: vec![put(2, b"b", b"2").operation, put(3, b"c", b"3").operation],
            parent_hash: first[0].hash(),
        }]
    );
}

#[test]
fn a_replica_votes_once_in_a_slot() {
    let mut engine = test_engine(1, 4, 1);
    let first = ConsensusMessage::Propose { block: block(0, 0, b"a") };
    let second = ConsensusMessage::Propose { block: block(0, 0, b"b") };
    assert_eq!(engine.handle_wire_message(&signed_wire(0, &first, 0), 0).len(), 1);
    assert!(engine.handle_wire_message(&signed_wire(0, &second, 0), 0).is_empty());
    // The same proposal again gets the same vote again.
    let again = engine.handle_wire_message(&signed_wire(0, &first, 0), 0);
    let [Action::Send { target: 0, message }] = &again[..] else {
        panic!("the vote is sent again");
    };
    assert_eq!(
        payload(message),
        ConsensusMessage::Vote {
            view: 0,
            sequence: 0,
            block_hash: block(0, 0, b"a").hash(),
            voter: 1,
        }
    );
    // Another sequence is another slot.
    let next = ConsensusMessage::Propose { block: block(0, 1, b"b") };
    assert_eq!(engine.handle_wire_message(&signed_wire(0, &next, 0), 0).len(), 1);
}

/// Node 3 in view 1, after it voted in view 0.
fn voter_in_view_one(key: &[u8]) -> ConsensusEngine {
    let mut engine = test_engine(3, 4, 1);
    let first = ConsensusMessage::Propose { block: block(0, 0, key) };
    assert_eq!(engine.handle_wire_message(&signed_wire(0, &first, 0), 0).len(), 1);
    let news = ConsensusMessage::NewView { view: 1, leader: 1, view_change_proofs: vec![] };
    engine.handle_wire_message(&signed_wire(1, &news, 1), 0);
    assert_eq!(engine.current_view(), 1);
    engine
}

#[test]
fn a_lost_vote_is_made_good_by_a_duplicate_proposal() {
    let mut leader = test_engine(0, 4, 1);
    let actions = leader.handle_client_request(put(1, b"k", b"v"), 0);
    let Action::Broadcast(proposal) = &actions[0] else {
        panic!("a proposal is broadcast");
    };
    let mut committed = Vec::new();
    for id in [1, 2] {
        let mut replica = test_engine(id, 4, 1);
        // The first vote is lost.
        assert_eq!(replica.handle_wire_message(proposal, 0).len(), 1);
        let again = replica.handle_wire_message(proposal, 0);
        let [Action::Send { target: 0, message }] = &again[..] else {
            panic!("the vote is sent again");
        };
        committed = leader.handle_wire_message(message, 0);
    }
    assert_eq!(committed.len(), 3);
    assert_eq!(leader.next_sequence(), 1);
}

#[test]
fn a_vote_is_not_given_up_in_a_later_view() {
    let mut engine = voter_in_view_one(b"a");
    let same = ConsensusMessage::Propose { block: block(1, 0, b"a") };
    assert_eq!(engine.handle_wire_message(&signed_wire(1, &same, 1), 0).len(), 1);

    let mut engine = voter_in_view_one(b"a");
    let other = ConsensusMessage::Propose { block: block(1, 0, b"b") };
    assert!(engine.handle_wire_message(&signed_wire(1, &other, 1), 0).is_empty());
    // What the others commit without this node's vote is applied here, too.
    let news = commit(1, 0, &block(1, 0, b"b").hash());
    assert_eq!(
        engine.handle_wire_message(&signed_wire(1, &news, 1), 0),
        vec![Action::Store { key: b"b".to_vec(), value: b"v".to_vec() }]
    );
}

#[test]
fn a_new_leader_proposes_what_was_voted_for() {
    // The leader's proposal reaches everyone, and then the leader is gone.
    let mut leader = test_engine(0, 4, 1);
    let actions = leader.handle_client_request(put(1, b"a", b"1"), 0);
    let Action::Broadcast(proposal) = &actions[0] else {
        panic!("a proposal is broadcast");
    };
    let mut cluster = Cluster::new(&[1, 2, 3], 4, 1);
    for node in cluster.nodes.values_mut() {
        assert_eq!(node.handle_wire_message(proposal, 0).len(), 1);
    }
    for id in 1..4 {
        cluster.timeout(id, 5000);
    }
    cluster.request(1, put(2, b"b", b"2"), 6000);
    for id in 1..4 {
        assert_eq!(cluster.stores[&id].get(&b"a"[..]), Some(&b"1".to_vec()));
        assert_eq!(cluster.stores[&id].get(&b"b"[..]), Some(&b"2".to_vec()));
        assert_eq!(cluster.nodes[&id].next_sequence(), 2);
    }
    assert_eq!(cluster.replies.len(), 1);
    assert_eq!(cluster.replies[0].1.request_id, 2);
}

#[test]
fn a_former_leader_answers_what_is_committed_later() {
    // The votes for the proposal of node 0 are lost.
    let mut cluster = Cluster::new(&[0, 1, 2, 3], 4, 1);
    let leader = cluster.nodes.get_mut(&0).unwrap();
    let actions = leader.handle_client_request(put(1, b"a", b"1"), 0);
    let Action::Broadcast(proposal) = &actions[0] else {
        panic!("a proposal is broadcast");
    };
    for id in 1..4 {
        let votes = cluster.nodes.get_mut(&id).unwrap().handle_wire_message(proposal, 0);
        assert_eq!(votes.len(), 1);
    }
    for id in 0..4 {
        cluster.timeout(id, 5000);
    }
    assert!(cluster.replies.is_empty());
    cluster.request(1, put(2, b"b", b"2"), 6000);
    let mut answered: Vec<(NodeId, u64)> =
        cluster.replies.iter().map(|(node, reply)| (*node, reply.request_id)).collect();
    answered.sort();
    assert_eq!(answered, vec![(0, 1), (1, 2)]);
    for id in 0..4 {
        assert_eq!(cluster.stores[&id].len(), 2);
    }
}

#[test]
fn a_sequence_is_applied_once() {
    let mut engine = test_engine(3, 4, 1);
    for view in [0, 1] {
        if view == 1 {
            let news = ConsensusMessage::NewView { view, leader: 1, view_change_proofs: vec![] };
            engine.handle_wire_message(&signed_wire(1, &news, view), 0);
        }
        let proposal = ConsensusMessage::Propose { block: block(view, 0, b"a") };
        assert_eq!(engine.handle_wire_message(&signed_wire(view, &proposal, view), 0).len(), 1);
        let news = commit(view, 0, &block(view, 0, b"a").hash());
        let actions = engine.handle_wire_message(&signed_wire(view, &news, view), 0);
        assert_eq!(actions.len(), if view == 0 { 1 } else { 0 });
    }
}

fn signed(sender: NodeId, msg: &ConsensusMessage) -> SignedMessage {
    SignedMessage { sender, payload: msg.to_bytes(), signature: vec![0; 64] }
}

#[test]
fn proposals_of_others_and_stale_ones_are_ignored() {
    let mut engine = test_engine(1, 4, 1);
    let msg = ConsensusMessage::Propose { block: block(0, 0, b"k") };
    // One for a later view, by whoever leads the current or that view.
    let later = ConsensusMessage::Propose { block: block(2, 0, b"k") };
    assert!(engine.handle_wire_message(&signed_wire(0, &later, 0), 0).is_empty());
    assert!(engine.handle_wire_message(&signed_wire(2, &later, 0), 0).is_empty());
    assert!(engine.handle_wire_message(&signed_wire(2, &msg, 0), 0).is_empty());
    assert_eq!(engine.pacemaker().state(), PaceMakerState::WaitingForProposal);

    let actions = engine.handle_wire_message(&signed_wire(0, &msg, 0), 0);
    let [Action::Send { target, message }] = &actions[..] else {
        panic!("a vote is sent");
    };
    assert_eq!(*target, 0);
    assert_eq!(
        payload(message),
        ConsensusMessage::Vote {
            view: 0,
            sequence: 0,
            block_hash: block(0, 0, b"k").hash(),
            voter: 1,
        }
    );

    let news = ConsensusMessage::NewView { view: 2, leader: 2, view_change_proofs: vec![] };
    // Only the leader of a view announces it.
    engine.handle_wire_message(&signed_wire(3, &news, 2), 0);
    assert_eq!(engine.current_view(), 0);
    engine.handle_wire_message(&signed_wire(2, &news, 2), 0);
    assert_eq!(engine.current_view(), 2);
    assert!(engine.handle_wire_message(&signed_wire(0, &msg, 2), 0).is_empty());
}

#[test]
fn messages_that_do_not_verify_are_ignored() {
    let commit = commit(0, 5, &[1]);
    let mut engine = test_engine(1, 4, 1);
    // Another view, another chain, an unknown node, a broken signature, garbage.
    engine.handle_wire_message(&signed_wire(0, &commit, 1), 0);
    let other = test_keypair(0).sign_consensus_with_context(&commit, "other-chain", 0);
    engine.handle_wire_message(&ConsensusEngine::wrap_consensus(other), 0);
    engine.handle_wire_message(&signed_wire(9, &commit, 0), 0);
    let mut broken = test_keypair(0).sign_consensus_with_context(&commit, "test-chain", 0);
    broken.signature[3] ^= 1;
    engine.handle_wire_message(&ConsensusEngine::wrap_consensus(broken), 0);
    engine.handle_consensus_wire(&[1, 2, 3], 0);
    assert!(open_envelope(&[1, 2, 3]).is_none());
    let error = CryptoError::InvalidSignature;
    assert!(engine.handle_judged(signed(0, &commit), Err(error), 0).is_empty());
    // Client messages have no business here.
    let mut client = signed_wire(0, &commit, 0);
    client.msg_type = MessageType::ClientRequest;
    engine.handle_wire_message(&client, 0);
    assert_eq!(engine.next_sequence(), 0);
    // The message itself is in order.
    engine.handle_wire_message(&signed_wire(0, &commit, 0), 0);
    assert_eq!(engine.next_sequence(), 6);
    assert_eq!(engine.last_committed_seq(), 5);
}

#[test]
fn a_commit_needs_the_leader_and_a_quorum() {
    let proposal = block(0, 0, b"k");
    let hash = proposal.hash();
    let mut engine = test_engine(3, 4, 1);
    let propose = ConsensusMessage::Propose { block: proposal };
    assert_eq!(engine.handle_wire_message(&signed_wire(0, &propose, 0), 0).len(), 1);
    let with = |vote_signatures: Vec<(NodeId, Vec<u8>)>| ConsensusMessage::Commit {
        view: 0,
        sequence: 0,
        block_hash: hash.clone(),
        vote_signatures,
    };
    let good = votes(&[0, 1, 2], 0, 0, &hash);
    let mut twice = good.clone();
    twice[2] = twice[1].clone();
    let mut broken = good.clone();
    broken[1].1[0] ^= 1;
    let mut stranger = good.clone();
    stranger[0].0 = 9;
    for signatures in [
        vec![],
        votes(&[0, 1], 0, 0, &hash),
        twice,
        broken,
        stranger,
        votes(&[0, 1, 2], 0, 0, &[7]),
        votes(&[0, 1, 2], 1, 0, &hash),
    ] {
        let wire = signed_wire(0, &with(signatures), 0);
        assert!(engine.handle_wire_message(&wire, 0).is_empty());
    }
    assert!(engine.handle_wire_message(&signed_wire(1, &with(good.clone()), 0), 0).is_empty());
    // A certificate for another block than the pending one.
    assert!(engine.handle_wire_message(&signed_wire(0, &commit(0, 0, &[7]), 0), 0).is_empty());
    assert_eq!(engine.pacemaker().state(), PaceMakerState::WaitingForVotes);
    assert_eq!(engine.handle_wire_message(&signed_wire(0, &with(good), 0), 0).len(), 1);
    assert_eq!(engine.next_sequence(), 1);
}

#[test]
fn the_log_does_not_go_back() {
    let mut engine = test_engine(1, 4, 1);
    engine.handle_wire_message(&signed_wire(0, &commit(0, 5, &[5]), 0), 0);
    assert_eq!((engine.last_committed_seq(), engine.next_sequence()), (5, 6));
    engine.handle_wire_message(&signed_wire(0, &commit(0, 3, &[3]), 0), 0);
    assert_eq!((engine.last_committed_seq(), engine.next_sequence()), (5, 6));
    let actions = engine.handle_timeout(5000);
    let Action::Broadcast(wire) = &actions[0] else {
        panic!("the request is broadcast");
    };
    assert_eq!(
        payload(wire),
        ConsensusMessage::ViewChange { new_view: 1, sender: 1, last_committed_seq: 5 }
    );
}

#[test]
fn a_request_for_a_view_counts_for_its_signer_only() {
    let mut engine = test_engine(3, 4, 1);
    for sender in [0, 1, 2] {
        let msg = ConsensusMessage::ViewChange { new_view: 1, sender, last_committed_seq: 0 };
        assert!(engine.handle_wire_message(&signed_wire(2, &msg, 1), 0).is_empty());
    }
    assert_eq!(engine.current_view(), 0);
}

#[test]
fn a_commit_is_settled_once() {
    let block = Block {
        view: 0,
        sequence: 3,
        proposer: 0,
        operations: vec![
            Operation::Txn {
                ops: vec![
                    put(0, b"a", b"1").operation,
                    Operation::Get { key: b"a".to_vec() },
                    put(0, b"b", b"2").operation,
                ],
            },
            put(0, b"a", b"3").operation,
        ],
        parent_hash: vec![],
    };
    let mut engine = test_engine(1, 4, 1);
    let propose = ConsensusMessage::Propose { block: block.clone() };
    engine.handle_wire_message(&signed_wire(0, &propose, 0), 0);
    let commit = commit(0, 3, &block.hash());
    let store = |key: &[u8], value: &[u8]| Action::Store {
        key: key.to_vec(),
        value: value.to_vec(),
    };
    assert_eq!(
        engine.handle_wire_message(&signed_wire(0, &commit, 0), 0),
        vec![store(b"a", b"1"), store(b"b", b"2"), store(b"a", b"3")]
    );
    assert!(engine.handle_wire_message(&signed_wire(0, &commit, 0), 0).is_empty());
    assert_eq!(engine.next_sequence(), 4);
}

#[test]
fn a_lone_node_commits_its_own_proposal() {
    let mut engine = test_engine(0, 1, 0);
    let actions = engine.handle_client_request(put(1, b"k", b"v"), 0);
    assert_eq!(actions.len(), 4);
    assert!(matches!(&actions[0], Action::Broadcast(_)));
    assert!(matches!(&actions[1], Action::Broadcast(_)));
    assert!(matches!(&actions[2], Action::Store { .. }));
    assert!(matches!(&actions[3], Action::Reply(_)));
}

#[test]
fn a_timeout_asks_for_the_next_view() {
    let mut engine = test_engine(1, 4, 1);
    let actions = engine.handle_timeout(5000);
    let [Action::Broadcast(wire)] = &actions[..] else {
        panic!("the request is broadcast");
    };
    assert_eq!(
        payload(wire),
        ConsensusMessage::ViewChange { new_view: 1, sender: 1, last_committed_seq: 0 }
    );
    assert_eq!(engine.pacemaker().state(), PaceMakerState::ViewChanging);
    assert_eq!(engine.pacemaker().deadline(), 10000);
    assert_eq!(engine.current_view(), 0);
}

#[test]
fn leader_failure_changes_the_view() {
    // Node 0, the leader, is down.
    let mut cluster = Cluster::new(&[1, 2, 3], 4, 1);
    for id in 1..4 {
        cluster.timeout(id, 5000);
    }
    for id in 1..4 {
        let node = &cluster.nodes[&id];
        assert_eq!(node.current_view(), 1);
        assert_eq!(node.is_leader(), id == 1);
        assert_eq!(node.pacemaker().current_timeout(), 10000);
    }
    cluster.request(1, put(4, b"k", b"v"), 6000);
    for id in 1..4 {
        assert_eq!(cluster.stores[&id].get(&b"k"[..]), Some(&b"v".to_vec()));
    }
    assert!(cluster.replies[0].1.success);
}

#[test]
fn the_own_request_can_complete_the_quorum() {
    let mut engine = test_engine(3, 4, 1);
    for sender in [1, 2] {
        let msg = ConsensusMessage::ViewChange { new_view: 1, sender, last_committed_seq: 0 };
        assert!(engine.handle_wire_message(&signed_wire(sender, &msg, 1), 0).is_empty());
    }
    assert_eq!(engine.current_view(), 0);
    assert_eq!(engine.handle_timeout(5000).len(), 1);
    assert_eq!(engine.current_view(), 1);
}

#[test]
fn a_new_leader_announces_its_view() {
    let mut engine = test_engine(1, 4, 1);
    let mut last = Vec::new();
    let mut proofs = Vec::new();
    for sender in [0, 2, 3] {
        let msg = ConsensusMessage::ViewChange { new_view: 1, sender, last_committed_seq: 0 };
        let wire = signed_wire(sender, &msg, 1);
        last = engine.handle_wire_message(&wire, 0);
        proofs.push((sender, wire.payload));
    }
    let [Action::Broadcast(wire)] = &last[..] else {
        panic!("the view is announced");
    };
    assert_eq!(
        payload(wire),
        ConsensusMessage::NewView { view: 1, leader: 1, view_change_proofs: proofs }
    );
    assert!(engine.is_leader());
    // It does not go back.
    let old = ConsensusMessage::NewView { view: 1, leader: 1, view_change_proofs: vec![] };
    assert!(engine.handle_wire_message(&signed_wire(1, &old, 1), 0).is_empty());
}

#[test]
fn a_payload_is_not_decoded_before_its_signature_is_verified() {
    // A proposal with a transaction in a transaction, and so on, unsigned.
    let mut payload = 0u32.to_le_bytes().to_vec();
    payload.extend([0u8; 24]);
    payload.extend(1u64.to_le_bytes());
    for _ in 0..1_000_000 {
        payload.extend(2u32.to_le_bytes());
        payload.extend(1u64.to_le_bytes());
    }
    let mut engine = test_engine(1, 4, 1);
    let message = SignedMessage { sender: 0, payload, signature: vec![0; 64] };
    assert_eq!(engine.context_view(&message), 0);
    let wire = ConsensusEngine::wrap_consensus(message);
    assert!(engine.handle_wire_message(&wire, 0).is_empty());
}

#[test]
fn the_view_is_read_off_the_first_bytes() {
    let engine = test_engine(1, 4, 1);
    let view = |variant: u32, view: u64, length: usize| {
        let mut payload = variant.to_le_bytes().to_vec();
        payload.extend(view.to_le_bytes());
        payload.truncate(length);
        engine.context_view(&SignedMessage { sender: 0, payload, signature: vec![] })
    };
    assert_eq!(view(3, 7, 12), 7);
    assert_eq!(view(4, u64::MAX, 12), u64::MAX);
    assert_eq!(view(3, 7, 11), 0);
    for variant in [0, 1, 2, 5] {
        assert_eq!(view(variant, 7, 12), 0);
    }
    assert_eq!(view(3, 7, 0), 0);
}

#[test]
fn messages_that_start_a_view_are_signed_for_it() {
    let engine = test_engine(1, 4, 1);
    let change = ConsensusMessage::ViewChange { new_view: 7, sender: 0, last_committed_seq: 0 };
    let news = ConsensusMessage::NewView { view: 8, leader: 0, view_change_proofs: vec![] };
    let vote = ConsensusMessage::Vote { view: 9, sequence: 0, block_hash: vec![], voter: 0 };
    assert_eq!(engine.context_view(&signed(0, &change)), 7);
    assert_eq!(engine.context_view(&signed(0, &news)), 8);
    assert_eq!(engine.context_view(&signed(0, &vote)), 0);
    assert_eq!(engine.chain_id(), "test-chain");
    assert_eq!(engine.key_store().len(), 4);
}
