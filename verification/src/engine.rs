//! The consensus engine of a node: it turns events into actions as `protocol`
//! says. The caller delivers the events, tells the time in milliseconds, and
//! carries out the actions in their order.
use std::collections::HashSet;

use vstd::prelude::*;
use vstd::slice::slice_subrange;
use vstd::string::StringExecFns;

use crate::codec;
use crate::crypto::{CryptoError, KeyStore, NodeKeyPair, verify_message_signature, verify_signed_message_with_context};
use crate::encode::{same_block, same_operations};
use crate::octets::{copy_bytes, same_bytes};
use crate::pacemaker;
use crate::pacemaker::{PaceMaker, PaceMakerState};
use crate::pending;
use crate::pending::{Ballots, CommittedHashes, PendingBlock, PendingBlocks};
use crate::protocol;
use crate::protocol::{ActionView, EngineView};
use crate::text::decimal_text;
use crate::types;
use crate::types::{copy_ops, Block, ClientRequest, ClientResponse, ConsensusMessage, MessageType, NodeConfig, NodeId, Operation, OpView, PROTOCOL_VERSION, RequestId, RequestView, SequenceNumber, SignedMessage, ViewNumber, WireMessage};
use crate::votes;
use crate::votes::{VoteCollector, VotesView};

verus! {

broadcast use vstd::std_specs::hash::group_hash_axioms;

/// What the engine asks of the caller.
#[derive(Debug, PartialEq, Eq)]
pub enum Action {
    /// Send a message to every other node.
    Broadcast(WireMessage),
    /// Send a message to one node.
    Send { target: NodeId, message: WireMessage },
    /// Write a key-value pair to the store.
    Store { key: Vec<u8>, value: Vec<u8> },
    /// Answer a client.
    Reply(ClientResponse),
    /// Answer a client with the value that the store holds for a key.
    ReplyRead { request_id: RequestId, key: Vec<u8> },
}

impl View for Action {
    type V = ActionView;

    open spec fn view(&self) -> ActionView {
        match *self {
            Action::Broadcast(message) => ActionView::Broadcast(message@),
            Action::Send { target, message } => ActionView::Send { target, message: message@ },
            Action::Store { key, value } => ActionView::Store { key: key@, value: value@ },
            Action::Reply(response) => ActionView::Reply(response@),
            Action::ReplyRead { request_id, key } => ActionView::ReplyRead { request_id, key: key@ },
        }
    }
}

/// Actions by their views.
pub open spec fn actions_view(actions: Seq<Action>) -> Seq<ActionView> {
    actions.map_values(|action: Action| action@)
}

/// Requests by their views.
pub open spec fn requests_view(requests: Seq<ClientRequest>) -> Seq<RequestView> {
    requests.map_values(|request: ClientRequest| request@)
}

/// An action stands for itself: what is to be sent, stored or answered, in full.
pub proof fn law_action_stands_for_itself(action: Action)
    ensures
        match action {
            Action::Broadcast(message) => action@ == ActionView::Broadcast(message@),
            Action::Send { target, message } => action@ == (ActionView::Send {
                target,
                message: message@,
            }),
            Action::Store { key, value } => action@ == (ActionView::Store {
                key: key@,
                value: value@,
            }),
            Action::Reply(response) => action@ == ActionView::Reply(response@),
            Action::ReplyRead { request_id, key } => action@ == (ActionView::ReplyRead {
                request_id,
                key: key@,
            }),
        },
{
}

/// Actions and requests stand for themselves one by one, in their order.
pub proof fn law_lists_stand_for_their_items(
    actions: Seq<Action>,
    requests: Seq<ClientRequest>,
    i: int,
)
    ensures
        actions_view(actions).len() == actions.len(),
        requests_view(requests).len() == requests.len(),
        0 <= i < actions.len() ==> actions_view(actions)[i] == actions[i]@,
        0 <= i < requests.len() ==> requests_view(requests)[i] == requests[i]@,
{
}

proof fn lemma_push_action(actions: Seq<Action>, action: Action)
    ensures
        actions_view(actions.push(action)) == actions_view(actions).push(action@),
        actions_view(actions.push(action)) == actions_view(actions) + seq![action@],
{
    assert(actions_view(actions.push(action)) =~= actions_view(actions).push(action@));
    assert(actions_view(actions).push(action@) =~= actions_view(actions) + seq![action@]);
}

/// Adds the writes of an operation.
fn put_writes(actions: &mut Vec<Action>, op: &Operation)
    ensures
        actions_view(final(actions)@) == actions_view(old(actions)@) + protocol::writes(op@),
    decreases op,
{
    match op {
        Operation::Put { key, value } => {
            let action = Action::Store { key: copy_bytes(key), value: copy_bytes(value) };
            proof {
                lemma_push_action(actions@, action);
            }
            actions.push(action);
        },
        Operation::Get { key } => {
            assert(actions_view(actions@) + Seq::<ActionView>::empty() =~= actions_view(actions@));
        },
        Operation::Txn { ops } => {
            let ghost head = actions_view(actions@);
            let ghost views = op@->ops;
            let mut i: usize = 0;
            assert(views.subrange(0, views.len() as int) =~= views);
            while i < ops.len()
                invariant
                    i <= ops@.len() == views.len(),
                    *op == (Operation::Txn { ops: *ops }),
                    views == op@->ops,
                    actions_view(actions@) + protocol::all_writes(
                        views.subrange(i as int, views.len() as int),
                    ) == head + protocol::all_writes(views),
                decreases ops@.len() - i,
            {
                let ghost before = actions_view(actions@);
                let ghost left = views.subrange(i as int, views.len() as int);
                assert(decreases_to!(op => op->ops));
                assert(decreases_to!(op->ops => op->ops@));
                assert(decreases_to!(op->ops@ => op->ops@[i as int]));
                put_writes(actions, &ops[i]);
                i = i + 1;
                proof {
                    let next = views.subrange(i as int, views.len() as int);
                    assert(left.subrange(1, left.len() as int) =~= next);
                    assert(actions_view(actions@) + protocol::all_writes(next) =~= before
                        + protocol::all_writes(left));
                }
            }
            proof {
                let next = views.subrange(i as int, views.len() as int);
                assert(actions_view(actions@) + protocol::all_writes(next) =~= actions_view(
                    actions@,
                ));
            }
        },
    }
}

/// Adds the writes of operations, in order.
fn put_all_writes(actions: &mut Vec<Action>, ops: &Vec<Operation>)
    ensures
        actions_view(final(actions)@) == actions_view(old(actions)@) + protocol::all_writes(
            types::ops_view(ops@),
        ),
{
    let ghost head = actions_view(actions@);
    let ghost views = types::ops_view(ops@);
    let mut i: usize = 0;
    assert(views.subrange(0, views.len() as int) =~= views);
    while i < ops.len()
        invariant
            i <= ops@.len() == views.len(),
            views == types::ops_view(ops@),
            actions_view(actions@) + protocol::all_writes(
                views.subrange(i as int, views.len() as int),
            ) == head + protocol::all_writes(views),
        decreases ops@.len() - i,
    {
        let ghost before = actions_view(actions@);
        let ghost left = views.subrange(i as int, views.len() as int);
        put_writes(actions, &ops[i]);
        i = i + 1;
        proof {
            let next = views.subrange(i as int, views.len() as int);
            assert(left.subrange(1, left.len() as int) =~= next);
            assert(actions_view(actions@) + protocol::all_writes(next) =~= before
                + protocol::all_writes(left));
        }
    }
    proof {
        let next = views.subrange(i as int, views.len() as int);
        assert(actions_view(actions@) + protocol::all_writes(next) =~= actions_view(actions@));
    }
}

/// Adds the answers to the requests of a block.
fn put_answers(actions: &mut Vec<Action>, pending: &PendingBlock)
    ensures
        actions_view(final(actions)@) == actions_view(old(actions)@) + protocol::answers(pending@),
{
    let ghost head = actions_view(actions@);
    let ghost all = protocol::answers(pending@);
    let mut i: usize = 0;
    assert(head + all.take(0) =~= head);
    while i < pending.request_ids.len() && i < pending.block.operations.len()
        invariant
            i <= pending.request_ids@.len(),
            i <= pending.block.operations@.len(),
            all == protocol::answers(pending@),
            actions_view(actions@) == head + all.take(i as int),
        decreases pending.request_ids@.len() - i,
    {
        let request_id: RequestId = pending.request_ids[i];
        let action = match &pending.block.operations[i] {
            Operation::Get { key } => Action::ReplyRead { request_id, key: copy_bytes(key) },
            _ => Action::Reply(
                ClientResponse { request_id, success: true, value: None, error: None },
            ),
        };
        proof {
            assert(pending@.block.operations[i as int] == pending.block.operations@[i as int]@);
            assert(action@ == all[i as int]);
            lemma_push_action(actions@, action);
            assert(head + all.take(i + 1) =~= (head + all.take(i as int)).push(all[i as int]));
        }
        actions.push(action);
        i = i + 1;
    }
    assert(all.take(i as int) =~= all);
}

/// The number behind `x`. Behind the highest number comes 0.
fn next_number(x: u64) -> (y: u64)
    ensures
        y == protocol::next(x),
{
    x.wrapping_add(1)
}

/// Opens the envelope of a consensus message.
pub fn open_envelope(raw_payload: &[u8]) -> (signed: Option<SignedMessage>)
    ensures
        match signed {
            Some(signed) => codec::dec_signed(raw_payload@) matches Ok((value, _)) && value
                == signed@,
            None => codec::dec_signed(raw_payload@) is Err,
        },
{
    match SignedMessage::from_bytes(raw_payload) {
        Ok(signed) => Some(signed),
        Err(_) => None,
    }
}

/// The consensus engine of a node.
pub struct ConsensusEngine {
    config: NodeConfig,
    keypair: NodeKeyPair,
    key_store: KeyStore,
    current_view: ViewNumber,
    next_sequence: SequenceNumber,
    last_committed_seq: SequenceNumber,
    last_hash: Vec<u8>,
    ballots: Ballots,
    applied: HashSet<SequenceNumber>,
    history: Ghost<Map<SequenceNumber, Seq<OpView>>>,
    vote_collector: VoteCollector,
    view_changes: VoteCollector,
    pacemaker: PaceMaker,
    pending_blocks: PendingBlocks,
    pending_requests: Vec<ClientRequest>,
    committed_hashes: CommittedHashes,
}

impl View for ConsensusEngine {
    type V = EngineView;

    closed spec fn view(&self) -> EngineView {
        EngineView {
            id: self.config.id,
            peers: self.config.peer_ids(),
            chain_id: self.config.chain_id@,
            signer: self.keypair.id(),
            seed: self.keypair.seed(),
            keys: self.key_store@,
            view: self.current_view,
            next_sequence: self.next_sequence,
            last_committed: self.last_committed_seq,
            last_hash: self.last_hash@,
            voted: self.ballots@,
            applied: self.history@,
            votes: self.vote_collector@,
            view_changes: self.view_changes@,
            pace: self.pacemaker@,
            pending: self.pending_blocks@,
            requests: requests_view(self.pending_requests@),
            committed: self.committed_hashes@,
        }
    }
}

/// The state of a node that has just started.
pub open spec fn initial(
    config: NodeConfig,
    signer: NodeId,
    seed: Seq<u8>,
    keys: Map<NodeId, Seq<u8>>,
    now: u64,
) -> EngineView {
    let quorum = types::quorum_for(config.max_faults as nat);
    EngineView {
        id: config.id,
        peers: config.peer_ids(),
        chain_id: config.chain_id@,
        signer,
        seed,
        keys,
        view: 0,
        next_sequence: 0,
        last_committed: 0,
        last_hash: protocol::no_parent(),
        voted: Map::empty(),
        applied: Map::empty(),
        votes: VotesView { slots: Map::empty(), quorum },
        view_changes: VotesView { slots: Map::empty(), quorum },
        pace: pacemaker::pace_start(quorum, config.consensus_timeout_ms, now),
        pending: Map::empty(),
        requests: Seq::empty(),
        committed: Set::empty(),
    }
}

/// A node starts in view 0 with an empty log and nothing collected, waiting for a
/// proposal with its base timeout before it. The first block has eight zero bytes
/// for its parent's hash.
pub proof fn law_node_starts_empty(
    config: NodeConfig,
    signer: NodeId,
    seed: Seq<u8>,
    keys: Map<NodeId, Seq<u8>>,
    now: u64,
)
    ensures
        ({
            let e = initial(config, signer, seed, keys, now);
            &&& e.id == config.id
            &&& e.peers.len() == config.peers@.len()
            &&& forall|i: int|
                0 <= i < config.peers@.len() ==> #[trigger] e.peers[i] == config.peers@[i].0
            &&& e.chain_id == config.chain_id@
            &&& e.signer == signer
            &&& e.seed == seed
            &&& e.keys == keys
            &&& e.view == 0
            &&& e.next_sequence == 0
            &&& e.last_committed == 0
            &&& e.last_hash == seq![0u8, 0u8, 0u8, 0u8, 0u8, 0u8, 0u8, 0u8]
            &&& e.voted == Map::<SequenceNumber, types::BlockView>::empty()
            &&& e.applied == Map::<SequenceNumber, Seq<OpView>>::empty()
            &&& e.votes.slots == Map::<votes::SlotKey, votes::Votes>::empty()
            &&& e.view_changes.slots == Map::<votes::SlotKey, votes::Votes>::empty()
            &&& e.votes.quorum == 2 * config.max_faults + 1
            &&& e.view_changes.quorum == 2 * config.max_faults + 1
            &&& e.pace.quorum == 2 * config.max_faults + 1
            &&& e.pace.state == PaceMakerState::WaitingForProposal
            &&& e.pace.view == 0
            &&& e.pace.votes == Set::<(ViewNumber, NodeId)>::empty()
            &&& e.pace.base == config.consensus_timeout_ms
            &&& e.pace.last_activity == now
            &&& e.pace.deadline == now + config.consensus_timeout_ms
            &&& e.pending == Map::<votes::SlotKey, pending::PendingView>::empty()
            &&& e.requests == Seq::<RequestView>::empty()
            &&& e.committed == Set::<Seq<u8>>::empty()
        }),
{
    let e = initial(config, signer, seed, keys, now);
    pacemaker::law_deadline_is_a_timeout_away(
        e.pace,
        PaceMakerState::WaitingForProposal,
        0,
        now,
    );
    assert(e.last_hash =~= seq![0u8, 0u8, 0u8, 0u8, 0u8, 0u8, 0u8, 0u8]);
}

impl ConsensusEngine {
    /// The cluster has nodes, and the sequences marked as applied are those with
    /// operations on record.
    pub closed spec fn wf(&self) -> bool {
        self.config.peers@.len() > 0 && self.applied@ == self.history@.dom()
    }

    /// An engine that starts in view 0.
    pub fn new(
        config: NodeConfig,
        keypair: NodeKeyPair,
        key_store: KeyStore,
        now: u64,
    ) -> (engine: Self)
        requires
            config.peers@.len() > 0,
            2 * config.max_faults + 1 <= usize::MAX,
        ensures
            engine.wf(),
            engine@ == initial(config, keypair.id(), keypair.seed(), key_store@, now),
    {
        let quorum: usize = config.quorum_size();
        let timeout: u64 = config.consensus_timeout_ms;
        let engine = ConsensusEngine {
            config,
            keypair,
            key_store,
            current_view: 0,
            next_sequence: 0,
            last_committed_seq: 0,
            last_hash: zeros(),
            ballots: Ballots::new(),
            applied: HashSet::new(),
            history: Ghost(Map::empty()),
            vote_collector: VoteCollector::new(quorum),
            view_changes: VoteCollector::new(quorum),
            pacemaker: PaceMaker::new(quorum, timeout, now),
            pending_blocks: PendingBlocks::new(),
            pending_requests: Vec::new(),
            committed_hashes: CommittedHashes::new(),
        };
        assert(engine@.requests =~= Seq::empty());
        assert(engine.applied@ =~= engine.history@.dom());
        engine
    }

    /// Whether this node leads the current view.
    pub fn is_leader(&self) -> (yes: bool)
        requires
            self.wf(),
        ensures
            yes == protocol::leads(self@),
    {
        self.config.leader_for_view(self.current_view) == self.config.id
    }

    /// The current view.
    pub fn current_view(&self) -> (view: ViewNumber)
        ensures
            view == self@.view,
    {
        self.current_view
    }

    /// The sequence of the next block.
    pub fn next_sequence(&self) -> (sequence: SequenceNumber)
        ensures
            sequence == self@.next_sequence,
    {
        self.next_sequence
    }

    /// The sequence of the block committed last.
    pub fn last_committed_seq(&self) -> (sequence: SequenceNumber)
        ensures
            sequence == self@.last_committed,
    {
        self.last_committed_seq
    }

    /// The pacemaker.
    pub fn pacemaker(&self) -> (pacemaker: &PaceMaker)
        ensures
            pacemaker@ == self@.pace,
    {
        &self.pacemaker
    }

    /// The public keys of the cluster.
    pub fn key_store(&self) -> (keys: &KeyStore)
        ensures
            keys@ == self@.keys,
    {
        &self.key_store
    }

    /// The chain that signatures are bound to.
    pub fn chain_id(&self) -> (chain_id: &String)
        ensures
            chain_id@ == self@.chain_id,
    {
        &self.config.chain_id
    }

    /// A signed message in its wire envelope.
    pub fn wrap_consensus(signed: SignedMessage) -> (wire: WireMessage)
        ensures
            wire@ == protocol::wrap(signed@),
    {
        WireMessage {
            version: PROTOCOL_VERSION,
            msg_type: MessageType::Consensus,
            payload: signed.to_bytes(),
        }
    }

    /// A message on the wire, signed for a view.
    fn wire_for(&self, msg: &ConsensusMessage, view: ViewNumber) -> (wire: WireMessage)
        ensures
            wire@ == protocol::wire_for(self@, msg@, view),
    {
        let signed = self.keypair.sign_consensus_with_context(
            msg,
            self.config.chain_id.as_str(),
            view,
        );
        ConsensusEngine::wrap_consensus(signed)
    }

    /// Applies the block of a slot, if one is pending there.
    fn apply_block(
        &mut self,
        view: ViewNumber,
        sequence: SequenceNumber,
        actions: &mut Vec<Action>,
    )
        requires
            old(self).wf(),
        ensures
            final(self).wf(),
            final(self)@ == protocol::apply_block(old(self)@, (view, sequence)).0,
            actions_view(final(actions)@) == actions_view(old(actions)@) + protocol::apply_block(
                old(self)@,
                (view, sequence),
            ).1,
    {
        match self.pending_blocks.remove(view, sequence) {
            None => {
                assert(self@ =~= old(self)@) by {
                    assert(old(self)@.pending.remove((view, sequence)) =~= old(self)@.pending);
                }
                assert(actions_view(actions@) + Seq::<ActionView>::empty() =~= actions_view(
                    actions@,
                ));
            },
            Some(pending) => {
                if !self.applied.insert(sequence) {
                    assert(self.applied@ =~= old(self).applied@);
                    assert(self@ =~= protocol::apply_block(old(self)@, (view, sequence)).0);
                    assert(actions_view(actions@) + Seq::<ActionView>::empty() =~= actions_view(
                        actions@,
                    ));
                    return;
                }
                self.history = Ghost(self.history@.insert(sequence, pending@.block.operations));
                assert(self.applied@ =~= self.history@.dom());
                put_all_writes(actions, &pending.block.operations);
                put_answers(actions, &pending);
                assert(actions_view(actions@) =~= actions_view(old(actions)@)
                    + protocol::apply_block(old(self)@, (view, sequence)).1);
            },
        }
    }

    /// Settles a committed block.
    fn settle(
        &mut self,
        view: ViewNumber,
        sequence: SequenceNumber,
        block_hash: Vec<u8>,
        now: u64,
        actions: &mut Vec<Action>,
    )
        requires
            old(self).wf(),
        ensures
            final(self).wf(),
            final(self)@ == protocol::settle(old(self)@, (view, sequence), block_hash@, now).0,
            actions_view(final(actions)@) == actions_view(old(actions)@) + protocol::settle(
                old(self)@,
                (view, sequence),
                block_hash@,
                now,
            ).1,
    {
        let hash = copy_bytes(&block_hash);
        self.committed_hashes.insert(block_hash);
        self.apply_block(view, sequence, actions);
        if sequence > self.last_committed_seq {
            self.last_committed_seq = sequence;
        }
        let next: SequenceNumber = next_number(sequence);
        if next >= self.next_sequence {
            self.next_sequence = next;
            self.last_hash = hash;
        }
        self.pacemaker.transition(PaceMakerState::Committed, now);
    }

    /// Commits a block as its leader.
    fn commit_block(
        &mut self,
        view: ViewNumber,
        sequence: SequenceNumber,
        block_hash: Vec<u8>,
        now: u64,
        actions: &mut Vec<Action>,
    )
        requires
            old(self).wf(),
        ensures
            final(self).wf(),
            final(self)@ == protocol::commit_block(
                old(self)@,
                (view, sequence),
                block_hash@,
                now,
            ).0,
            actions_view(final(actions)@) == actions_view(old(actions)@) + protocol::commit_block(
                old(self)@,
                (view, sequence),
                block_hash@,
                now,
            ).1,
    {
        let ghost before = actions_view(actions@);
        if self.committed_hashes.contains(&block_hash) {
            assert(before + Seq::<ActionView>::empty() =~= before);
            return;
        }
        let vote_signatures = self.vote_collector.get_signatures(view, sequence);
        let commit_msg = ConsensusMessage::Commit {
            view,
            sequence,
            block_hash: copy_bytes(&block_hash),
            vote_signatures,
        };
        assert(commit_msg@ == protocol::certificate(self@, (view, sequence), block_hash@));
        let wire = self.wire_for(&commit_msg, self.current_view);
        let action = Action::Broadcast(wire);
        proof {
            lemma_push_action(actions@, action);
        }
        actions.push(action);
        self.settle(view, sequence, block_hash, now, actions);
        assert(actions_view(actions@) =~= before + protocol::commit_block(
            old(self)@,
            (view, sequence),
            block_hash@,
            now,
        ).1);
    }

    /// Counts a vote and commits where that makes a quorum.
    fn count_vote(
        &mut self,
        view: ViewNumber,
        sequence: SequenceNumber,
        block_hash: Vec<u8>,
        voter: NodeId,
        signature: Vec<u8>,
        now: u64,
        actions: &mut Vec<Action>,
    )
        requires
            old(self).wf(),
        ensures
            final(self).wf(),
            final(self)@ == protocol::count_vote(
                old(self)@,
                (view, sequence),
                block_hash@,
                voter,
                signature@,
                now,
            ).0,
            actions_view(final(actions)@) == actions_view(old(actions)@) + protocol::count_vote(
                old(self)@,
                (view, sequence),
                block_hash@,
                voter,
                signature@,
                now,
            ).1,
    {
        if self.vote_collector.add_vote(view, sequence, voter, signature) {
            self.commit_block(view, sequence, block_hash, now, actions);
        } else {
            assert(actions_view(actions@) + Seq::<ActionView>::empty() =~= actions_view(actions@));
        }
    }

    /// Whether this node may vote for a block.
    fn may_vote(&self, block: &Block) -> (yes: bool)
        ensures
            yes == protocol::may_vote(self@, block@),
    {
        match self.ballots.get(block.sequence) {
            None => true,
            Some(voted) => voted.view < block.view && same_operations(
                &voted.operations,
                &block.operations,
            ),
        }
    }

    /// Whether this node has voted for a block.
    fn voted_for(&self, block: &Block) -> (yes: bool)
        ensures
            yes == protocol::voted_for(self@, block@),
    {
        match self.ballots.get(block.sequence) {
            None => false,
            Some(voted) => same_block(voted, block),
        }
    }

    /// Whether a block is kept that this node may not vote for.
    fn keeps_unvoted(&self, block: &Block) -> (yes: bool)
        requires
            self.wf(),
            !protocol::may_vote(self@, block@),
        ensures
            yes == protocol::keeps_unvoted(self@, block@),
    {
        match self.ballots.get(block.sequence) {
            None => false,
            Some(voted) => !self.is_leader() && voted.view < block.view,
        }
    }

    /// Sends a vote for a block to the leader.
    fn send_vote(&self, block: &Block, actions: &mut Vec<Action>)
        requires
            self.wf(),
        ensures
            actions_view(final(actions)@) == actions_view(old(actions)@) + protocol::send_vote(
                self@,
                block@,
            ),
    {
        let vote_msg = ConsensusMessage::Vote {
            view: block.view,
            sequence: block.sequence,
            block_hash: block.hash(),
            voter: self.config.id,
        };
        assert(vote_msg@ == protocol::vote_for(self@, block@));
        let target: NodeId = self.config.leader_for_view(self.current_view);
        let message = self.wire_for(&vote_msg, self.current_view);
        let action = Action::Send { target, message };
        proof {
            lemma_push_action(actions@, action);
        }
        actions.push(action);
    }

    /// The requests that a block for a sequence answers, where this node has
    /// proposed its operations before.
    fn carried(&self, sequence: SequenceNumber) -> (request_ids: Vec<RequestId>)
        ensures
            request_ids@ == protocol::carried(self@, sequence),
    {
        match self.ballots.get(sequence) {
            None => Vec::new(),
            Some(voted) => match self.pending_blocks.get(voted.view, sequence) {
                None => Vec::new(),
                Some(pending) => copy_ids(&pending.request_ids),
            },
        }
    }

    /// Takes what goes into the next block: the operations, and the requests
    /// that they answer.
    fn take_operations(&mut self) -> (parts: (Vec<Operation>, Vec<RequestId>))
        requires
            old(self).wf(),
        ensures
            final(self).wf(),
            final(self)@ == (EngineView {
                requests: protocol::proposed(old(self)@, 0).requests,
                ..old(self)@
            }),
            types::ops_view(parts.0@) == protocol::next_block(old(self)@).operations,
            parts.1@ == protocol::proposed(old(self)@, 0).pending[(
                old(self)@.view,
                old(self)@.next_sequence,
            )].request_ids,
    {
        let ghost start = self@;
        let again: Option<Vec<Operation>> = match self.ballots.get(self.next_sequence) {
            None => None,
            Some(voted) => Some(copy_ops(&voted.operations)),
        };
        match again {
            Some(operations) => {
                let request_ids = self.carried(self.next_sequence);
                (operations, request_ids)
            },
            None => {
                let mut requests: Vec<ClientRequest> = Vec::new();
                std::mem::swap(&mut requests, &mut self.pending_requests);
                assert(requests_view(self.pending_requests@) =~= Seq::empty());
                assert(start.requests == requests_view(requests@));
                split_requests(requests)
            },
        }
    }

    /// Whether this node proposes.
    fn proposes(&self) -> (yes: bool)
        requires
            self.wf(),
        ensures
            yes == protocol::proposes(self@),
    {
        if !self.is_leader() || self.pending_requests.len() == 0 {
            return false;
        }
        if self.pending_blocks.get(self.current_view, self.next_sequence).is_some() {
            return false;
        }
        match self.ballots.get(self.next_sequence) {
            None => true,
            Some(voted) => voted.view < self.current_view,
        }
    }

    /// Proposes the next block, as the leader.
    fn try_propose(&mut self, now: u64, actions: &mut Vec<Action>)
        requires
            old(self).wf(),
        ensures
            final(self).wf(),
            final(self)@ == protocol::try_propose(old(self)@, now).0,
            actions_view(final(actions)@) == actions_view(old(actions)@) + protocol::try_propose(
                old(self)@,
                now,
            ).1,
    {
        let ghost start = self@;
        let ghost before = actions_view(actions@);
        if !self.proposes() {
            assert(before + Seq::<ActionView>::empty() =~= before);
            return;
        }
        let (operations, request_ids) = self.take_operations();
        let view: ViewNumber = self.current_view;
        let sequence: SequenceNumber = self.next_sequence;
        let block = Block {
            view,
            sequence,
            proposer: self.config.id,
            operations,
            parent_hash: copy_bytes(&self.last_hash),
        };
        assert(block@ =~= protocol::next_block(start));
        let block_hash = block.hash();
        let msg = ConsensusMessage::Propose { block: block.clone() };
        let wire = self.wire_for(&msg, view);
        let vote_msg = ConsensusMessage::Vote {
            view,
            sequence,
            block_hash: copy_bytes(&block_hash),
            voter: self.config.id,
        };
        assert(vote_msg@ == protocol::vote_for(start, block@));
        let vote_signed = self.keypair.sign_consensus_with_context(
            &vote_msg,
            self.config.chain_id.as_str(),
            view,
        );
        self.ballots.insert(block.clone());
        self.pending_blocks.insert(block, request_ids);
        self.pacemaker.transition(PaceMakerState::WaitingForVotes, now);
        assert(self@ =~= protocol::proposed(start, now));
        let action = Action::Broadcast(wire);
        proof {
            lemma_push_action(actions@, action);
        }
        actions.push(action);
        let voter: NodeId = self.config.id;
        self.count_vote(
            view,
            sequence,
            block_hash,
            voter,
            vote_signed.signature,
            now,
            actions,
        );
        assert(actions_view(actions@) =~= before + protocol::try_propose(start, now).1);
    }

    /// Handles a proposal.
    fn handle_propose(
        &mut self,
        sender: NodeId,
        block: Block,
        now: u64,
        actions: &mut Vec<Action>,
    )
        requires
            old(self).wf(),
        ensures
            final(self).wf(),
            final(self)@ == protocol::handle_propose(old(self)@, sender, block@, now).0,
            actions_view(final(actions)@) == actions_view(old(actions)@)
                + protocol::handle_propose(old(self)@, sender, block@, now).1,
    {
        let ghost before = actions_view(actions@);
        let expected_leader: NodeId = self.config.leader_for_view(self.current_view);
        if sender != expected_leader || block.view != self.current_view {
            assert(before + Seq::<ActionView>::empty() =~= before);
            return;
        }
        if self.voted_for(&block) {
            self.send_vote(&block, actions);
            return;
        }
        if self.may_vote(&block) {
            let request_ids = self.carried(block.sequence);
            self.send_vote(&block, actions);
            self.ballots.insert(block.clone());
            self.pending_blocks.insert(block, request_ids);
            self.pacemaker.transition(PaceMakerState::WaitingForVotes, now);
            return;
        }
        assert(before + Seq::<ActionView>::empty() =~= before);
        if self.keeps_unvoted(&block) {
            let request_ids: Vec<RequestId> = Vec::new();
            assert(request_ids@ =~= Seq::empty());
            self.pending_blocks.insert(block, request_ids);
        }
    }

    /// Whether the block of a hash is pending for a slot.
    fn is_pending(&self, view: ViewNumber, sequence: SequenceNumber, block_hash: &[u8]) -> (yes:
        bool)
        ensures
            yes == (self@.pending.contains_key((view, sequence)) && protocol::fits_pending(
                self@,
                (view, sequence),
                block_hash@,
            )),
    {
        match self.pending_blocks.get(view, sequence) {
            None => false,
            Some(pending) => same_bytes(&pending.block.hash(), block_hash),
        }
    }

    /// Handles a vote.
    fn handle_vote(
        &mut self,
        voter: NodeId,
        view: ViewNumber,
        sequence: SequenceNumber,
        block_hash: Vec<u8>,
        signature: Vec<u8>,
        now: u64,
        actions: &mut Vec<Action>,
    )
        requires
            old(self).wf(),
        ensures
            final(self).wf(),
            final(self)@ == protocol::handle_vote(
                old(self)@,
                voter,
                (view, sequence),
                block_hash@,
                signature@,
                now,
            ).0,
            actions_view(final(actions)@) == actions_view(old(actions)@) + protocol::handle_vote(
                old(self)@,
                voter,
                (view, sequence),
                block_hash@,
                signature@,
                now,
            ).1,
    {
        if view != self.current_view || !self.is_leader() || !self.is_pending(
            view,
            sequence,
            &block_hash,
        ) {
            assert(actions_view(actions@) + Seq::<ActionView>::empty() =~= actions_view(actions@));
            return;
        }
        self.count_vote(view, sequence, block_hash, voter, signature, now, actions);
    }

    /// Handles the news that a block is committed.
    fn handle_commit(
        &mut self,
        view: ViewNumber,
        sequence: SequenceNumber,
        block_hash: Vec<u8>,
        now: u64,
        actions: &mut Vec<Action>,
    )
        requires
            old(self).wf(),
        ensures
            final(self).wf(),
            final(self)@ == protocol::handle_commit(
                old(self)@,
                (view, sequence),
                block_hash@,
                now,
            ).0,
            actions_view(final(actions)@) == actions_view(old(actions)@)
                + protocol::handle_commit(old(self)@, (view, sequence), block_hash@, now).1,
    {
        if self.committed_hashes.contains(&block_hash) {
            assert(actions_view(actions@) + Seq::<ActionView>::empty() =~= actions_view(actions@));
            return;
        }
        self.settle(view, sequence, block_hash, now, actions);
    }

    /// Moves to a new view.
    fn advance_to_view(&mut self, new_view: ViewNumber, now: u64, actions: &mut Vec<Action>)
        requires
            old(self).wf(),
        ensures
            final(self).wf(),
            final(self)@ == protocol::advance_to_view(old(self)@, new_view, now).0,
            actions_view(final(actions)@) == actions_view(old(actions)@)
                + protocol::advance_to_view(old(self)@, new_view, now).1,
    {
        let ghost start = self@;
        let ghost before = actions_view(actions@);
        self.current_view = new_view;
        self.pacemaker.advance_view(new_view, now);
        self.vote_collector.gc_before_view(new_view);
        self.view_changes.gc_before_view(new_view);
        assert(self@ =~= protocol::in_view(start, new_view, now));
        if !self.is_leader() {
            assert(before + Seq::<ActionView>::empty() =~= before);
            return;
        }
        let msg = ConsensusMessage::NewView {
            view: new_view,
            leader: self.config.id,
            view_change_proofs: self.view_changes.get_signatures(new_view, 0),
        };
        let wire = self.wire_for(&msg, new_view);
        let action = Action::Broadcast(wire);
        proof {
            lemma_push_action(actions@, action);
        }
        actions.push(action);
        self.try_propose(now, actions);
        assert(actions_view(actions@) =~= before + protocol::advance_to_view(
            start,
            new_view,
            now,
        ).1);
    }

    /// Counts a request for a view and moves there where that makes a quorum.
    fn handle_view_change(
        &mut self,
        sender: NodeId,
        new_view: ViewNumber,
        request: Vec<u8>,
        now: u64,
        actions: &mut Vec<Action>,
    )
        requires
            old(self).wf(),
        ensures
            final(self).wf(),
            final(self)@ == protocol::count_view_change(
                old(self)@,
                sender,
                new_view,
                request@,
                now,
            ).0,
            actions_view(final(actions)@) == actions_view(old(actions)@)
                + protocol::count_view_change(old(self)@, sender, new_view, request@, now).1,
    {
        if new_view > self.current_view {
            let _ = self.view_changes.add_vote(new_view, 0, sender, request);
        }
        if self.pacemaker.add_view_change(new_view, sender) {
            self.advance_to_view(new_view, now, actions);
        } else {
            assert(actions_view(actions@) + Seq::<ActionView>::empty() =~= actions_view(actions@));
        }
    }

    /// Asks for the next view. The own request counts like any other: where it
    /// completes a quorum, the view changes.
    fn initiate_view_change(&mut self, now: u64, actions: &mut Vec<Action>)
        requires
            old(self).wf(),
        ensures
            final(self).wf(),
            final(self)@ == protocol::initiate_view_change(old(self)@, now).0,
            actions_view(final(actions)@) == actions_view(old(actions)@)
                + protocol::initiate_view_change(old(self)@, now).1,
    {
        let ghost before = actions_view(actions@);
        let new_view: ViewNumber = next_number(self.current_view);
        let sender: NodeId = self.config.id;
        let msg = ConsensusMessage::ViewChange {
            new_view,
            sender,
            last_committed_seq: self.last_committed_seq,
        };
        let signed = self.keypair.sign_consensus_with_context(
            &msg,
            self.config.chain_id.as_str(),
            new_view,
        );
        let request = signed.to_bytes();
        let wire = ConsensusEngine::wrap_consensus(signed);
        assert(wire@ == protocol::wire_for(self@, msg@, new_view));
        let action = Action::Broadcast(wire);
        proof {
            lemma_push_action(actions@, action);
        }
        actions.push(action);
        self.handle_view_change(sender, new_view, request, now, actions);
        assert(actions_view(actions@) =~= before + protocol::initiate_view_change(
            old(self)@,
            now,
        ).1);
    }

    /// Handles the announcement of a new view.
    fn handle_new_view(&mut self, view: ViewNumber, now: u64, actions: &mut Vec<Action>)
        requires
            old(self).wf(),
        ensures
            final(self).wf(),
            final(self)@ == protocol::handle_new_view(old(self)@, view, now).0,
            actions_view(final(actions)@) == actions_view(old(actions)@)
                + protocol::handle_new_view(old(self)@, view, now).1,
    {
        if view > self.current_view {
            self.advance_to_view(view, now, actions);
        } else {
            assert(actions_view(actions@) + Seq::<ActionView>::empty() =~= actions_view(actions@));
        }
    }

    /// Whether signatures are the votes of a quorum for the block of a hash.
    fn certifies(
        &self,
        view: ViewNumber,
        sequence: SequenceNumber,
        block_hash: &[u8],
        signatures: &Vec<(NodeId, Vec<u8>)>,
    ) -> (yes: bool)
        ensures
            yes == protocol::certifies(
                self@,
                (view, sequence),
                block_hash@,
                types::sigs_view(signatures@),
            ),
    {
        let ghost views = types::sigs_view(signatures@);
        if signatures.len() < self.vote_collector.quorum_size() {
            return false;
        }
        let mut i: usize = 0;
        while i < signatures.len()
            invariant
                i <= signatures@.len(),
                views == types::sigs_view(signatures@),
                forall|j: int|
                    0 <= j < i ==> protocol::is_vote(
                        self@,
                        (view, sequence),
                        block_hash@,
                        (#[trigger] views[j]).0,
                        views[j].1,
                    ),
                forall|j: int, k: int|
                    0 <= j < k < i ==> (#[trigger] views[j]).0 != (#[trigger] views[k]).0,
            decreases signatures@.len() - i,
        {
            let voter: NodeId = signatures[i].0;
            assert(views[i as int] == (voter, signatures@[i as int].1@));
            let mut at: usize = 0;
            while at < i
                invariant
                    at <= i < signatures@.len(),
                    views == types::sigs_view(signatures@),
                    voter == views[i as int].0,
                    forall|j: int| 0 <= j < at ==> (#[trigger] views[j]).0 != voter,
                decreases i - at,
            {
                assert(views[at as int].0 == signatures@[at as int].0);
                if signatures[at].0 == voter {
                    return false;
                }
                at = at + 1;
            }
            let vote = ConsensusMessage::Vote {
                view,
                sequence,
                block_hash: copy_bytes(block_hash),
                voter,
            };
            let valid = verify_message_signature(
                &self.key_store,
                voter,
                &vote,
                self.config.chain_id.as_str(),
                view,
                &signatures[i].1,
            );
            if !valid {
                assert(!protocol::is_vote(
                    self@,
                    (view, sequence),
                    block_hash@,
                    views[i as int].0,
                    views[i as int].1,
                ));
                return false;
            }
            i = i + 1;
        }
        true
    }

    /// Handles a signed vote.
    fn take_vote(
        &mut self,
        signed: SignedMessage,
        voter: NodeId,
        view: ViewNumber,
        sequence: SequenceNumber,
        block_hash: Vec<u8>,
        now: u64,
        actions: &mut Vec<Action>,
    )
        requires
            old(self).wf(),
        ensures
            final(self).wf(),
            final(self)@ == protocol::take_vote(
                old(self)@,
                signed@,
                voter,
                (view, sequence),
                block_hash@,
                now,
            ).0,
            actions_view(final(actions)@) == actions_view(old(actions)@) + protocol::take_vote(
                old(self)@,
                signed@,
                voter,
                (view, sequence),
                block_hash@,
                now,
            ).1,
    {
        let ghost before = actions_view(actions@);
        let ghost key = (view, sequence);
        let ghost hash = block_hash@;
        let vote = ConsensusMessage::Vote {
            view,
            sequence,
            block_hash: copy_bytes(&block_hash),
            voter,
        };
        if voter != signed.sender || !same_bytes(&vote.to_bytes(), &signed.payload) {
            assert(before + Seq::<ActionView>::empty() =~= before);
            return;
        }
        self.handle_vote(voter, view, sequence, block_hash, signed.signature, now, actions);
        self.try_propose(now, actions);
        assert(actions_view(actions@) =~= before + protocol::take_vote(
            old(self)@,
            signed@,
            voter,
            key,
            hash,
            now,
        ).1);
    }

    /// Handles the signed news that a block is committed.
    fn take_commit(
        &mut self,
        sender: NodeId,
        view: ViewNumber,
        sequence: SequenceNumber,
        block_hash: Vec<u8>,
        signatures: &Vec<(NodeId, Vec<u8>)>,
        now: u64,
        actions: &mut Vec<Action>,
    )
        requires
            old(self).wf(),
        ensures
            final(self).wf(),
            final(self)@ == protocol::take_commit(
                old(self)@,
                sender,
                (view, sequence),
                block_hash@,
                types::sigs_view(signatures@),
                now,
            ).0,
            actions_view(final(actions)@) == actions_view(old(actions)@) + protocol::take_commit(
                old(self)@,
                sender,
                (view, sequence),
                block_hash@,
                types::sigs_view(signatures@),
                now,
            ).1,
    {
        let ghost before = actions_view(actions@);
        let ghost key = (view, sequence);
        let ghost hash = block_hash@;
        let fits = self.pending_blocks.get(view, sequence).is_none() || self.is_pending(
            view,
            sequence,
            &block_hash,
        );
        if sender != self.config.leader_for_view(view) || !fits || !self.certifies(
            view,
            sequence,
            &block_hash,
            signatures,
        ) {
            assert(before + Seq::<ActionView>::empty() =~= before);
            return;
        }
        self.handle_commit(view, sequence, block_hash, now, actions);
        self.try_propose(now, actions);
        assert(actions_view(actions@) =~= before + protocol::take_commit(
            old(self)@,
            sender,
            key,
            hash,
            types::sigs_view(signatures@),
            now,
        ).1);
    }

    /// Handles a signed request for a view.
    fn take_view_change(
        &mut self,
        signed: &SignedMessage,
        sender: NodeId,
        new_view: ViewNumber,
        now: u64,
        actions: &mut Vec<Action>,
    )
        requires
            old(self).wf(),
        ensures
            final(self).wf(),
            final(self)@ == protocol::take_view_change(
                old(self)@,
                signed@,
                sender,
                new_view,
                now,
            ).0,
            actions_view(final(actions)@) == actions_view(old(actions)@)
                + protocol::take_view_change(old(self)@, signed@, sender, new_view, now).1,
    {
        if sender == signed.sender {
            let request = signed.to_bytes();
            self.handle_view_change(sender, new_view, request, now, actions);
        } else {
            assert(actions_view(actions@) + Seq::<ActionView>::empty() =~= actions_view(actions@));
        }
    }

    /// Handles the signed announcement of a view.
    fn take_new_view(
        &mut self,
        sender: NodeId,
        view: ViewNumber,
        now: u64,
        actions: &mut Vec<Action>,
    )
        requires
            old(self).wf(),
        ensures
            final(self).wf(),
            final(self)@ == protocol::take_new_view(old(self)@, sender, view, now).0,
            actions_view(final(actions)@) == actions_view(old(actions)@)
                + protocol::take_new_view(old(self)@, sender, view, now).1,
    {
        if sender == self.config.leader_for_view(view) {
            self.handle_new_view(view, now, actions);
        } else {
            assert(actions_view(actions@) + Seq::<ActionView>::empty() =~= actions_view(actions@));
        }
    }

    /// Hands a verified message to its handler.
    fn dispatch(
        &mut self,
        signed: SignedMessage,
        msg: ConsensusMessage,
        now: u64,
        actions: &mut Vec<Action>,
    )
        requires
            old(self).wf(),
        ensures
            final(self).wf(),
            final(self)@ == protocol::dispatch(old(self)@, signed@, msg@, now).0,
            actions_view(final(actions)@) == actions_view(old(actions)@) + protocol::dispatch(
                old(self)@,
                signed@,
                msg@,
                now,
            ).1,
    {
        let sender: NodeId = signed.sender;
        match msg {
            ConsensusMessage::Propose { block } => {
                self.handle_propose(sender, block, now, actions);
            },
            ConsensusMessage::Vote { view, sequence, block_hash, voter } => {
                self.take_vote(signed, voter, view, sequence, block_hash, now, actions);
            },
            ConsensusMessage::Commit { view, sequence, block_hash, vote_signatures } => {
                self.take_commit(
                    sender,
                    view,
                    sequence,
                    block_hash,
                    &vote_signatures,
                    now,
                    actions,
                );
            },
            ConsensusMessage::ViewChange { new_view, sender: asking, last_committed_seq } => {
                self.take_view_change(&signed, asking, new_view, now, actions);
            },
            ConsensusMessage::NewView { view, leader, view_change_proofs } => {
                self.take_new_view(sender, view, now, actions);
            },
        }
    }

    /// The view that a signed message has to be signed for. Of the payload, which
    /// is not verified yet, only the variant number and the view are read.
    pub fn context_view(&self, signed: &SignedMessage) -> (view: ViewNumber)
        ensures
            view == protocol::context_view(signed@.payload, self@.view),
    {
        let payload = signed.payload.as_slice();
        if payload.len() < 12 {
            return self.current_view;
        }
        let variant: u32 = codec::bincode_read_u32(payload);
        if variant == 3 || variant == 4 {
            let view = slice_subrange(payload, 4, 12);
            assert(view@.take(8) =~= payload@.subrange(4, 12));
            codec::bincode_read_u64(view)
        } else {
            self.current_view
        }
    }

    /// Handles a signed message whose verification had the given result.
    pub fn handle_judged(
        &mut self,
        signed: SignedMessage,
        result: Result<ConsensusMessage, CryptoError>,
        now: u64,
    ) -> (actions: Vec<Action>)
        requires
            old(self).wf(),
        ensures
            final(self).wf(),
            match result {
                Ok(msg) => (final(self)@, actions_view(actions@)) == protocol::dispatch(
                    old(self)@,
                    signed@,
                    msg@,
                    now,
                ),
                Err(_) => final(self)@ == old(self)@ && actions@.len() == 0,
            },
    {
        let mut actions: Vec<Action> = Vec::new();
        assert(actions_view(actions@) =~= Seq::empty());
        match result {
            Ok(msg) => {
                self.dispatch(signed, msg, now, &mut actions);
                assert(actions_view(actions@) =~= protocol::dispatch(
                    old(self)@,
                    signed@,
                    msg@,
                    now,
                ).1);
            },
            Err(_) => {},
        }
        actions
    }

    /// Handles the bytes of a consensus message: opens the envelope, verifies
    /// the signature and hands the message to its handler.
    pub fn handle_consensus_wire(&mut self, raw_payload: &[u8], now: u64) -> (actions: Vec<
        Action,
    >)
        requires
            old(self).wf(),
        ensures
            final(self).wf(),
            (final(self)@, actions_view(actions@)) == protocol::handle_consensus_wire(
                old(self)@,
                raw_payload@,
                now,
            ),
    {
        match open_envelope(raw_payload) {
            None => {
                let actions: Vec<Action> = Vec::new();
                assert(actions_view(actions@) =~= Seq::empty());
                actions
            },
            Some(signed) => {
                let view: ViewNumber = self.context_view(&signed);
                let result = verify_signed_message_with_context(
                    &self.key_store,
                    &signed,
                    self.config.chain_id.as_str(),
                    view,
                );
                let actions = self.handle_judged(signed, result, now);
                assert(result is Err ==> actions_view(actions@) =~= Seq::empty());
                actions
            },
        }
    }

    /// Handles a wire message.
    pub fn handle_wire_message(&mut self, wire: &WireMessage, now: u64) -> (actions: Vec<Action>)
        requires
            old(self).wf(),
        ensures
            final(self).wf(),
            (final(self)@, actions_view(actions@)) == protocol::handle_wire_message(
                old(self)@,
                wire@,
                now,
            ),
    {
        match wire.msg_type {
            MessageType::Consensus => self.handle_consensus_wire(&wire.payload, now),
            _ => {
                let actions: Vec<Action> = Vec::new();
                assert(actions_view(actions@) =~= Seq::empty());
                actions
            },
        }
    }

    /// Handles a client request.
    pub fn handle_client_request(&mut self, request: ClientRequest, now: u64) -> (actions: Vec<
        Action,
    >)
        requires
            old(self).wf(),
        ensures
            final(self).wf(),
            (final(self)@, actions_view(actions@)) == protocol::handle_client_request(
                old(self)@,
                request@,
                now,
            ),
    {
        let ghost start = self@;
        let ghost view = request@;
        let mut actions: Vec<Action> = Vec::new();
        assert(actions_view(actions@) =~= Seq::empty());
        if self.is_leader() {
            self.pending_requests.push(request);
            assert(self@.requests =~= start.requests.push(view));
            let ghost queued = self@;
            self.try_propose(now, &mut actions);
            assert(actions_view(actions@) =~= protocol::try_propose(queued, now).1);
        } else {
            let leader: NodeId = self.config.leader_for_view(self.current_view);
            let mut message = String::from_str("not leader; current leader is node ");
            message.append(decimal_text(leader).as_str());
            let action = Action::Reply(
                ClientResponse {
                    request_id: request.request_id,
                    success: false,
                    value: None,
                    error: Some(message),
                },
            );
            proof {
                lemma_push_action(actions@, action);
            }
            actions.push(action);
            assert(actions_view(actions@) =~= protocol::handle_client_request(
                start,
                view,
                now,
            ).1);
        }
        actions
    }

    /// Handles the timeout of the current view.
    pub fn handle_timeout(&mut self, now: u64) -> (actions: Vec<Action>)
        requires
            old(self).wf(),
        ensures
            final(self).wf(),
            (final(self)@, actions_view(actions@)) == protocol::handle_timeout(old(self)@, now),
    {
        let mut actions: Vec<Action> = Vec::new();
        assert(actions_view(actions@) =~= Seq::empty());
        self.pacemaker.transition(PaceMakerState::ViewChanging, now);
        let ghost changing = self@;
        self.initiate_view_change(now, &mut actions);
        assert(actions_view(actions@) =~= protocol::initiate_view_change(changing, now).1);
        actions
    }

    /// Records that a message has been handled, which puts the deadline off.
    pub fn record_activity(&mut self, now: u64)
        requires
            old(self).wf(),
        ensures
            final(self).wf(),
            final(self)@ == protocol::active(old(self)@, now),
    {
        self.pacemaker.record_activity(now);
    }
}

/// The operations and the identifiers of requests, in order.
fn split_requests(requests: Vec<ClientRequest>) -> (parts: (Vec<Operation>, Vec<RequestId>))
    ensures
        types::ops_view(parts.0@) == requests_view(requests@).map_values(
            |request: RequestView| request.operation,
        ),
        parts.1@ == requests_view(requests@).map_values(|request: RequestView| request.request_id),
{
    let mut operations: Vec<Operation> = Vec::new();
    let mut request_ids: Vec<RequestId> = Vec::new();
    let mut i: usize = 0;
    while i < requests.len()
        invariant
            i <= requests@.len(),
            operations@.len() == i,
            request_ids@.len() == i,
            forall|j: int|
                0 <= j < i ==> (#[trigger] operations@[j])@ == requests@[j].operation@,
            forall|j: int| 0 <= j < i ==> #[trigger] request_ids@[j] == requests@[j].request_id,
        decreases requests@.len() - i,
    {
        operations.push(requests[i].operation.clone());
        request_ids.push(requests[i].request_id);
        i = i + 1;
    }
    assert(types::ops_view(operations@) =~= requests_view(requests@).map_values(
        |request: RequestView| request.operation,
    ));
    assert(request_ids@ =~= requests_view(requests@).map_values(
        |request: RequestView| request.request_id,
    ));
    (operations, request_ids)
}

/// A copy of request identifiers.
fn copy_ids(ids: &Vec<RequestId>) -> (copy: Vec<RequestId>)
    ensures
        copy@ == ids@,
{
    let mut copy: Vec<RequestId> = Vec::new();
    let mut i: usize = 0;
    while i < ids.len()
        invariant
            i <= ids@.len(),
            copy@ == ids@.take(i as int),
        decreases ids@.len() - i,
    {
        copy.push(ids[i]);
        assert(ids@.take(i + 1) =~= ids@.take(i as int).push(ids@[i as int]));
        i = i + 1;
    }
    assert(ids@.take(i as int) =~= ids@);
    copy
}

/// Eight zero bytes.
fn zeros() -> (bytes: Vec<u8>)
    ensures
        bytes@ == protocol::no_parent(),
{
    let mut bytes: Vec<u8> = Vec::new();
    let mut i: usize = 0;
    while i < 8
        invariant
            i <= 8,
            bytes@.len() == i,
            forall|j: int| 0 <= j < i ==> bytes@[j] == 0,
        decreases 8 - i,
    {
        bytes.push(0);
        i = i + 1;
    }
    assert(bytes@ =~= protocol::no_parent());
    bytes
}

} // verus!
