//! The consensus protocol as a state machine: what a node's state is, and for
//! each event the state after it and the actions that it asks for.
//!
//! A leader proposes a block of client operations, replicas vote for it, and
//! with a quorum of votes the leader commits it and tells the replicas, with
//! the votes. When a view times out, the nodes ask for the next one and move
//! there once a quorum does; the leader of the new view announces it.
//!
//! A node votes for one block in each slot. What it has voted for at a sequence
//! it does not give up: in a later view it votes for the same operations only,
//! and proposes them again where it leads. So no two quorums, of whatever views,
//! settle different operations for a sequence.
use vstd::prelude::*;

use crate::codec;
use crate::crypto;
use crate::hash;
use crate::octets;
use crate::pacemaker;
use crate::pacemaker::{PaceMakerState, PaceView};
use crate::pending;
use crate::pending::PendingView;
use crate::text;
use crate::types;
use crate::types::{BlockView, MessageType, MessageView, NodeId, OpView, PROTOCOL_VERSION, RequestId, RequestView, ResponseView, SequenceNumber, SignedView, ViewNumber, WireView};
use crate::votes;
use crate::votes::{SlotKey, VotesView};

verus! {

/// The state of a node.
#[verifier::ext_equal]
pub struct EngineView {
    /// This node.
    pub id: NodeId,
    /// All nodes in the order in which they lead.
    pub peers: Seq<NodeId>,
    /// The chain that signatures are bound to.
    pub chain_id: Seq<char>,
    /// The node in whose name this node signs.
    pub signer: NodeId,
    /// The seed that it signs with.
    pub seed: Seq<u8>,
    /// The public keys of the cluster.
    pub keys: Map<NodeId, Seq<u8>>,
    /// The current view.
    pub view: ViewNumber,
    /// The sequence of the next block.
    pub next_sequence: SequenceNumber,
    /// The sequence of the block committed last.
    pub last_committed: SequenceNumber,
    /// The hash of the block behind which the log goes on.
    pub last_hash: Seq<u8>,
    /// The block that this node voted for last, for each sequence.
    pub voted: Map<SequenceNumber, BlockView>,
    /// The operations that are applied, for each sequence.
    pub applied: Map<SequenceNumber, Seq<OpView>>,
    /// The votes that this node has collected.
    pub votes: VotesView,
    /// The requests for views that this node has collected, as they were signed.
    pub view_changes: VotesView,
    /// Phase, deadline and view-change votes.
    pub pace: PaceView,
    /// Blocks proposed and not yet committed.
    pub pending: Map<SlotKey, PendingView>,
    /// Client requests that are not proposed yet.
    pub requests: Seq<RequestView>,
    /// The hashes of the committed blocks.
    pub committed: Set<Seq<u8>>,
}

/// What a node asks of the world around it.
pub enum ActionView {
    /// Send a message to every other node.
    Broadcast(WireView),
    /// Send a message to one node.
    Send { target: NodeId, message: WireView },
    /// Write a key-value pair to the store.
    Store { key: Seq<u8>, value: Seq<u8> },
    /// Answer a client.
    Reply(ResponseView),
    /// Answer a client with the value that the store holds for a key.
    ReplyRead { request_id: RequestId, key: Seq<u8> },
}

/// A state and the actions that lead to it.
pub type Step = (EngineView, Seq<ActionView>);

/// The leader of a view.
pub open spec fn leader(e: EngineView, view: ViewNumber) -> NodeId {
    types::leader_of(e.peers, view as nat)
}

/// Whether this node leads the current view.
pub open spec fn leads(e: EngineView) -> bool {
    leader(e, e.view) == e.id
}

/// The number behind `x`. Behind the highest number comes 0.
pub open spec fn next(x: u64) -> u64 {
    if x == u64::MAX {
        0
    } else {
        (x + 1) as u64
    }
}

// ---------------------------------------------------------------------------
// Messages
// ---------------------------------------------------------------------------

/// A signed message in its wire envelope.
pub open spec fn wrap(signed: SignedView) -> WireView {
    WireView {
        version: PROTOCOL_VERSION,
        msg_type: MessageType::Consensus,
        payload: codec::enc_signed(signed),
    }
}

/// A message signed for a view.
pub open spec fn signed_for(e: EngineView, msg: MessageView, view: ViewNumber) -> SignedView {
    crypto::sign_for(e.signer, e.seed, msg, e.chain_id, view)
}

/// A message on the wire, signed for a view.
pub open spec fn wire_for(e: EngineView, msg: MessageView, view: ViewNumber) -> WireView {
    wrap(signed_for(e, msg, view))
}

// ---------------------------------------------------------------------------
// Applying a block
// ---------------------------------------------------------------------------

/// The writes of an operation, in order. A read writes nothing; a transaction
/// is its operations, one after the other.
pub open spec fn writes(op: OpView) -> Seq<ActionView>
    decreases op, 0nat,
{
    match op {
        OpView::Put { key, value } => seq![ActionView::Store { key, value }],
        OpView::Get { key } => Seq::empty(),
        OpView::Txn { ops } => all_writes(ops),
    }
}

/// The writes of operations, in order.
pub open spec fn all_writes(ops: Seq<OpView>) -> Seq<ActionView>
    decreases ops, 1nat,
{
    if ops.len() == 0 {
        Seq::empty()
    } else {
        writes(ops[0]) + all_writes(ops.subrange(1, ops.len() as int))
    }
}

/// How a committed operation is answered: a read with what the store holds,
/// everything else with success.
pub open spec fn answer(request_id: RequestId, op: OpView) -> ActionView {
    match op {
        OpView::Get { key } => ActionView::ReplyRead { request_id, key },
        _ => ActionView::Reply(
            ResponseView { request_id, success: true, value: None, error: None },
        ),
    }
}

/// The answers to the requests of a block, in order.
pub open spec fn answers(pending: PendingView) -> Seq<ActionView> {
    let n = if pending.request_ids.len() <= pending.block.operations.len() {
        pending.request_ids.len()
    } else {
        pending.block.operations.len()
    };
    Seq::new(n, |i: int| answer(pending.request_ids[i], pending.block.operations[i]))
}

/// A block is applied: its operations are written, then its clients are
/// answered. Where no block is pending for the slot, or one was applied for its
/// sequence before, nothing is written and nobody is answered.
pub open spec fn apply_block(e: EngineView, key: SlotKey) -> Step {
    let taken = EngineView { pending: e.pending.remove(key), ..e };
    if e.pending.contains_key(key) && !e.applied.contains_key(key.1) {
        (
            EngineView {
                applied: e.applied.insert(key.1, e.pending[key].block.operations),
                ..taken
            },
            all_writes(e.pending[key].block.operations) + answers(e.pending[key]),
        )
    } else {
        (taken, Seq::empty())
    }
}

// ---------------------------------------------------------------------------
// Committing
// ---------------------------------------------------------------------------

/// The higher of two numbers.
pub open spec fn higher(a: u64, b: u64) -> u64 {
    if a >= b {
        a
    } else {
        b
    }
}

/// A block is committed: it is applied, and the log goes on behind the highest
/// block that is committed.
pub open spec fn settle(e: EngineView, key: SlotKey, block_hash: Seq<u8>, now: u64) -> Step {
    let (applied, actions) = apply_block(
        EngineView { committed: e.committed.insert(block_hash), ..e },
        key,
    );
    (
        EngineView {
            last_committed: higher(e.last_committed, key.1),
            next_sequence: higher(e.next_sequence, next(key.1)),
            last_hash: if next(key.1) >= e.next_sequence {
                block_hash
            } else {
                e.last_hash
            },
            pace: pacemaker::pace_transition(applied.pace, PaceMakerState::Committed, now),
            ..applied
        },
        actions,
    )
}

/// The certificate of a slot: the votes that have been collected for it.
pub open spec fn certificate(e: EngineView, key: SlotKey, block_hash: Seq<u8>) -> MessageView {
    MessageView::Commit {
        view: key.0,
        sequence: key.1,
        block_hash,
        vote_signatures: votes::votes_at(e.votes, key),
    }
}

/// The leader commits a block: it tells everyone, with the votes, and applies
/// the block. A hash that is already committed is not committed again.
pub open spec fn commit_block(e: EngineView, key: SlotKey, block_hash: Seq<u8>, now: u64) -> Step {
    if e.committed.contains(block_hash) {
        (e, Seq::empty())
    } else {
        let (after, actions) = settle(e, key, block_hash, now);
        (
            after,
            seq![ActionView::Broadcast(wire_for(e, certificate(e, key, block_hash), e.view))]
                + actions,
        )
    }
}

/// A replica hears that a block is committed.
pub open spec fn handle_commit(e: EngineView, key: SlotKey, block_hash: Seq<u8>, now: u64) -> Step {
    if e.committed.contains(block_hash) {
        (e, Seq::empty())
    } else {
        settle(e, key, block_hash, now)
    }
}

/// A signature is a node's vote for the block of a hash in a slot.
pub open spec fn is_vote(
    e: EngineView,
    key: SlotKey,
    block_hash: Seq<u8>,
    voter: NodeId,
    signature: Seq<u8>,
) -> bool {
    let vote = MessageView::Vote { view: key.0, sequence: key.1, block_hash, voter };
    e.keys.contains_key(voter) && crypto::signature_verdict(
        e.keys[voter],
        crypto::signing_input(e.chain_id, key.0, codec::enc_message(vote)),
        signature,
    ) is Ok
}

/// Signatures certify the block of a hash for a slot: they are the votes of a
/// quorum of different nodes.
pub open spec fn certifies(
    e: EngineView,
    key: SlotKey,
    block_hash: Seq<u8>,
    signatures: votes::Votes,
) -> bool {
    &&& signatures.len() >= e.votes.quorum
    &&& votes::one_vote_each(signatures)
    &&& forall|i: int|
        0 <= i < signatures.len() ==> is_vote(
            e,
            key,
            block_hash,
            (#[trigger] signatures[i]).0,
            signatures[i].1,
        )
}

/// The block of a hash is the one that is pending for a slot, if any is.
pub open spec fn fits_pending(e: EngineView, key: SlotKey, block_hash: Seq<u8>) -> bool {
    e.pending.contains_key(key) ==> block_hash == hash::block_hash(e.pending[key].block)
}

/// A vote is added, and the block is committed where that makes a quorum.
pub open spec fn count_vote(
    e: EngineView,
    key: SlotKey,
    block_hash: Seq<u8>,
    voter: NodeId,
    signature: Seq<u8>,
    now: u64,
) -> Step {
    let (votes, reached) = votes::vote_step(e.votes, key, voter, signature);
    if reached {
        commit_block(EngineView { votes, ..e }, key, block_hash, now)
    } else {
        (EngineView { votes, ..e }, Seq::empty())
    }
}

// ---------------------------------------------------------------------------
// Proposing and voting
// ---------------------------------------------------------------------------

/// Eight zero bytes, the parent's hash of the first block.
pub open spec fn no_parent() -> Seq<u8> {
    Seq::new(8, |i: int| 0u8)
}

/// Whether this node may vote for a block: it has not voted in the slot, and it
/// gives up nothing that it has voted for at the sequence.
///
/// That no vote is given up is what keeps the nodes in agreement: one round of
/// votes does not tell a node whether what it voted for in an earlier view was
/// committed there. The price is progress. Where proposals of different views
/// are lost in such a way that no quorum of nodes has voted for the same
/// operations, say two of four nodes for some and two for others, the sequence
/// stays open for good, without any node being faulty.
pub open spec fn may_vote(e: EngineView, block: BlockView) -> bool {
    e.voted.contains_key(block.sequence) ==> {
        &&& e.voted[block.sequence].view < block.view
        &&& e.voted[block.sequence].operations == block.operations
    }
}

/// The requests that a block for a sequence answers, where this node has
/// proposed its operations before.
pub open spec fn carried(e: EngineView, sequence: SequenceNumber) -> Seq<RequestId> {
    let slot = (e.voted[sequence].view, sequence);
    if e.voted.contains_key(sequence) && e.pending.contains_key(slot) {
        e.pending[slot].request_ids
    } else {
        Seq::empty()
    }
}

/// The block that a leader proposes next: the operations that it has voted for
/// at the sequence, and otherwise those of all waiting requests.
pub open spec fn next_block(e: EngineView) -> BlockView {
    BlockView {
        view: e.view,
        sequence: e.next_sequence,
        proposer: e.id,
        operations: if e.voted.contains_key(e.next_sequence) {
            e.voted[e.next_sequence].operations
        } else {
            e.requests.map_values(|request: RequestView| request.operation)
        },
        parent_hash: e.last_hash,
    }
}

/// This node's vote for a block.
pub open spec fn vote_for(e: EngineView, block: BlockView) -> MessageView {
    MessageView::Vote {
        view: block.view,
        sequence: block.sequence,
        block_hash: hash::block_hash(block),
        voter: e.id,
    }
}

/// The state of a leader that has put its next block forward.
pub open spec fn proposed(e: EngineView, now: u64) -> EngineView {
    let again = e.voted.contains_key(e.next_sequence);
    EngineView {
        requests: if again {
            e.requests
        } else {
            Seq::empty()
        },
        voted: e.voted.insert(e.next_sequence, next_block(e)),
        pending: e.pending.insert(
            (e.view, e.next_sequence),
            PendingView {
                block: next_block(e),
                request_ids: if again {
                    carried(e, e.next_sequence)
                } else {
                    e.requests.map_values(|request: RequestView| request.request_id)
                },
            },
        ),
        pace: pacemaker::pace_transition(e.pace, PaceMakerState::WaitingForVotes, now),
        ..e
    }
}

/// Whether a node proposes: it leads, requests wait, and no block is pending
/// for the slot, nor voted for there.
pub open spec fn proposes(e: EngineView) -> bool {
    &&& leads(e)
    &&& e.requests.len() > 0
    &&& !e.pending.contains_key((e.view, e.next_sequence))
    &&& may_vote(e, next_block(e))
}

/// A leader with waiting requests proposes a block and votes for it. While a
/// block of the slot is pending, the requests wait.
pub open spec fn try_propose(e: EngineView, now: u64) -> Step {
    if !proposes(e) {
        (e, Seq::empty())
    } else {
        let block = next_block(e);
        let (after, actions) = count_vote(
            proposed(e, now),
            (e.view, e.next_sequence),
            hash::block_hash(block),
            e.id,
            signed_for(e, vote_for(e, block), e.view).signature,
            now,
        );
        (
            after,
            seq![
                ActionView::Broadcast(wire_for(e, MessageView::Propose { block }, e.view)),
            ] + actions,
        )
    }
}

/// A step, and then what is waiting is proposed.
pub open spec fn then_propose(step: Step, now: u64) -> Step {
    let (after, actions) = try_propose(step.0, now);
    (after, step.1 + actions)
}

/// A proposal of the leader of the current view, for that view.
pub open spec fn is_current(e: EngineView, sender: NodeId, block: BlockView) -> bool {
    sender == leader(e, e.view) && block.view == e.view
}

/// Whether the vote that stands for the sequence of a block is for that block.
pub open spec fn voted_for(e: EngineView, block: BlockView) -> bool {
    e.voted.contains_key(block.sequence) && e.voted[block.sequence] == block
}

/// Whether a block is kept that this node may not vote for: it has not voted in
/// the slot, and it does not lead.
pub open spec fn keeps_unvoted(e: EngineView, block: BlockView) -> bool {
    !leads(e) && e.voted[block.sequence].view < block.view
}

/// A vote for a block is sent to the leader.
pub open spec fn send_vote(e: EngineView, block: BlockView) -> Seq<ActionView> {
    seq![
        ActionView::Send {
            target: leader(e, e.view),
            message: wire_for(e, vote_for(e, block), e.view),
        },
    ]
}

/// A replica gets a proposal, which has to come from the leader of the current
/// view and to be for that view. The block is kept, to be applied when it is
/// committed, and the leader gets a vote for it where the node may vote; for a
/// block that the node has voted for, it gets the same vote again. A block that
/// the node may not vote for is kept without a vote, unless it has voted for
/// another one in the slot.
pub open spec fn handle_propose(
    e: EngineView,
    sender: NodeId,
    block: BlockView,
    now: u64,
) -> Step {
    let slot = pending::slot_of(block);
    if !is_current(e, sender, block) {
        (e, Seq::empty())
    } else if voted_for(e, block) {
        (e, send_vote(e, block))
    } else if may_vote(e, block) {
        let kept = PendingView { block, request_ids: carried(e, block.sequence) };
        (
            EngineView {
                voted: e.voted.insert(block.sequence, block),
                pending: e.pending.insert(slot, kept),
                pace: pacemaker::pace_transition(e.pace, PaceMakerState::WaitingForVotes, now),
                ..e
            },
            send_vote(e, block),
        )
    } else if keeps_unvoted(e, block) {
        let kept = PendingView { block, request_ids: Seq::empty() };
        (EngineView { pending: e.pending.insert(slot, kept), ..e }, Seq::empty())
    } else {
        (e, Seq::empty())
    }
}

/// The leader of the current view gets a vote. It counts where it is for the
/// block that is pending in the slot.
pub open spec fn handle_vote(
    e: EngineView,
    voter: NodeId,
    key: SlotKey,
    block_hash: Seq<u8>,
    signature: Seq<u8>,
    now: u64,
) -> Step {
    if key.0 != e.view || !leads(e) || !e.pending.contains_key(key) || !fits_pending(
        e,
        key,
        block_hash,
    ) {
        (e, Seq::empty())
    } else {
        count_vote(e, key, block_hash, voter, signature, now)
    }
}

// ---------------------------------------------------------------------------
// Changing the view
// ---------------------------------------------------------------------------

/// The state in a new view.
pub open spec fn in_view(e: EngineView, new_view: ViewNumber, now: u64) -> EngineView {
    EngineView {
        view: new_view,
        pace: pacemaker::pace_advance(e.pace, new_view, now),
        votes: votes::without_views_below(e.votes, new_view),
        view_changes: votes::without_views_below(e.view_changes, new_view),
        ..e
    }
}

/// The node moves to a new view. Its leader announces it, with the requests for
/// the view that it has collected, and proposes what is waiting.
pub open spec fn advance_to_view(e: EngineView, new_view: ViewNumber, now: u64) -> Step {
    let moved = in_view(e, new_view, now);
    if leads(moved) {
        let announcement = MessageView::NewView {
            view: new_view,
            leader: e.id,
            view_change_proofs: votes::votes_at(moved.view_changes, (new_view, 0)),
        };
        let (after, actions) = try_propose(moved, now);
        (after, seq![ActionView::Broadcast(wire_for(e, announcement, new_view))] + actions)
    } else {
        (moved, Seq::empty())
    }
}

/// A node asks for a view, in a message that was signed as `request`. With a
/// quorum the view changes.
pub open spec fn count_view_change(
    e: EngineView,
    sender: NodeId,
    new_view: ViewNumber,
    request: Seq<u8>,
    now: u64,
) -> Step {
    let (pace, reached) = pacemaker::pace_vote(e.pace, new_view, sender);
    let counted = EngineView {
        pace,
        view_changes: if new_view > e.view {
            votes::vote_step(e.view_changes, (new_view, 0), sender, request).0
        } else {
            e.view_changes
        },
        ..e
    };
    if reached {
        advance_to_view(counted, new_view, now)
    } else {
        (counted, Seq::empty())
    }
}

/// The node asks everyone, and itself, for the next view.
pub open spec fn initiate_view_change(e: EngineView, now: u64) -> Step {
    let new_view = next(e.view);
    let request = MessageView::ViewChange {
        new_view,
        sender: e.id,
        last_committed_seq: e.last_committed,
    };
    let (after, actions) = count_view_change(
        e,
        e.id,
        new_view,
        codec::enc_signed(signed_for(e, request, new_view)),
        now,
    );
    (after, seq![ActionView::Broadcast(wire_for(e, request, new_view))] + actions)
}

/// The leader of a new view announces it.
pub open spec fn handle_new_view(e: EngineView, view: ViewNumber, now: u64) -> Step {
    if view > e.view {
        advance_to_view(e, view, now)
    } else {
        (e, Seq::empty())
    }
}

// ---------------------------------------------------------------------------
// Events
// ---------------------------------------------------------------------------

/// A signed vote. It counts only for the node that signed it, and only where its
/// signature covers nothing but the vote, so that it can stand in a certificate.
/// Then what is waiting is proposed.
pub open spec fn take_vote(
    e: EngineView,
    signed: SignedView,
    voter: NodeId,
    key: SlotKey,
    block_hash: Seq<u8>,
    now: u64,
) -> Step {
    let vote = MessageView::Vote { view: key.0, sequence: key.1, block_hash, voter };
    if voter != signed.sender || signed.payload != codec::enc_message(vote) {
        (e, Seq::empty())
    } else {
        then_propose(handle_vote(e, voter, key, block_hash, signed.signature, now), now)
    }
}

/// The signed news that a block is committed. It is taken only from the leader
/// of its view, with a certificate for the block that is pending, if any is. Then
/// what is waiting is proposed.
pub open spec fn take_commit(
    e: EngineView,
    sender: NodeId,
    key: SlotKey,
    block_hash: Seq<u8>,
    signatures: votes::Votes,
    now: u64,
) -> Step {
    if sender != leader(e, key.0) || !certifies(e, key, block_hash, signatures) || !fits_pending(
        e,
        key,
        block_hash,
    ) {
        (e, Seq::empty())
    } else {
        then_propose(handle_commit(e, key, block_hash, now), now)
    }
}

/// A signed request for a view. It counts only for the node that signed it.
pub open spec fn take_view_change(
    e: EngineView,
    signed: SignedView,
    sender: NodeId,
    new_view: ViewNumber,
    now: u64,
) -> Step {
    if sender != signed.sender {
        (e, Seq::empty())
    } else {
        count_view_change(e, sender, new_view, codec::enc_signed(signed), now)
    }
}

/// The signed announcement of a view. It is taken only from its leader.
pub open spec fn take_new_view(
    e: EngineView,
    sender: NodeId,
    view: ViewNumber,
    now: u64,
) -> Step {
    if sender != leader(e, view) {
        (e, Seq::empty())
    } else {
        handle_new_view(e, view, now)
    }
}

/// A verified message reaches its handler.
pub open spec fn dispatch(e: EngineView, signed: SignedView, msg: MessageView, now: u64) -> Step {
    match msg {
        MessageView::Propose { block } => handle_propose(e, signed.sender, block, now),
        MessageView::Vote { view, sequence, block_hash, voter } => take_vote(
            e,
            signed,
            voter,
            (view, sequence),
            block_hash,
            now,
        ),
        MessageView::Commit { view, sequence, block_hash, vote_signatures } => take_commit(
            e,
            signed.sender,
            (view, sequence),
            block_hash,
            vote_signatures,
            now,
        ),
        MessageView::ViewChange { new_view, sender, last_committed_seq } => take_view_change(
            e,
            signed,
            sender,
            new_view,
            now,
        ),
        MessageView::NewView { view, leader: announced, view_change_proofs } => take_new_view(
            e,
            signed.sender,
            view,
            now,
        ),
    }
}

/// The view that a message has to be signed for: the view that it is about to
/// start, where it is a request for a view or announces one, and otherwise the
/// current view. It is read before the signature is verified, so nothing but the
/// first twelve bytes counts: the variant number and, behind it, the view.
pub open spec fn context_view(payload: Seq<u8>, current: ViewNumber) -> ViewNumber {
    let variant = octets::le_value(payload.take(4));
    if payload.len() >= 12 && (variant == 3 || variant == 4) {
        octets::le_value(payload.subrange(4, 12)) as ViewNumber
    } else {
        current
    }
}

/// What a signed message is to this node.
pub open spec fn judged(e: EngineView, signed: SignedView) -> Result<
    MessageView,
    crypto::CryptoErrorView,
> {
    crypto::verdict(
        e.keys,
        signed,
        crypto::signing_input(
            e.chain_id,
            context_view(signed.payload, e.view),
            signed.payload,
        ),
    )
}

/// A signed message that was judged reaches its handler where it is in order,
/// and is ignored otherwise.
pub open spec fn handle_judged(
    e: EngineView,
    signed: SignedView,
    result: Result<MessageView, crypto::CryptoErrorView>,
    now: u64,
) -> Step {
    match result {
        Ok(msg) => dispatch(e, signed, msg, now),
        Err(_) => (e, Seq::empty()),
    }
}

/// Bytes of a consensus message arrive. They are ignored unless they are a
/// signed message that is in order.
pub open spec fn handle_consensus_wire(e: EngineView, raw: Seq<u8>, now: u64) -> Step {
    match codec::dec_signed(raw) {
        Ok((signed, _)) => handle_judged(e, signed, judged(e, signed), now),
        Err(_) => (e, Seq::empty()),
    }
}

/// A wire message arrives. Only consensus messages are handled.
pub open spec fn handle_wire_message(e: EngineView, wire: WireView, now: u64) -> Step {
    match wire.msg_type {
        MessageType::Consensus => handle_consensus_wire(e, wire.payload, now),
        _ => (e, Seq::empty()),
    }
}

/// A client request arrives. The leader proposes it; any other node says who
/// leads.
pub open spec fn handle_client_request(e: EngineView, request: RequestView, now: u64) -> Step {
    if leads(e) {
        try_propose(EngineView { requests: e.requests.push(request), ..e }, now)
    } else {
        (
            e,
            seq![
                ActionView::Reply(
                    ResponseView {
                        request_id: request.request_id,
                        success: false,
                        value: None,
                        error: Some(
                            "not leader; current leader is node "@ + text::decimal(
                                leader(e, e.view) as nat,
                            ),
                        ),
                    },
                ),
            ],
        )
    }
}

/// The current view times out.
pub open spec fn handle_timeout(e: EngineView, now: u64) -> Step {
    initiate_view_change(
        EngineView {
            pace: pacemaker::pace_transition(e.pace, PaceMakerState::ViewChanging, now),
            ..e
        },
        now,
    )
}

/// The state after activity was recorded.
pub open spec fn active(e: EngineView, now: u64) -> EngineView {
    EngineView { pace: pacemaker::pace_activity(e.pace, now), ..e }
}

} // verus!
