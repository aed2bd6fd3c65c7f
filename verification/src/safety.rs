//! What the protocol promises.
use vstd::prelude::*;

use crate::codec;
use crate::crypto;
use crate::engine;
use crate::hash;
use crate::octets;
use crate::pacemaker;
use crate::pacemaker::PaceMakerState;
use crate::pending;
use crate::protocol;
use crate::protocol::{ActionView, EngineView, Step};
use crate::roundtrip;
use crate::types;
use crate::types::{BlockView, MessageType, MessageView, NodeConfig, NodeId, OpView, RequestView, SequenceNumber, SignedView, ViewNumber, WireView};
use crate::votes;
use crate::votes::SlotKey;

verus! {

/// What can happen to a node.
pub enum EventView {
    /// A wire message arrives.
    Wire(WireView),
    /// A client request arrives.
    Request(RequestView),
    /// The current view times out.
    Timeout,
}

/// The state after an event and the actions that it asks for.
pub open spec fn on_event(e: EngineView, event: EventView, now: u64) -> Step {
    match event {
        EventView::Wire(wire) => protocol::handle_wire_message(e, wire, now),
        EventView::Request(request) => protocol::handle_client_request(e, request, now),
        EventView::Timeout => protocol::handle_timeout(e, now),
    }
}

// ---------------------------------------------------------------------------
// What every event keeps
// ---------------------------------------------------------------------------

/// The pacemaker is in the view that the node is in, no node has two votes for
/// a slot, and the requests for a view to come are those of the nodes that have
/// asked for it.
pub open spec fn consistent(e: EngineView) -> bool {
    &&& e.pace.view == e.view
    &&& votes::valid_votes(e.votes)
    &&& votes::valid_votes(e.view_changes)
    &&& forall|view: ViewNumber, node: NodeId| #[trigger]
        e.pace.votes.contains((view, node)) ==> view > e.view
    &&& forall|view: ViewNumber, node: NodeId|
        view > e.view ==> (#[trigger] e.pace.votes.contains((view, node)) == votes::has_voted(
            votes::votes_at(e.view_changes, (view, 0)),
            node,
        ))
}

/// A node does not give up what it has voted for: at each sequence it stays with
/// the operations, and in each slot with the block.
pub open spec fn keeps_votes(e: EngineView, after: EngineView) -> bool {
    forall|sequence: SequenceNumber| #[trigger]
        e.voted.contains_key(sequence) ==> {
            &&& after.voted.contains_key(sequence)
            &&& after.voted[sequence].operations == e.voted[sequence].operations
            &&& after.voted[sequence].view >= e.voted[sequence].view
            &&& after.voted[sequence].view == e.voted[sequence].view ==> after.voted[sequence]
                == e.voted[sequence]
        }
}

/// How a state may follow on another: the node, the cluster and the quorum are
/// the same, neither the view nor the log has gone back, nothing is uncommitted
/// or applied otherwise, and no vote is given up.
pub open spec fn follows_on(e: EngineView, after: EngineView) -> bool {
    &&& after.id == e.id
    &&& after.peers == e.peers
    &&& after.chain_id == e.chain_id
    &&& after.signer == e.signer
    &&& after.seed == e.seed
    &&& after.keys == e.keys
    &&& after.votes.quorum == e.votes.quorum
    &&& after.pace.quorum == e.pace.quorum
    &&& after.pace.base == e.pace.base
    &&& after.view >= e.view
    &&& after.last_committed >= e.last_committed
    &&& after.next_sequence >= e.next_sequence
    &&& e.committed.subset_of(after.committed)
    &&& forall|sequence: SequenceNumber| #[trigger]
        e.applied.contains_key(sequence) ==> after.applied.contains_key(sequence)
            && after.applied[sequence] == e.applied[sequence]
    &&& keeps_votes(e, after)
}

proof fn lemma_count_vote_keeps(
    e: EngineView,
    key: SlotKey,
    block_hash: Seq<u8>,
    voter: NodeId,
    signature: Seq<u8>,
    now: u64,
)
    requires
        consistent(e),
    ensures
        consistent(protocol::count_vote(e, key, block_hash, voter, signature, now).0),
        follows_on(e, protocol::count_vote(e, key, block_hash, voter, signature, now).0),
{
    votes::law_quorum_of_distinct_voters(e.votes, key, voter, signature);
}

proof fn lemma_try_propose_keeps(e: EngineView, now: u64)
    requires
        consistent(e),
    ensures
        consistent(protocol::try_propose(e, now).0),
        follows_on(e, protocol::try_propose(e, now).0),
{
    let block = protocol::next_block(e);
    lemma_count_vote_keeps(
        protocol::proposed(e, now),
        (e.view, e.next_sequence),
        hash::block_hash(block),
        e.id,
        protocol::signed_for(e, protocol::vote_for(e, block), e.view).signature,
        now,
    );
}

proof fn lemma_then_propose_keeps(e: EngineView, step: Step, now: u64)
    requires
        consistent(step.0),
        follows_on(e, step.0),
    ensures
        consistent(protocol::then_propose(step, now).0),
        follows_on(e, protocol::then_propose(step, now).0),
{
    lemma_try_propose_keeps(step.0, now);
}

proof fn lemma_advance_keeps(e: EngineView, new_view: ViewNumber, now: u64)
    requires
        consistent(e),
        new_view >= e.view,
    ensures
        consistent(protocol::advance_to_view(e, new_view, now).0),
        follows_on(e, protocol::advance_to_view(e, new_view, now).0),
{
    lemma_try_propose_keeps(protocol::in_view(e, new_view, now), now);
}

proof fn lemma_view_change_keeps(
    e: EngineView,
    sender: NodeId,
    new_view: ViewNumber,
    request: Seq<u8>,
    now: u64,
)
    requires
        consistent(e),
    ensures
        consistent(protocol::count_view_change(e, sender, new_view, request, now).0),
        follows_on(e, protocol::count_view_change(e, sender, new_view, request, now).0),
{
    let counted = lemma_request_counted(e, sender, new_view, request);
    if pacemaker::pace_vote(e.pace, new_view, sender).1 {
        lemma_advance_keeps(counted, new_view, now);
    }
}

/// The state after a request for a view is counted, before anything follows.
pub proof fn lemma_request_counted(
    e: EngineView,
    sender: NodeId,
    new_view: ViewNumber,
    request: Seq<u8>,
) -> (counted: EngineView)
    requires
        consistent(e),
    ensures
        consistent(counted),
        follows_on(e, counted),
        counted == (EngineView {
            pace: pacemaker::pace_vote(e.pace, new_view, sender).0,
            view_changes: if new_view > e.view {
                votes::vote_step(e.view_changes, (new_view, 0), sender, request).0
            } else {
                e.view_changes
            },
            ..e
        }),
{
    let counted = EngineView {
        pace: pacemaker::pace_vote(e.pace, new_view, sender).0,
        view_changes: if new_view > e.view {
            votes::vote_step(e.view_changes, (new_view, 0), sender, request).0
        } else {
            e.view_changes
        },
        ..e
    };
    if new_view > e.view {
        let key = (new_view, 0u64);
        let before = votes::votes_at(e.view_changes, key);
        votes::law_quorum_of_distinct_voters(e.view_changes, key, sender, request);
        assert forall|view: ViewNumber, node: NodeId| view > e.view implies (
        #[trigger] counted.pace.votes.contains((view, node)) == votes::has_voted(
            votes::votes_at(counted.view_changes, (view, 0)),
            node,
        )) by {
            assert(e.pace.votes.contains((view, node)) == votes::has_voted(
                votes::votes_at(e.view_changes, (view, 0)),
                node,
            ));
            if view != new_view {
                votes::law_slots_are_independent(
                    e.view_changes,
                    key,
                    (view, 0),
                    sender,
                    request,
                );
            } else if !votes::has_voted(before, sender) {
                let more = before.push((sender, request));
                assert(more[before.len() as int].0 == sender);
                if votes::has_voted(before, node) {
                    let i = choose|i: int|
                        0 <= i < before.len() && (#[trigger] before[i]).0 == node;
                    assert(more[i].0 == node);
                }
                if votes::has_voted(more, node) && node != sender {
                    let i = choose|i: int| 0 <= i < more.len() && (#[trigger] more[i]).0 == node;
                    assert(before[i].0 == node);
                }
            }
        }
    }
    counted
}

proof fn lemma_dispatch_keeps(e: EngineView, signed: SignedView, msg: MessageView, now: u64)
    requires
        consistent(e),
    ensures
        consistent(protocol::dispatch(e, signed, msg, now).0),
        follows_on(e, protocol::dispatch(e, signed, msg, now).0),
{
    match msg {
        MessageView::Vote { view, sequence, block_hash, voter } => {
            let key = (view, sequence);
            lemma_count_vote_keeps(e, key, block_hash, voter, signed.signature, now);
            lemma_then_propose_keeps(
                e,
                protocol::handle_vote(e, voter, key, block_hash, signed.signature, now),
                now,
            );
        },
        MessageView::Commit { view, sequence, block_hash, .. } => {
            lemma_then_propose_keeps(
                e,
                protocol::handle_commit(e, (view, sequence), block_hash, now),
                now,
            );
        },
        MessageView::ViewChange { new_view, sender, .. } => {
            lemma_view_change_keeps(e, sender, new_view, codec::enc_signed(signed), now);
        },
        MessageView::NewView { view, .. } => {
            if view > e.view {
                lemma_advance_keeps(e, view, now);
            }
        },
        _ => {},
    }
}

/// Whatever happens to a node, neither its view nor its log goes back, what is
/// committed stays committed, no vote is given up, its pacemaker is in its view,
/// and nobody is counted twice.
pub proof fn law_events_keep_progress(e: EngineView, event: EventView, now: u64)
    requires
        consistent(e),
    ensures
        consistent(on_event(e, event, now).0),
        follows_on(e, on_event(e, event, now).0),
{
    match event {
        EventView::Wire(wire) => {
            if wire.msg_type == MessageType::Consensus {
                match codec::dec_signed(wire.payload) {
                    Ok((signed, _)) => {
                        match protocol::judged(e, signed) {
                            Ok(msg) => lemma_dispatch_keeps(e, signed, msg, now),
                            Err(_) => {},
                        }
                    },
                    Err(_) => {},
                }
            }
        },
        EventView::Request(request) => {
            if protocol::leads(e) {
                lemma_try_propose_keeps(
                    EngineView { requests: e.requests.push(request), ..e },
                    now,
                );
            }
        },
        EventView::Timeout => {
            let changing = EngineView {
                pace: pacemaker::pace_transition(e.pace, PaceMakerState::ViewChanging, now),
                ..e
            };
            let new_view = protocol::next(e.view);
            let request = MessageView::ViewChange {
                new_view,
                sender: e.id,
                last_committed_seq: e.last_committed,
            };
            lemma_view_change_keeps(
                changing,
                e.id,
                new_view,
                codec::enc_signed(protocol::signed_for(changing, request, new_view)),
                now,
            );
        },
    }
}

// ---------------------------------------------------------------------------
// Authentication
// ---------------------------------------------------------------------------

/// A message that is not in order is ignored: neither the state changes nor
/// does anything happen.
pub proof fn law_unverified_ignored(e: EngineView, wire: WireView, now: u64)
    requires
        match codec::dec_signed(wire.payload) {
            Ok((signed, _)) => protocol::judged(e, signed) is Err,
            Err(_) => true,
        },
    ensures
        protocol::handle_wire_message(e, wire, now) == (e, Seq::<ActionView>::empty()),
{
}

/// A message that is handled comes from a node whose key is registered, and
/// its signature verifies under that key for this node's chain and the view
/// that the message belongs to.
pub proof fn law_handled_is_authentic(e: EngineView, signed: SignedView)
    requires
        protocol::judged(e, signed) is Ok,
    ensures
        e.keys.contains_key(signed.sender),
        crypto::signature_verdict(
            e.keys[signed.sender],
            crypto::signing_input(
                e.chain_id,
                protocol::context_view(signed.payload, e.view),
                signed.payload,
            ),
            signed.signature,
        ) is Ok,
{
}

/// The view that a message has to be signed for.
pub open spec fn view_of(msg: MessageView, current: ViewNumber) -> ViewNumber {
    match msg {
        MessageView::ViewChange { new_view, .. } => new_view,
        MessageView::NewView { view, .. } => view,
        _ => current,
    }
}

/// The view that is read off a payload before its signature is verified is the
/// view that the message it holds has to be signed for.
pub proof fn law_context_view_is_that_of_the_message(
    payload: Seq<u8>,
    msg: MessageView,
    rest: Seq<u8>,
    current: ViewNumber,
)
    requires
        codec::dec_message(payload) == Ok::<_, codec::DecodeError>((msg, rest)),
    ensures
        protocol::context_view(payload, current) == view_of(msg, current),
{
    if payload.len() >= 12 {
        assert(payload.skip(4).take(8) =~= payload.subrange(4, 12));
    }
    octets::lemma_pow256_values();
    octets::lemma_le_bytes_of_value(payload.take(4));
}

/// What a node of the chain puts on the wire reaches the handler of another
/// node that knows its key, where it is signed for the view that the receiver
/// expects and the signature verifies.
pub proof fn law_message_reaches_handler(
    sender: EngineView,
    receiver: EngineView,
    msg: MessageView,
    now: u64,
)
    requires
        sender.chain_id == receiver.chain_id,
        receiver.keys.contains_key(sender.signer),
        roundtrip::message_fits(msg),
        roundtrip::short(codec::enc_message(msg)),
    ensures
        ({
            let view = view_of(msg, receiver.view);
            let signed = protocol::signed_for(sender, msg, view);
            crypto::signature_verdict(
                receiver.keys[sender.signer],
                crypto::signing_input(sender.chain_id, view, signed.payload),
                signed.signature,
            ) is Ok ==> protocol::handle_wire_message(
                receiver,
                protocol::wire_for(sender, msg, view),
                now,
            ) == protocol::dispatch(receiver, signed, msg, now)
        }),
{
    let view = view_of(msg, receiver.view);
    let signed = protocol::signed_for(sender, msg, view);
    let input = crypto::signing_input(sender.chain_id, view, signed.payload);
    roundtrip::law_message_roundtrip(msg, Seq::empty());
    assert(signed.payload + Seq::<u8>::empty() =~= signed.payload);
    law_context_view_is_that_of_the_message(signed.payload, msg, Seq::empty(), receiver.view);
    if crypto::signature_verdict(receiver.keys[sender.signer], input, signed.signature) is Ok {
        octets::lemma_pow256_values();
        roundtrip::law_signed_roundtrip(signed, Seq::empty());
        assert(codec::enc_signed(signed) + Seq::<u8>::empty() =~= codec::enc_signed(signed));
    }
}

// ---------------------------------------------------------------------------
// Proposals and votes
// ---------------------------------------------------------------------------

/// A proposal of a node that does not lead the current view is ignored, and so
/// is one for another view, and one for a slot in which this node has voted for
/// another block.
pub proof fn law_invalid_proposal_ignored(
    e: EngineView,
    sender: NodeId,
    block: BlockView,
    now: u64,
)
    requires
        sender != protocol::leader(e, e.view) || block.view != e.view || (e.voted.contains_key(
            block.sequence,
        ) && e.voted[block.sequence].view == block.view && e.voted[block.sequence] != block),
    ensures
        protocol::handle_propose(e, sender, block, now) == (e, Seq::<ActionView>::empty()),
{
}

/// A proposal of the leader of the current view, for that view, is voted for,
/// unless it would make this node give up what it voted for at the sequence: the
/// leader gets a vote with its hash, and nothing else happens but that the block
/// is kept.
pub proof fn law_valid_proposal_voted_for(
    e: EngineView,
    sender: NodeId,
    block: BlockView,
    now: u64,
)
    requires
        sender == protocol::leader(e, e.view),
        block.view == e.view,
        protocol::may_vote(e, block) || protocol::voted_for(e, block),
    ensures
        ({
            let slot = pending::slot_of(block);
            let (after, actions) = protocol::handle_propose(e, sender, block, now);
            &&& !protocol::voted_for(e, block) ==> after.pending.contains_key(slot)
                && after.pending[slot].block == block
            &&& protocol::voted_for(after, block)
            &&& actions == seq![
                ActionView::Send {
                    target: sender,
                    message: protocol::wire_for(
                        e,
                        MessageView::Vote {
                            view: slot.0,
                            sequence: slot.1,
                            block_hash: hash::block_hash(block),
                            voter: e.id,
                        },
                        e.view,
                    ),
                },
            ]
        }),
{
}

/// A proposal that arrives again is answered again, with the same vote, and
/// changes nothing: where the first vote was lost, the second one counts.
pub proof fn law_proposal_answered_again(
    e: EngineView,
    sender: NodeId,
    block: BlockView,
    now: u64,
    later: u64,
)
    requires
        protocol::is_current(e, sender, block),
        protocol::may_vote(e, block),
    ensures
        ({
            let first = protocol::handle_propose(e, sender, block, now);
            protocol::handle_propose(first.0, sender, block, later) == first
        }),
{
}

/// A block that a replica may not vote for is kept all the same, unless it has
/// voted in the slot: when it is committed, it is applied. It answers nobody.
pub proof fn law_other_proposal_kept(e: EngineView, sender: NodeId, block: BlockView, now: u64)
    requires
        protocol::is_current(e, sender, block),
        !protocol::may_vote(e, block),
        protocol::keeps_unvoted(e, block),
    ensures
        ({
            let slot = pending::slot_of(block);
            let (after, actions) = protocol::handle_propose(e, sender, block, now);
            &&& after.pending.contains_key(slot)
            &&& after.pending[slot].block == block
            &&& after.pending[slot].request_ids.len() == 0
            &&& after.voted == e.voted
            &&& actions.len() == 0
        }),
{
}

/// A node that has voted in a slot votes for nothing else there, as a replica or
/// as the leader: whatever is proposed changes nothing, and all that it sends is
/// the vote that it has cast.
pub proof fn law_one_vote_per_slot(e: EngineView, sender: NodeId, block: BlockView, now: u64)
    requires
        e.voted.contains_key(block.sequence),
        e.voted[block.sequence].view == block.view,
    ensures
        ({
            let (after, actions) = protocol::handle_propose(e, sender, block, now);
            &&& after == e
            &&& actions.len() == 0 || actions == protocol::send_vote(e, e.voted[block.sequence])
        }),
        pending::slot_of(block) == (e.view, e.next_sequence) ==> protocol::try_propose(e, now) == (
            e,
            Seq::<ActionView>::empty(),
        ),
{
}

/// A leader puts one block into a slot: while one is pending there, it proposes
/// nothing.
pub proof fn law_one_proposal_per_slot(e: EngineView, now: u64)
    requires
        e.pending.contains_key((e.view, e.next_sequence)),
    ensures
        protocol::try_propose(e, now) == (e, Seq::<ActionView>::empty()),
{
}

/// A block that continues the log holds the hash of the block behind which it
/// goes on; the first block holds eight zero bytes.
pub proof fn law_blocks_are_chained(e: EngineView, key: SlotKey, block_hash: Seq<u8>, now: u64)
    requires
        protocol::next(key.1) >= e.next_sequence,
    ensures
        protocol::next_block(protocol::settle(e, key, block_hash, now).0).parent_hash
            == block_hash,
        protocol::next_block(protocol::settle(e, key, block_hash, now).0).sequence
            == protocol::next(key.1),
{
}

/// A vote for another view, one that reaches a node that does not lead, and one
/// for another block than the pending one is ignored.
pub proof fn law_stray_vote_ignored(
    e: EngineView,
    voter: NodeId,
    key: SlotKey,
    block_hash: Seq<u8>,
    signature: Seq<u8>,
    now: u64,
)
    requires
        key.0 != e.view || !protocol::leads(e) || !e.pending.contains_key(key) || block_hash
            != hash::block_hash(e.pending[key].block),
    ensures
        protocol::handle_vote(e, voter, key, block_hash, signature, now) == (
            e,
            Seq::<ActionView>::empty(),
        ),
{
}

/// A vote and a request for a view count only for the node that signed them; a
/// commit and a new view are taken only from the leader of their view, and a
/// commit only with the votes of a quorum for the block that is pending.
pub proof fn law_messages_from_others_ignored(
    e: EngineView,
    signed: SignedView,
    msg: MessageView,
    now: u64,
)
    requires
        match msg {
            MessageView::Propose { .. } => signed.sender != protocol::leader(e, e.view),
            MessageView::Vote { voter, .. } => voter != signed.sender,
            MessageView::Commit { view, sequence, block_hash, vote_signatures } => signed.sender
                != protocol::leader(e, view) || !protocol::certifies(
                e,
                (view, sequence),
                block_hash,
                vote_signatures,
            ) || !protocol::fits_pending(e, (view, sequence), block_hash),
            MessageView::ViewChange { sender, .. } => sender != signed.sender,
            MessageView::NewView { view, .. } => signed.sender != protocol::leader(e, view),
        },
    ensures
        protocol::dispatch(e, signed, msg, now) == (e, Seq::<ActionView>::empty()),
{
}

/// A vote has an effect beyond being counted only with a quorum: then at least
/// as many different voters as the quorum asks for have voted for the slot, and
/// the certificate that is broadcast holds their signatures.
pub proof fn law_commit_needs_quorum(
    e: EngineView,
    voter: NodeId,
    key: SlotKey,
    block_hash: Seq<u8>,
    signature: Seq<u8>,
    now: u64,
)
    requires
        consistent(e),
        protocol::handle_vote(e, voter, key, block_hash, signature, now).1.len() > 0
            || protocol::handle_vote(e, voter, key, block_hash, signature, now).0.committed
            != e.committed,
    ensures
        ({
            let after = protocol::handle_vote(e, voter, key, block_hash, signature, now);
            let collected = votes::votes_at(after.0.votes, key);
            &&& protocol::leads(e) && key.0 == e.view
            &&& e.pending.contains_key(key)
            &&& block_hash == hash::block_hash(e.pending[key].block)
            &&& collected.len() >= e.votes.quorum
            &&& votes::one_vote_each(collected)
            &&& after.0.committed == e.committed.insert(block_hash)
            &&& !e.committed.contains(block_hash)
            &&& after.1[0] == ActionView::Broadcast(
                protocol::wire_for(
                    e,
                    MessageView::Commit {
                        view: key.0,
                        sequence: key.1,
                        block_hash,
                        vote_signatures: collected,
                    },
                    e.view,
                ),
            )
        }),
{
    votes::law_quorum_of_distinct_voters(e.votes, key, voter, signature);
}

/// The vote that completes a quorum commits: the hash is committed, the pending
/// block is applied and its clients are answered, and the log goes on.
pub proof fn law_quorum_commits(
    e: EngineView,
    voter: NodeId,
    key: SlotKey,
    block_hash: Seq<u8>,
    signature: Seq<u8>,
    now: u64,
)
    requires
        protocol::leads(e),
        key.0 == e.view,
        !votes::has_voted(votes::votes_at(e.votes, key), voter),
        votes::votes_at(e.votes, key).len() + 1 >= e.votes.quorum,
        !e.committed.contains(block_hash),
        !e.applied.contains_key(key.1),
        e.pending.contains_key(key),
        block_hash == hash::block_hash(e.pending[key].block),
    ensures
        ({
            let (after, actions) = protocol::handle_vote(
                e,
                voter,
                key,
                block_hash,
                signature,
                now,
            );
            &&& after.committed.contains(block_hash)
            &&& after.applied.contains_key(key.1)
            &&& after.last_committed == protocol::higher(e.last_committed, key.1)
            &&& after.next_sequence == protocol::higher(e.next_sequence, protocol::next(key.1))
            &&& after.pace.state == PaceMakerState::Committed
            &&& !after.pending.contains_key(key)
            &&& actions.skip(1) == protocol::all_writes(e.pending[key].block.operations)
                + protocol::answers(e.pending[key])
        }),
{
    let (after, actions) = protocol::handle_vote(e, voter, key, block_hash, signature, now);
    assert(actions.skip(1) =~= protocol::all_writes(e.pending[key].block.operations)
        + protocol::answers(e.pending[key]));
}

/// A replica that hears of a commit from the leader, with a certificate for the
/// block that it holds, applies the block: the operations are written before
/// anything else happens, and the log goes on.
pub proof fn law_certificate_commits(
    e: EngineView,
    signed: SignedView,
    key: SlotKey,
    block_hash: Seq<u8>,
    signatures: votes::Votes,
    now: u64,
)
    requires
        signed.sender == protocol::leader(e, key.0),
        protocol::certifies(e, key, block_hash, signatures),
        e.pending.contains_key(key),
        block_hash == hash::block_hash(e.pending[key].block),
        !e.committed.contains(block_hash),
        !e.applied.contains_key(key.1),
    ensures
        ({
            let msg = MessageView::Commit {
                view: key.0,
                sequence: key.1,
                block_hash,
                vote_signatures: signatures,
            };
            let (after, actions) = protocol::dispatch(e, signed, msg, now);
            let written = protocol::all_writes(e.pending[key].block.operations);
            &&& after.committed.contains(block_hash)
            &&& after.applied.contains_key(key.1)
            &&& after.applied[key.1] == e.pending[key].block.operations
            &&& after.last_committed >= key.1
            &&& after.next_sequence >= protocol::next(key.1)
            &&& actions.take(written.len() as int) == written
        }),
{
    let msg = MessageView::Commit {
        view: key.0,
        sequence: key.1,
        block_hash,
        vote_signatures: signatures,
    };
    let step = protocol::handle_commit(e, key, block_hash, now);
    let (after, actions) = protocol::dispatch(e, signed, msg, now);
    let written = protocol::all_writes(e.pending[key].block.operations);
    lemma_try_propose_goes_on(step.0, now);
    assert(actions.take(written.len() as int) =~= written);
}

/// Proposing takes nothing back.
proof fn lemma_try_propose_goes_on(e: EngineView, now: u64)
    ensures
        ({
            let after = protocol::try_propose(e, now).0;
            &&& e.committed.subset_of(after.committed)
            &&& after.last_committed >= e.last_committed
            &&& after.next_sequence >= e.next_sequence
            &&& forall|s: SequenceNumber| #[trigger]
                e.applied.contains_key(s) ==> after.applied.contains_key(s) && after.applied[s]
                    == e.applied[s]
        }),
{
}

/// A hash that is committed is not committed again, by nobody's word.
pub proof fn law_no_double_commit(e: EngineView, key: SlotKey, block_hash: Seq<u8>, now: u64)
    requires
        e.committed.contains(block_hash),
    ensures
        protocol::commit_block(e, key, block_hash, now) == (e, Seq::<ActionView>::empty()),
        protocol::handle_commit(e, key, block_hash, now) == (e, Seq::<ActionView>::empty()),
{
}

/// A sequence is applied once: after that nothing is written for it and nobody
/// is answered, whatever block is settled there.
pub proof fn law_sequence_applied_once(
    e: EngineView,
    key: SlotKey,
    block_hash: Seq<u8>,
    now: u64,
)
    ensures
        e.pending.contains_key(key) ==> protocol::settle(
            e,
            key,
            block_hash,
            now,
        ).0.applied.contains_key(key.1),
        e.applied.contains_key(key.1) ==> protocol::settle(e, key, block_hash, now).1 == Seq::<
            ActionView,
        >::empty(),
        !protocol::settle(e, key, block_hash, now).0.pending.contains_key(key),
{
}

// ---------------------------------------------------------------------------
// Clients
// ---------------------------------------------------------------------------

/// A node that does not lead answers a request with the leader's number and
/// does nothing else.
pub proof fn law_replica_names_leader(e: EngineView, request: RequestView, now: u64)
    requires
        !protocol::leads(e),
    ensures
        protocol::handle_client_request(e, request, now).0 == e,
        protocol::handle_client_request(e, request, now).1.len() == 1,
        protocol::handle_client_request(e, request, now).1[0] matches ActionView::Reply(response)
            && response.request_id == request.request_id && !response.success,
{
}

/// A request that a leader takes is proposed at once where the slot is free: no
/// request is left waiting.
pub proof fn law_requests_proposed_at_once(e: EngineView, request: RequestView, now: u64)
    requires
        protocol::leads(e),
        !e.pending.contains_key((e.view, e.next_sequence)),
        !e.voted.contains_key(e.next_sequence),
    ensures
        protocol::handle_client_request(e, request, now).0.requests.len() == 0,
        protocol::handle_client_request(e, request, now).1[0] == ActionView::Broadcast(
            protocol::wire_for(
                e,
                MessageView::Propose {
                    block: protocol::next_block(
                        EngineView { requests: e.requests.push(request), ..e },
                    ),
                },
                e.view,
            ),
        ),
        protocol::next_block(
            EngineView { requests: e.requests.push(request), ..e },
        ).operations.last() == request.operation,
{
}

/// While a block is pending in the slot, a request waits, and nothing happens.
pub proof fn law_requests_wait(e: EngineView, request: RequestView, now: u64)
    requires
        protocol::leads(e),
        e.pending.contains_key((e.view, e.next_sequence)),
    ensures
        protocol::handle_client_request(e, request, now) == (
            EngineView { requests: e.requests.push(request), ..e },
            Seq::<ActionView>::empty(),
        ),
{
}

/// When the slot is settled, the leader proposes what waits, behind what settling
/// asked for.
pub proof fn law_waiting_requests_proposed(step: Step, now: u64)
    requires
        protocol::proposes(step.0),
    ensures
        ({
            let (after, actions) = protocol::then_propose(step, now);
            &&& actions.take(step.1.len() as int) == step.1
            &&& actions[step.1.len() as int] == ActionView::Broadcast(
                protocol::wire_for(
                    step.0,
                    MessageView::Propose { block: protocol::next_block(step.0) },
                    step.0.view,
                ),
            )
            &&& after.requests.len() == 0 || step.0.voted.contains_key(step.0.next_sequence)
        }),
{
    let actions = protocol::then_propose(step, now).1;
    assert(actions.take(step.1.len() as int) =~= step.1);
}

/// A leader that has voted for operations at the sequence puts those forward,
/// and answers the requests that they came from; what waits, waits on.
pub proof fn law_voted_operations_proposed_again(e: EngineView, now: u64)
    requires
        protocol::proposes(e),
        e.voted.contains_key(e.next_sequence),
    ensures
        protocol::next_block(e).operations == e.voted[e.next_sequence].operations,
        protocol::proposed(e, now).requests == e.requests,
        protocol::proposed(e, now).pending[(e.view, e.next_sequence)].request_ids
            == protocol::carried(e, e.next_sequence),
{
}

/// Every request of a proposed block is answered when the block is settled, in
/// the order of the requests: a read with what the store holds, everything else
/// with success.
pub proof fn law_committed_requests_answered(e: EngineView, now: u64)
    requires
        !e.voted.contains_key(e.next_sequence),
    ensures
        ({
            let key = (e.view, e.next_sequence);
            let pending = protocol::proposed(e, now).pending[key];
            let answers = protocol::answers(pending);
            &&& answers.len() == e.requests.len()
            &&& forall|i: int|
                0 <= i < e.requests.len() ==> #[trigger] answers[i] == protocol::answer(
                    e.requests[i].request_id,
                    e.requests[i].operation,
                )
        }),
{
}

/// A leader gets votes for a block, one after the other, each signed by its voter.
pub open spec fn with_votes(
    e: EngineView,
    key: SlotKey,
    block_hash: Seq<u8>,
    cast: votes::Votes,
    now: u64,
) -> Step
    decreases cast.len(),
{
    if cast.len() == 0 {
        (e, Seq::empty())
    } else {
        let (before, actions) = with_votes(e, key, block_hash, cast.drop_last(), now);
        let vote = MessageView::Vote {
            view: key.0,
            sequence: key.1,
            block_hash,
            voter: cast.last().0,
        };
        let signed = SignedView {
            sender: cast.last().0,
            payload: codec::enc_message(vote),
            signature: cast.last().1,
        };
        let (after, more) = protocol::dispatch(before, signed, vote, now);
        (after, actions + more)
    }
}

/// Votes below the quorum are only counted.
proof fn lemma_votes_counted(
    e: EngineView,
    key: SlotKey,
    block_hash: Seq<u8>,
    own: votes::Votes,
    cast: votes::Votes,
    now: u64,
)
    requires
        protocol::leads(e),
        key == (e.view, e.next_sequence),
        e.pending.contains_key(key),
        block_hash == hash::block_hash(e.pending[key].block),
        e.votes.slots.contains_key(key),
        e.votes.slots[key] == own,
        votes::one_vote_each(own + cast),
        own.len() + cast.len() < e.votes.quorum,
    ensures
        with_votes(e, key, block_hash, cast, now) == (
            EngineView {
                votes: votes::VotesView {
                    slots: e.votes.slots.insert(key, own + cast),
                    ..e.votes
                },
                ..e
            },
            Seq::<ActionView>::empty(),
        ),
    decreases cast.len(),
{
    if cast.len() == 0 {
        assert(own + cast =~= own);
        assert(e.votes.slots.insert(key, own) =~= e.votes.slots);
    } else {
        let front = cast.drop_last();
        let last = cast.last();
        let before = own + front;
        assert forall|i: int, j: int| 0 <= i < j < before.len() implies (#[trigger] before[i]).0
            != (#[trigger] before[j]).0 by {
            assert((own + cast)[i] == before[i] && (own + cast)[j] == before[j]);
        }
        lemma_votes_counted(e, key, block_hash, own, front, now);
        lemma_new_voter(own, cast);
        assert(before.push(last) =~= own + cast);
        assert(e.votes.slots.insert(key, before).insert(key, own + cast)
            =~= e.votes.slots.insert(key, own + cast));
    }
}

/// The last of votes by different nodes is by a node that has not voted before.
proof fn lemma_new_voter(own: votes::Votes, cast: votes::Votes)
    requires
        votes::one_vote_each(own + cast),
        cast.len() > 0,
    ensures
        !votes::has_voted(own + cast.drop_last(), cast.last().0),
{
    let all = own + cast;
    let before = own + cast.drop_last();
    if votes::has_voted(before, cast.last().0) {
        let i = choose|i: int| 0 <= i < before.len() && (#[trigger] before[i]).0 == cast.last().0;
        assert(all[i] == before[i]);
        assert(all[all.len() - 1] == cast.last());
    }
}

/// Progress: where a leader takes a request in a free slot and gets the votes of
/// as many other nodes as a quorum needs besides its own, none where the quorum is
/// one, the request is committed: everyone is sent the proposal and the
/// certificate with all the votes, the operation is applied, and the client is
/// answered in the end.
pub proof fn law_request_is_committed(
    e: EngineView,
    request: RequestView,
    cast: votes::Votes,
    now: u64,
)
    requires
        protocol::leads(e),
        !e.pending.contains_key((e.view, e.next_sequence)),
        !e.voted.contains_key(e.next_sequence),
        !e.applied.contains_key(e.next_sequence),
        !e.votes.slots.contains_key((e.view, e.next_sequence)),
        votes::one_vote_each(cast),
        !votes::has_voted(cast, e.id),
        cast.len() + 1 == e.votes.quorum,
    ensures
        ({
            let key = (e.view, e.next_sequence);
            let waiting = EngineView { requests: e.requests.push(request), ..e };
            let block = protocol::next_block(waiting);
            let block_hash = hash::block_hash(block);
            let own = (
                e.id,
                protocol::signed_for(e, protocol::vote_for(e, block), e.view).signature,
            );
            let asked = protocol::handle_client_request(e, request, now);
            let (after, more) = with_votes(asked.0, key, block_hash, cast, now);
            let actions = asked.1 + more;
            !e.committed.contains(block_hash) ==> {
                &&& after.committed.contains(block_hash)
                &&& after.applied.contains_key(key.1)
                &&& after.applied[key.1].last() == request.operation
                &&& after.next_sequence == protocol::higher(e.next_sequence, protocol::next(key.1))
                &&& actions[0] == ActionView::Broadcast(
                    protocol::wire_for(e, MessageView::Propose { block }, e.view),
                )
                &&& actions[1] == ActionView::Broadcast(
                    protocol::wire_for(
                        e,
                        MessageView::Commit {
                            view: key.0,
                            sequence: key.1,
                            block_hash,
                            vote_signatures: seq![own] + cast,
                        },
                        e.view,
                    ),
                )
                &&& actions.skip(2) == protocol::all_writes(block.operations) + protocol::answers(
                    protocol::proposed(waiting, now).pending[key],
                )
                &&& actions.last() == protocol::answer(request.request_id, request.operation)
            }
        }),
{
    let key = (e.view, e.next_sequence);
    let waiting = EngineView { requests: e.requests.push(request), ..e };
    let block = protocol::next_block(waiting);
    let block_hash = hash::block_hash(block);
    let own = (e.id, protocol::signed_for(e, protocol::vote_for(e, block), e.view).signature);
    let asked = protocol::handle_client_request(e, request, now);
    let ready = asked.0;
    let first = seq![own];
    let put = protocol::proposed(waiting, now);
    let answered = protocol::answers(put.pending[key]);
    assert(Seq::<(NodeId, Seq<u8>)>::empty().push(own) =~= first);
    assert(answered.len() == e.requests.len() + 1);
    assert(answered.last() == protocol::answer(request.request_id, request.operation));
    if cast.len() == 0 {
        assert(first + cast =~= first);
        let more = with_votes(ready, key, block_hash, cast, now).1;
        assert(asked.1 + more =~= asked.1);
    } else {
        assert(ready.votes.slots[key] == first);
        assert(ready.requests.len() == 0);
        let all = first + cast;
        assert forall|i: int, j: int| 0 <= i < j < all.len() implies (#[trigger] all[i]).0 != (
        #[trigger] all[j]).0 by {
            assert(all[j] == cast[j - 1]);
            if i == 0 {
                assert(cast[j - 1].0 != e.id);
            } else {
                assert(all[i] == cast[i - 1]);
            }
        }
        let front = cast.drop_last();
        let before = first + front;
        assert forall|i: int, j: int| 0 <= i < j < before.len() implies (#[trigger] before[i]).0
            != (#[trigger] before[j]).0 by {
            assert(all[i] == before[i] && all[j] == before[j]);
        }
        lemma_votes_counted(ready, key, block_hash, first, front, now);
        lemma_new_voter(first, cast);
        assert(before.push(cast.last()) =~= all);
        if !e.committed.contains(block_hash) {
            let counted = with_votes(ready, key, block_hash, front, now).0;
            let step = protocol::handle_vote(
                counted,
                cast.last().0,
                key,
                block_hash,
                cast.last().1,
                now,
            );
            assert(step.0.requests.len() == 0);
            assert(!protocol::proposes(step.0));
            let more = with_votes(ready, key, block_hash, cast, now).1;
            assert(more =~= step.1);
            assert(step.1.last() == answered.last());
        }
    }
}

/// A transaction is its operations: a block writes the same whether operations
/// stand in it one by one or in a transaction.
pub proof fn law_transaction_is_its_operations(before: Seq<OpView>, ops: Seq<OpView>)
    ensures
        protocol::all_writes(before.push(OpView::Txn { ops })) == protocol::all_writes(before + ops),
{
    lemma_all_writes_joined(before, seq![OpView::Txn { ops }]);
    lemma_all_writes_joined(before, ops);
    let one = seq![OpView::Txn { ops }];
    assert(before.push(OpView::Txn { ops }) =~= before + one);
    assert(one.subrange(1, 1) =~= Seq::empty());
    assert(protocol::all_writes(one.subrange(1, 1)) =~= Seq::empty());
    assert(protocol::all_writes(one) =~= protocol::writes(one[0]));
}

proof fn lemma_all_writes_joined(a: Seq<OpView>, b: Seq<OpView>)
    ensures
        protocol::all_writes(a + b) == protocol::all_writes(a) + protocol::all_writes(b),
    decreases a.len(),
{
    if a.len() == 0 {
        assert(a + b =~= b);
        assert(protocol::all_writes(a) + protocol::all_writes(b) =~= protocol::all_writes(b));
    } else {
        let rest = a.subrange(1, a.len() as int);
        lemma_all_writes_joined(rest, b);
        assert((a + b).subrange(1, (a + b).len() as int) =~= rest + b);
        assert(protocol::all_writes(a + b) =~= protocol::all_writes(a) + protocol::all_writes(b));
    }
}

// ---------------------------------------------------------------------------
// Durability before acknowledgment
// ---------------------------------------------------------------------------

pub open spec fn is_answer(action: ActionView) -> bool {
    action is Reply || action is ReplyRead
}

/// No write stands behind an answer.
pub open spec fn writes_before_answers(actions: Seq<ActionView>) -> bool {
    forall|i: int, j: int|
        0 <= i < j < actions.len() && is_answer(#[trigger] actions[i]) ==> !(
        #[trigger] actions[j] is Store)
}

/// The actions of an event, which settles at most two blocks, one behind the
/// other: no write of a block stands behind an answer of it.
pub open spec fn in_order(actions: Seq<ActionView>) -> bool {
    exists|at: int|
        0 <= at <= actions.len() && writes_before_answers(#[trigger] actions.take(at))
            && writes_before_answers(actions.skip(at))
}

proof fn lemma_in_order(first: Seq<ActionView>, second: Seq<ActionView>)
    requires
        writes_before_answers(first),
        writes_before_answers(second),
    ensures
        in_order(first + second),
{
    let actions = first + second;
    let at = first.len() as int;
    assert(actions.take(at) =~= first);
    assert(actions.skip(at) =~= second);
}

proof fn lemma_writes_are_stores(op: OpView)
    ensures
        forall|i: int|
            0 <= i < protocol::writes(op).len() ==> (#[trigger] protocol::writes(op)[i]) is Store,
    decreases op, 0nat,
{
    match op {
        OpView::Txn { ops } => lemma_all_writes_are_stores(ops),
        _ => {},
    }
}

proof fn lemma_all_writes_are_stores(ops: Seq<OpView>)
    ensures
        forall|i: int|
            0 <= i < protocol::all_writes(ops).len() ==> (#[trigger] protocol::all_writes(ops)[i])
                is Store,
    decreases ops, 1nat,
{
    if ops.len() > 0 {
        let rest = ops.subrange(1, ops.len() as int);
        lemma_writes_are_stores(ops[0]);
        lemma_all_writes_are_stores(rest);
        let first = protocol::writes(ops[0]);
        let all = protocol::all_writes(ops);
        assert forall|i: int| 0 <= i < all.len() implies (#[trigger] all[i]) is Store by {
            if i < first.len() {
                assert(all[i] == first[i]);
            } else {
                assert(all[i] == protocol::all_writes(rest)[i - first.len()]);
            }
        }
    }
}

proof fn lemma_apply_block_order(e: EngineView, key: SlotKey)
    ensures
        writes_before_answers(protocol::apply_block(e, key).1),
{
    if e.pending.contains_key(key) && !e.applied.contains_key(key.1) {
        let ops = e.pending[key].block.operations;
        let written = protocol::all_writes(ops);
        let answered = protocol::answers(e.pending[key]);
        let actions = written + answered;
        lemma_all_writes_are_stores(ops);
        assert forall|i: int, j: int|
            0 <= i < j < actions.len() && is_answer(#[trigger] actions[i]) implies !(
        #[trigger] actions[j] is Store) by {
            if i < written.len() {
                assert(actions[i] == written[i]);
            } else {
                assert(actions[j] == answered[j - written.len()]);
            }
        }
    }
}

proof fn lemma_message_first(message: ActionView, rest: Seq<ActionView>)
    requires
        !is_answer(message),
        writes_before_answers(rest),
    ensures
        writes_before_answers(seq![message] + rest),
{
    let actions = seq![message] + rest;
    assert forall|i: int, j: int|
        0 <= i < j < actions.len() && is_answer(#[trigger] actions[i]) implies !(
    #[trigger] actions[j] is Store) by {
        assert(i > 0);
        assert(actions[i] == rest[i - 1] && actions[j] == rest[j - 1]);
    }
}

proof fn lemma_count_vote_order(
    e: EngineView,
    key: SlotKey,
    block_hash: Seq<u8>,
    voter: NodeId,
    signature: Seq<u8>,
    now: u64,
)
    ensures
        writes_before_answers(
            protocol::count_vote(e, key, block_hash, voter, signature, now).1,
        ),
{
    let (votes, reached) = votes::vote_step(e.votes, key, voter, signature);
    let counted = EngineView { votes, ..e };
    if reached && !e.committed.contains(block_hash) {
        lemma_apply_block_order(
            EngineView { committed: counted.committed.insert(block_hash), ..counted },
            key,
        );
        lemma_message_first(
            ActionView::Broadcast(
                protocol::wire_for(
                    counted,
                    protocol::certificate(counted, key, block_hash),
                    counted.view,
                ),
            ),
            protocol::settle(counted, key, block_hash, now).1,
        );
    }
}

proof fn lemma_try_propose_order(e: EngineView, now: u64)
    ensures
        writes_before_answers(protocol::try_propose(e, now).1),
{
    if protocol::proposes(e) {
        let block = protocol::next_block(e);
        let key = (e.view, e.next_sequence);
        let hash = hash::block_hash(block);
        let signature = protocol::signed_for(e, protocol::vote_for(e, block), e.view).signature;
        lemma_count_vote_order(protocol::proposed(e, now), key, hash, e.id, signature, now);
        lemma_message_first(
            ActionView::Broadcast(
                protocol::wire_for(e, MessageView::Propose { block }, e.view),
            ),
            protocol::count_vote(protocol::proposed(e, now), key, hash, e.id, signature, now).1,
        );
    }
}

proof fn lemma_advance_order(e: EngineView, new_view: ViewNumber, now: u64)
    ensures
        writes_before_answers(protocol::advance_to_view(e, new_view, now).1),
{
    let moved = protocol::in_view(e, new_view, now);
    if protocol::leads(moved) {
        lemma_try_propose_order(moved, now);
        lemma_message_first(
            protocol::advance_to_view(e, new_view, now).1[0],
            protocol::try_propose(moved, now).1,
        );
    }
}

proof fn lemma_view_change_order(
    e: EngineView,
    sender: NodeId,
    new_view: ViewNumber,
    request: Seq<u8>,
    now: u64,
)
    ensures
        writes_before_answers(
            protocol::count_view_change(e, sender, new_view, request, now).1,
        ),
{
    let (pace, reached) = pacemaker::pace_vote(e.pace, new_view, sender);
    if reached {
        let counted = EngineView {
            pace,
            view_changes: if new_view > e.view {
                votes::vote_step(e.view_changes, (new_view, 0), sender, request).0
            } else {
                e.view_changes
            },
            ..e
        };
        lemma_advance_order(counted, new_view, now);
    }
}

/// Whatever happens, a node asks for the writes of a block before it answers the
/// block's clients: when a client is answered, every write of the block is
/// already in the store.
pub proof fn law_writes_precede_answers(e: EngineView, event: EventView, now: u64)
    ensures
        in_order(on_event(e, event, now).1),
{
    let none = Seq::<ActionView>::empty();
    assert(none + none =~= none);
    match event {
        EventView::Wire(wire) => {
            lemma_in_order(none, none);
            if wire.msg_type == MessageType::Consensus {
                match codec::dec_signed(wire.payload) {
                    Ok((signed, _)) => {
                        match protocol::judged(e, signed) {
                            Ok(msg) => lemma_dispatch_order(e, signed, msg, now),
                            Err(_) => {},
                        }
                    },
                    Err(_) => {},
                }
            }
        },
        EventView::Request(request) => {
            let actions = on_event(e, event, now).1;
            if protocol::leads(e) {
                lemma_try_propose_order(
                    EngineView { requests: e.requests.push(request), ..e },
                    now,
                );
            }
            lemma_in_order(none, actions);
            assert(none + actions =~= actions);
        },
        EventView::Timeout => {
            let changing = EngineView {
                pace: pacemaker::pace_transition(e.pace, PaceMakerState::ViewChanging, now),
                ..e
            };
            let new_view = protocol::next(e.view);
            let request = MessageView::ViewChange {
                new_view,
                sender: e.id,
                last_committed_seq: e.last_committed,
            };
            let signed = codec::enc_signed(protocol::signed_for(changing, request, new_view));
            let actions = on_event(e, event, now).1;
            lemma_view_change_order(changing, e.id, new_view, signed, now);
            lemma_message_first(
                actions[0],
                protocol::count_view_change(changing, e.id, new_view, signed, now).1,
            );
            lemma_in_order(none, actions);
            assert(none + actions =~= actions);
        },
    }
}

proof fn lemma_dispatch_order(e: EngineView, signed: SignedView, msg: MessageView, now: u64)
    ensures
        in_order(protocol::dispatch(e, signed, msg, now).1),
{
    let none = Seq::<ActionView>::empty();
    let actions = protocol::dispatch(e, signed, msg, now).1;
    match msg {
        MessageView::Vote { view, sequence, block_hash, voter } => {
            let key = (view, sequence);
            let step = protocol::handle_vote(e, voter, key, block_hash, signed.signature, now);
            lemma_count_vote_order(e, key, block_hash, voter, signed.signature, now);
            lemma_try_propose_order(step.0, now);
            lemma_in_order(step.1, protocol::try_propose(step.0, now).1);
            lemma_in_order(none, none);
            assert(none + none =~= none);
        },
        MessageView::Commit { view, sequence, block_hash, .. } => {
            let step = protocol::handle_commit(e, (view, sequence), block_hash, now);
            lemma_apply_block_order(
                EngineView { committed: e.committed.insert(block_hash), ..e },
                (view, sequence),
            );
            lemma_try_propose_order(step.0, now);
            lemma_in_order(step.1, protocol::try_propose(step.0, now).1);
            lemma_in_order(none, none);
            assert(none + none =~= none);
        },
        MessageView::ViewChange { new_view, sender, .. } => {
            lemma_view_change_order(e, sender, new_view, codec::enc_signed(signed), now);
            lemma_in_order(none, actions);
            assert(none + actions =~= actions);
        },
        MessageView::NewView { view, .. } => {
            lemma_advance_order(e, view, now);
            lemma_in_order(none, actions);
            assert(none + actions =~= actions);
        },
        MessageView::Propose { .. } => {
            lemma_in_order(none, actions);
            assert(none + actions =~= actions);
        },
    }
}

// ---------------------------------------------------------------------------
// View changes
// ---------------------------------------------------------------------------

/// When a quorum of nodes has asked for a view above the current one, the node
/// is in that view; before that it stays where it is.
pub proof fn law_quorum_changes_view(
    e: EngineView,
    sender: NodeId,
    new_view: ViewNumber,
    request: Seq<u8>,
    now: u64,
)
    requires
        consistent(e),
        new_view > e.view,
    ensures
        ({
            let supporters = pacemaker::supporters(
                e.pace.votes.insert((new_view, sender)),
                new_view,
            );
            let after = protocol::count_view_change(e, sender, new_view, request, now).0;
            if supporters.len() >= e.pace.quorum {
                after.view == new_view
            } else {
                after.view == e.view
            }
        }),
{
}

/// The leader of a view that a node moves to announces it before anything else,
/// with the requests for the view that it has, and proposes what waits.
pub proof fn law_new_leader_announces(e: EngineView, new_view: ViewNumber, now: u64)
    requires
        protocol::leader(e, new_view) == e.id,
    ensures
        ({
            let (after, actions) = protocol::advance_to_view(e, new_view, now);
            &&& actions[0] == ActionView::Broadcast(
                protocol::wire_for(
                    e,
                    MessageView::NewView {
                        view: new_view,
                        leader: e.id,
                        view_change_proofs: votes::votes_at(e.view_changes, (new_view, 0)),
                    },
                    new_view,
                ),
            )
            &&& actions.skip(1) == protocol::try_propose(
                protocol::in_view(e, new_view, now),
                now,
            ).1
        }),
{
    let actions = protocol::advance_to_view(e, new_view, now).1;
    let moved = protocol::in_view(e, new_view, now);
    assert(votes::votes_at(moved.view_changes, (new_view, 0)) == votes::votes_at(
        e.view_changes,
        (new_view, 0),
    ));
    assert(actions.skip(1) =~= protocol::try_propose(protocol::in_view(e, new_view, now), now).1);
}

/// A view that is announced because a quorum asked for it is announced with the
/// requests of as many different nodes.
pub proof fn law_new_view_is_justified(
    e: EngineView,
    sender: NodeId,
    new_view: ViewNumber,
    request: Seq<u8>,
    now: u64,
)
    requires
        consistent(e),
        pacemaker::pace_vote(e.pace, new_view, sender).1,
        protocol::leader(e, new_view) == e.id,
    ensures
        ({
            let key = (new_view, 0u64);
            let requests = votes::votes_at(
                votes::vote_step(e.view_changes, key, sender, request).0,
                key,
            );
            &&& requests.len() >= e.pace.quorum
            &&& votes::one_vote_each(requests)
            &&& protocol::count_view_change(e, sender, new_view, request, now).1[0]
                == ActionView::Broadcast(
                protocol::wire_for(
                    e,
                    MessageView::NewView {
                        view: new_view,
                        leader: e.id,
                        view_change_proofs: requests,
                    },
                    new_view,
                ),
            )
        }),
{
    let counted = lemma_request_counted(e, sender, new_view, request);
    let requests = votes::votes_at(counted.view_changes, (new_view, 0));
    votes::lemma_voters(requests);
    let supporters = pacemaker::supporters(counted.pace.votes, new_view);
    assert forall|node: NodeId| supporters.contains(node) == #[trigger] votes::voters(
        requests,
    ).contains(node) by {
        assert(counted.pace.votes.contains((new_view, node)) == votes::has_voted(requests, node));
    }
    assert(supporters =~= votes::voters(requests));
    law_new_leader_announces(counted, new_view, now);
}

/// A node whose view times out asks everyone for the next view, signed for that
/// view, and says what it has committed.
pub proof fn law_timeout_asks_for_next_view(e: EngineView, now: u64)
    ensures
        protocol::handle_timeout(e, now).1[0] == ActionView::Broadcast(
            protocol::wire_for(
                e,
                MessageView::ViewChange {
                    new_view: protocol::next(e.view),
                    sender: e.id,
                    last_committed_seq: e.last_committed,
                },
                protocol::next(e.view),
            ),
        ),
{
}

// ---------------------------------------------------------------------------
// Every state of a node
// ---------------------------------------------------------------------------

/// The state of a node after events, each with its time.
pub open spec fn after_events(e: EngineView, events: Seq<(EventView, u64)>) -> EngineView
    decreases events.len(),
{
    if events.len() == 0 {
        e
    } else {
        on_event(
            after_events(e, events.drop_last()),
            events.last().0,
            events.last().1,
        ).0
    }
}

/// A node that has just started is in order, and its quorums are those of the
/// cluster.
pub proof fn law_start_is_consistent(
    config: NodeConfig,
    signer: NodeId,
    seed: Seq<u8>,
    keys: Map<NodeId, Seq<u8>>,
    now: u64,
)
    ensures
        consistent(engine::initial(config, signer, seed, keys, now)),
        engine::initial(config, signer, seed, keys, now).votes.quorum == types::quorum_for(
            config.max_faults as nat,
        ),
        engine::initial(config, signer, seed, keys, now).pace.quorum == types::quorum_for(
            config.max_faults as nat,
        ),
{
}

/// In every state that a node can reach, its pacemaker is in its view and nobody
/// is counted twice; neither view nor log goes back on the way, nothing is
/// uncommitted, no vote is given up, and the quorum stays what it was.
pub proof fn law_every_state_is_consistent(e: EngineView, events: Seq<(EventView, u64)>)
    requires
        consistent(e),
    ensures
        consistent(after_events(e, events)),
        follows_on(e, after_events(e, events)),
    decreases events.len(),
{
    if events.len() > 0 {
        let before = after_events(e, events.drop_last());
        law_every_state_is_consistent(e, events.drop_last());
        law_events_keep_progress(before, events.last().0, events.last().1);
    }
}

} // verus!
