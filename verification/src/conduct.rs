//! What a node does in each situation, in full: the state it is in afterwards and
//! everything it asks for.
use vstd::arithmetic::power2;
use vstd::prelude::*;

use crate::codec;
use crate::crypto;
use crate::hash;
use crate::pacemaker;
use crate::pacemaker::{PaceMakerState, PaceView};
use crate::pending::PendingView;
use crate::protocol;
use crate::protocol::{ActionView, EngineView, Step};
use crate::safety;
use crate::text;
use crate::types::{BlockView, MessageType, MessageView, NodeId, RequestId, RequestView, ResponseView, SignedView, ViewNumber, WireView};
use crate::votes;
use crate::votes::{SlotKey, VotesView};

verus! {

/// A pacemaker that goes on in a phase of its view, with the whole timeout of the
/// view before it: the base, doubled with each view up to the tenth.
pub open spec fn resumed(pace: PaceView, state: PaceMakerState, now: u64) -> PaceView {
    PaceView {
        state,
        last_activity: now,
        deadline: now as nat + pace.base as nat * power2::pow2(
            if pace.view <= 10 {
                pace.view as nat
            } else {
                10
            },
        ),
        ..pace
    }
}

/// A node that has gone to a view: it waits for a proposal there, with the timeout
/// of the view before it, and has forgotten what was collected for the views that
/// it has left.
pub open spec fn arrived(e: EngineView, view: ViewNumber, now: u64) -> EngineView {
    EngineView {
        view,
        pace: resumed(
            PaceView {
                view,
                votes: e.pace.votes.filter(|vote: (ViewNumber, NodeId)| vote.0 > view),
                ..e.pace
            },
            PaceMakerState::WaitingForProposal,
            now,
        ),
        votes: VotesView {
            slots: e.votes.slots.restrict(
                e.votes.slots.dom().filter(|key: SlotKey| key.0 >= view),
            ),
            ..e.votes
        },
        view_changes: VotesView {
            slots: e.view_changes.slots.restrict(
                e.view_changes.slots.dom().filter(|key: SlotKey| key.0 >= view),
            ),
            ..e.view_changes
        },
        ..e
    }
}

/// A node for which a block is committed: the block leaves the pending ones, and
/// its operations are those of its sequence unless the sequence has some; the log
/// goes on behind the highest block.
pub open spec fn committed(e: EngineView, key: SlotKey, block_hash: Seq<u8>, now: u64) -> EngineView {
    let behind: u64 = if key.1 == u64::MAX {
        0
    } else {
        (key.1 + 1) as u64
    };
    EngineView {
        last_committed: if key.1 > e.last_committed {
            key.1
        } else {
            e.last_committed
        },
        next_sequence: if behind > e.next_sequence {
            behind
        } else {
            e.next_sequence
        },
        last_hash: if behind >= e.next_sequence {
            block_hash
        } else {
            e.last_hash
        },
        applied: if e.pending.contains_key(key) && !e.applied.contains_key(key.1) {
            e.applied.insert(key.1, e.pending[key].block.operations)
        } else {
            e.applied
        },
        pending: e.pending.remove(key),
        committed: e.committed.insert(block_hash),
        pace: resumed(e.pace, PaceMakerState::Committed, now),
        ..e
    }
}

/// A node that has voted for a block and waits for it to be committed. It answers
/// the requests that the node has kept for the operations, if any.
pub open spec fn backing(
    e: EngineView,
    block: BlockView,
    request_ids: Seq<RequestId>,
    now: u64,
) -> EngineView {
    EngineView {
        voted: e.voted.insert(block.sequence, block),
        pending: e.pending.insert(
            (block.view, block.sequence),
            PendingView { block, request_ids },
        ),
        pace: resumed(e.pace, PaceMakerState::WaitingForVotes, now),
        ..e
    }
}

/// What a node asks for, and then what it proposes of the requests that wait.
pub open spec fn and_proposes(e: EngineView, actions: Seq<ActionView>, now: u64) -> Step {
    let (after, more) = protocol::try_propose(e, now);
    (after, actions + more)
}

proof fn lemma_resumed(pace: PaceView, state: PaceMakerState, now: u64)
    ensures
        pacemaker::pace_transition(pace, state, now) == resumed(pace, state, now),
        pacemaker::pace_activity(pace, now) == resumed(pace, pace.state, now),
{
}

proof fn lemma_arrived(e: EngineView, view: ViewNumber, now: u64)
    ensures
        protocol::in_view(e, view, now) == arrived(e, view, now),
{
    let after = protocol::in_view(e, view, now);
    let other = arrived(e, view, now);
    lemma_resumed(
        PaceView {
            view,
            votes: e.pace.votes.filter(|vote: (ViewNumber, NodeId)| vote.0 > view),
            ..e.pace
        },
        PaceMakerState::WaitingForProposal,
        now,
    );
    assert(after.pace =~= other.pace);
    assert(after.votes.slots =~= other.votes.slots);
    assert(after.view_changes.slots =~= other.view_changes.slots);
}

// ---------------------------------------------------------------------------
// Who leads, and what is signed
// ---------------------------------------------------------------------------

/// The nodes lead in turn: the view, counted modulo the number of nodes, is the
/// place of its leader.
pub proof fn law_leader_by_place(e: EngineView, view: ViewNumber)
    requires
        e.peers.len() > 0,
    ensures
        protocol::leader(e, view) == e.peers[view as int % e.peers.len() as int],
        protocol::leads(e) <==> e.peers[e.view as int % e.peers.len() as int] == e.id,
{
}

/// What a node puts on the wire is a consensus message of the first version of the
/// protocol. It holds the message in full, in the name of the node's signer, with
/// the signature of its chain, the view and the message.
pub proof fn law_sent_messages_are_signed(e: EngineView, msg: MessageView, view: ViewNumber)
    ensures
        ({
            let wire = protocol::wire_for(e, msg, view);
            let signed = SignedView {
                sender: e.signer,
                payload: codec::enc_message(msg),
                signature: crypto::ed25519_signature(
                    e.seed,
                    crypto::signing_input(e.chain_id, view, codec::enc_message(msg)),
                ),
            };
            &&& wire.version == 1
            &&& wire.msg_type == MessageType::Consensus
            &&& wire.payload == codec::enc_signed(signed)
            &&& protocol::signed_for(e, msg, view) == signed
        }),
{
}

/// A consensus message on the wire is handled exactly where its sender has a key,
/// its signature of the node's chain, the view that the message belongs to and the
/// message verifies under it, and its payload is a message. Otherwise it changes
/// nothing.
pub proof fn law_wire_message_is_handled_if_authentic(
    e: EngineView,
    signed: SignedView,
    msg: MessageView,
    rest: Seq<u8>,
    wire: WireView,
    behind: Seq<u8>,
    now: u64,
)
    requires
        wire.msg_type == MessageType::Consensus,
        codec::dec_signed(wire.payload) == Ok::<_, codec::DecodeError>((signed, behind)),
        codec::dec_message(signed.payload) == Ok::<_, codec::DecodeError>((msg, rest)),
    ensures
        ({
            let view = match msg {
                MessageView::ViewChange { new_view, .. } => new_view,
                MessageView::NewView { view, .. } => view,
                _ => e.view,
            };
            let authentic = e.keys.contains_key(signed.sender) && signed.signature.len() == 64
                && crypto::ed25519_accepts(
                e.keys[signed.sender],
                crypto::signing_input(e.chain_id, view, signed.payload),
                signed.signature,
            );
            protocol::handle_wire_message(e, wire, now) == if authentic {
                protocol::dispatch(e, signed, msg, now)
            } else {
                (e, Seq::<ActionView>::empty())
            }
        }),
{
    safety::law_context_view_is_that_of_the_message(signed.payload, msg, rest, e.view);
}

/// A consensus message whose bytes are no signed message, or whose payload is no
/// message, changes nothing.
pub proof fn law_undecodable_wire_message_ignored(e: EngineView, wire: WireView, now: u64)
    requires
        match codec::dec_signed(wire.payload) {
            Ok((signed, _)) => codec::dec_message(signed.payload) is Err,
            Err(_) => true,
        },
    ensures
        protocol::handle_wire_message(e, wire, now) == (e, Seq::<ActionView>::empty()),
{
}

/// Whatever is on the wire that is no consensus message changes nothing.
pub proof fn law_other_wire_messages_ignored(e: EngineView, wire: WireView, now: u64)
    requires
        wire.msg_type != MessageType::Consensus,
    ensures
        protocol::handle_wire_message(e, wire, now) == (e, Seq::<ActionView>::empty()),
{
}

// ---------------------------------------------------------------------------
// Proposals and votes
// ---------------------------------------------------------------------------

/// A replica that has no vote at a sequence votes for what the leader of its view
/// proposes there, whatever its phase and whatever the block holds; where it has
/// voted in an earlier view, it votes for the same operations again, and keeps
/// the requests that they came from.
pub proof fn law_proposal_is_voted_for(
    e: EngineView,
    signed: SignedView,
    block: BlockView,
    now: u64,
)
    requires
        signed.sender == protocol::leader(e, e.view),
        block.view == e.view,
        e.voted.contains_key(block.sequence) ==> e.voted[block.sequence].view < block.view
            && e.voted[block.sequence].operations == block.operations,
    ensures
        ({
            let earlier = (e.voted[block.sequence].view, block.sequence);
            let vote = MessageView::Vote {
                view: block.view,
                sequence: block.sequence,
                block_hash: hash::block_hash(block),
                voter: e.id,
            };
            protocol::dispatch(e, signed, MessageView::Propose { block }, now) == (
                backing(
                    e,
                    block,
                    if e.voted.contains_key(block.sequence) && e.pending.contains_key(earlier) {
                        e.pending[earlier].request_ids
                    } else {
                        Seq::empty()
                    },
                    now,
                ),
                seq![
                    ActionView::Send {
                        target: signed.sender,
                        message: protocol::wire_for(e, vote, e.view),
                    },
                ],
            )
        }),
{
    lemma_resumed(e.pace, PaceMakerState::WaitingForVotes, now);
}

/// A proposal that a node has voted for is answered with the same vote again, and
/// nothing changes.
pub proof fn law_known_proposal_gets_its_vote_again(
    e: EngineView,
    signed: SignedView,
    block: BlockView,
    now: u64,
)
    requires
        signed.sender == protocol::leader(e, e.view),
        block.view == e.view,
        e.voted.contains_key(block.sequence),
        e.voted[block.sequence] == block,
    ensures
        ({
            let vote = MessageView::Vote {
                view: block.view,
                sequence: block.sequence,
                block_hash: hash::block_hash(block),
                voter: e.id,
            };
            protocol::dispatch(e, signed, MessageView::Propose { block }, now) == (
                e,
                seq![
                    ActionView::Send {
                        target: signed.sender,
                        message: protocol::wire_for(e, vote, e.view),
                    },
                ],
            )
        }),
{
}

/// Where a replica has voted for other operations at the sequence, in an earlier
/// view, it keeps a proposal without a vote. Where it has voted in the slot, or
/// leads, nothing changes, and all that is sent is the vote for the very block.
pub proof fn law_proposal_is_not_voted_for(
    e: EngineView,
    signed: SignedView,
    block: BlockView,
    now: u64,
)
    requires
        signed.sender == protocol::leader(e, e.view),
        block.view == e.view,
        e.voted.contains_key(block.sequence),
        e.voted[block.sequence].view >= block.view || e.voted[block.sequence].operations
            != block.operations,
    ensures
        ({
            let (after, actions) = protocol::dispatch(
                e,
                signed,
                MessageView::Propose { block },
                now,
            );
            let kept = EngineView {
                pending: e.pending.insert(
                    (block.view, block.sequence),
                    PendingView { block, request_ids: Seq::empty() },
                ),
                ..e
            };
            &&& e.voted[block.sequence].view < block.view && e.id != signed.sender ==> (after,
                actions) == (kept, Seq::<ActionView>::empty())
            &&& e.voted[block.sequence].view >= block.view || e.id == signed.sender ==> after == e
            &&& e.voted[block.sequence] != block ==> actions.len() == 0
        }),
{
}

/// A leader with waiting requests and no block or vote in the slot proposes them
/// in one block, and votes for it: the requests wait no longer, the block is
/// pending, and the vote is the first to be counted for it.
pub proof fn law_leader_proposes_what_waits(e: EngineView, now: u64)
    requires
        protocol::leader(e, e.view) == e.id,
        e.requests.len() > 0,
        !e.pending.contains_key((e.view, e.next_sequence)),
        !e.voted.contains_key(e.next_sequence),
        !e.votes.slots.contains_key((e.view, e.next_sequence)),
        e.votes.quorum > 1,
    ensures
        ({
            let slot = (e.view, e.next_sequence);
            let block = BlockView {
                view: e.view,
                sequence: e.next_sequence,
                proposer: e.id,
                operations: Seq::new(e.requests.len(), |i: int| e.requests[i].operation),
                parent_hash: e.last_hash,
            };
            let vote = MessageView::Vote {
                view: e.view,
                sequence: e.next_sequence,
                block_hash: hash::block_hash(block),
                voter: e.id,
            };
            let ids = Seq::new(e.requests.len(), |i: int| e.requests[i].request_id);
            let own = (e.id, protocol::signed_for(e, vote, e.view).signature);
            protocol::try_propose(e, now) == (
                EngineView {
                    requests: Seq::empty(),
                    votes: VotesView {
                        slots: e.votes.slots.insert(slot, seq![own]),
                        ..e.votes
                    },
                    ..backing(e, block, ids, now)
                },
                seq![
                    ActionView::Broadcast(
                        protocol::wire_for(e, MessageView::Propose { block }, e.view),
                    ),
                ],
            )
        }),
{
    let slot = (e.view, e.next_sequence);
    let block = protocol::next_block(e);
    lemma_resumed(e.pace, PaceMakerState::WaitingForVotes, now);
    assert(block.operations =~= Seq::new(e.requests.len(), |i: int| e.requests[i].operation));
    let after = protocol::try_propose(e, now);
    let ids = Seq::new(e.requests.len(), |i: int| e.requests[i].request_id);
    assert(e.requests.map_values(|request: RequestView| request.request_id) =~= ids);
    let own = (e.id, protocol::signed_for(e, protocol::vote_for(e, block), e.view).signature);
    assert(Seq::<(NodeId, Seq<u8>)>::empty().push(own) =~= seq![own]);
    assert(after.1 =~= seq![
        ActionView::Broadcast(protocol::wire_for(e, MessageView::Propose { block }, e.view)),
    ]);
}

/// A leader that has voted in an earlier view at the sequence puts the operations
/// of that vote forward again, and answers the requests that it has kept for them.
/// What waits, waits on.
pub proof fn law_leader_proposes_its_vote_again(e: EngineView, now: u64)
    requires
        protocol::leader(e, e.view) == e.id,
        e.requests.len() > 0,
        !e.pending.contains_key((e.view, e.next_sequence)),
        e.voted.contains_key(e.next_sequence),
        e.voted[e.next_sequence].view < e.view,
        !e.votes.slots.contains_key((e.view, e.next_sequence)),
        e.votes.quorum > 1,
    ensures
        ({
            let slot = (e.view, e.next_sequence);
            let earlier = (e.voted[e.next_sequence].view, e.next_sequence);
            let block = BlockView {
                view: e.view,
                sequence: e.next_sequence,
                proposer: e.id,
                operations: e.voted[e.next_sequence].operations,
                parent_hash: e.last_hash,
            };
            let vote = MessageView::Vote {
                view: e.view,
                sequence: e.next_sequence,
                block_hash: hash::block_hash(block),
                voter: e.id,
            };
            let ids = if e.pending.contains_key(earlier) {
                e.pending[earlier].request_ids
            } else {
                Seq::empty()
            };
            let own = (e.id, protocol::signed_for(e, vote, e.view).signature);
            protocol::try_propose(e, now) == (
                EngineView {
                    votes: VotesView {
                        slots: e.votes.slots.insert(slot, seq![own]),
                        ..e.votes
                    },
                    ..backing(e, block, ids, now)
                },
                seq![
                    ActionView::Broadcast(
                        protocol::wire_for(e, MessageView::Propose { block }, e.view),
                    ),
                ],
            )
        }),
{
    let block = protocol::next_block(e);
    lemma_resumed(e.pace, PaceMakerState::WaitingForVotes, now);
    let after = protocol::try_propose(e, now);
    let own = (e.id, protocol::signed_for(e, protocol::vote_for(e, block), e.view).signature);
    assert(Seq::<(NodeId, Seq<u8>)>::empty().push(own) =~= seq![own]);
    assert(after.1 =~= seq![
        ActionView::Broadcast(protocol::wire_for(e, MessageView::Propose { block }, e.view)),
    ]);
}

/// A leader that proposes sends its block first and then counts its own vote for
/// it, as it counts any vote, whatever the quorum is and whoever has voted.
pub proof fn law_proposing_counts_own_vote(e: EngineView, now: u64)
    requires
        protocol::leader(e, e.view) == e.id,
        e.requests.len() > 0,
        !e.pending.contains_key((e.view, e.next_sequence)),
        e.voted.contains_key(e.next_sequence) ==> e.voted[e.next_sequence].view < e.view,
    ensures
        ({
            let slot = (e.view, e.next_sequence);
            let earlier = (e.voted[e.next_sequence].view, e.next_sequence);
            let again = e.voted.contains_key(e.next_sequence);
            let block = BlockView {
                view: e.view,
                sequence: e.next_sequence,
                proposer: e.id,
                operations: if again {
                    e.voted[e.next_sequence].operations
                } else {
                    Seq::new(e.requests.len(), |i: int| e.requests[i].operation)
                },
                parent_hash: e.last_hash,
            };
            let ids = if !again {
                Seq::new(e.requests.len(), |i: int| e.requests[i].request_id)
            } else if e.pending.contains_key(earlier) {
                e.pending[earlier].request_ids
            } else {
                Seq::empty()
            };
            let ready = EngineView {
                requests: if again {
                    e.requests
                } else {
                    Seq::empty()
                },
                ..backing(e, block, ids, now)
            };
            let vote = MessageView::Vote {
                view: e.view,
                sequence: e.next_sequence,
                block_hash: hash::block_hash(block),
                voter: e.id,
            };
            let (after, actions) = protocol::count_vote(
                ready,
                slot,
                hash::block_hash(block),
                e.id,
                protocol::signed_for(e, vote, e.view).signature,
                now,
            );
            protocol::try_propose(e, now) == (
                after,
                seq![
                    ActionView::Broadcast(
                        protocol::wire_for(e, MessageView::Propose { block }, e.view),
                    ),
                ] + actions,
            )
        }),
{
    let block = protocol::next_block(e);
    lemma_resumed(e.pace, PaceMakerState::WaitingForVotes, now);
    if !e.voted.contains_key(e.next_sequence) {
        assert(block.operations =~= Seq::new(e.requests.len(), |i: int| e.requests[i].operation));
        assert(e.requests.map_values(|request: RequestView| request.request_id) =~= Seq::new(
            e.requests.len(),
            |i: int| e.requests[i].request_id,
        ));
    }
}

/// A vote that is counted stands behind the others of its slot, unless its node has
/// voted there; with a quorum the block is committed, and otherwise nothing else
/// happens.
pub proof fn law_counted_vote(
    e: EngineView,
    key: SlotKey,
    block_hash: Seq<u8>,
    voter: NodeId,
    signature: Seq<u8>,
    now: u64,
)
    ensures
        ({
            let before = votes::votes_at(e.votes, key);
            let counted = EngineView {
                votes: VotesView {
                    slots: e.votes.slots.insert(key, before.push((voter, signature))),
                    ..e.votes
                },
                ..e
            };
            let step = protocol::count_vote(e, key, block_hash, voter, signature, now);
            &&& votes::has_voted(before, voter) ==> step == (e, Seq::<ActionView>::empty())
            &&& !votes::has_voted(before, voter) && before.len() + 1 < e.votes.quorum ==> step == (
                counted,
                Seq::<ActionView>::empty(),
            )
            &&& !votes::has_voted(before, voter) && before.len() + 1 >= e.votes.quorum ==> step
                == protocol::commit_block(counted, key, block_hash, now)
        }),
{
}

/// A node that does not lead proposes nothing, nor does a leader without requests,
/// with a block pending in the slot, or with a vote there.
pub proof fn law_nothing_to_propose(e: EngineView, now: u64)
    requires
        protocol::leader(e, e.view) != e.id || e.requests.len() == 0 || e.pending.contains_key(
            (e.view, e.next_sequence),
        ) || (e.voted.contains_key(e.next_sequence) && e.voted[e.next_sequence].view >= e.view),
    ensures
        protocol::try_propose(e, now) == (e, Seq::<ActionView>::empty()),
{
}

/// A vote for the pending block, by the node that signed it, is counted: it
/// stands behind the votes of the slot, with its signature, and below the quorum
/// nothing else happens but that the leader proposes what it can.
pub proof fn law_vote_is_counted(
    e: EngineView,
    signed: SignedView,
    key: SlotKey,
    now: u64,
)
    requires
        protocol::leader(e, e.view) == e.id,
        key.0 == e.view,
        e.pending.contains_key(key),
        !votes::has_voted(votes::votes_at(e.votes, key), signed.sender),
        votes::votes_at(e.votes, key).len() + 1 < e.votes.quorum,
    ensures
        ({
            let vote = MessageView::Vote {
                view: key.0,
                sequence: key.1,
                block_hash: hash::block_hash(e.pending[key].block),
                voter: signed.sender,
            };
            signed.payload == codec::enc_message(vote) ==> protocol::dispatch(e, signed, vote, now)
                == and_proposes(
                EngineView {
                    votes: VotesView {
                        slots: e.votes.slots.insert(
                            key,
                            votes::votes_at(e.votes, key).push((signed.sender, signed.signature)),
                        ),
                        ..e.votes
                    },
                    ..e
                },
                Seq::<ActionView>::empty(),
                now,
            )
        }),
{
}

/// A vote is ignored that another node signed, and one whose signature covers more
/// or less than the vote.
pub proof fn law_borrowed_vote_ignored(
    e: EngineView,
    signed: SignedView,
    key: SlotKey,
    block_hash: Seq<u8>,
    voter: NodeId,
    now: u64,
)
    ensures
        ({
            let vote = MessageView::Vote { view: key.0, sequence: key.1, block_hash, voter };
            voter != signed.sender || signed.payload != codec::enc_message(vote)
                ==> protocol::dispatch(e, signed, vote, now) == (e, Seq::<ActionView>::empty())
        }),
{
}

/// A vote that does not count changes nothing: one for another view, one that a
/// node gets that does not lead, one for a block that is not pending, and a second
/// one of its node. The node proposes what it can.
pub proof fn law_vote_without_effect(
    e: EngineView,
    signed: SignedView,
    key: SlotKey,
    block_hash: Seq<u8>,
    now: u64,
)
    requires
        key.0 != e.view || protocol::leader(e, e.view) != e.id || !e.pending.contains_key(key)
            || block_hash != hash::block_hash(e.pending[key].block) || votes::has_voted(
            votes::votes_at(e.votes, key),
            signed.sender,
        ),
    ensures
        ({
            let vote = MessageView::Vote {
                view: key.0,
                sequence: key.1,
                block_hash,
                voter: signed.sender,
            };
            signed.payload == codec::enc_message(vote) ==> protocol::dispatch(e, signed, vote, now)
                == and_proposes(e, Seq::empty(), now)
        }),
{
}

/// A second vote of a node for a slot is not counted, and nothing comes of it.
pub proof fn law_second_vote_is_not_counted(
    e: EngineView,
    key: SlotKey,
    block_hash: Seq<u8>,
    voter: NodeId,
    signature: Seq<u8>,
    now: u64,
)
    requires
        votes::has_voted(votes::votes_at(e.votes, key), voter),
    ensures
        protocol::handle_vote(e, voter, key, block_hash, signature, now) == (
            e,
            Seq::<ActionView>::empty(),
        ),
{
}

/// The vote that completes a quorum commits the block: everyone is sent the
/// certificate with all the votes, the operations are written and the clients
/// answered, and the leader proposes what it can.
pub proof fn law_vote_completes_quorum(
    e: EngineView,
    signed: SignedView,
    key: SlotKey,
    now: u64,
)
    requires
        protocol::leader(e, e.view) == e.id,
        key.0 == e.view,
        e.pending.contains_key(key),
        !e.applied.contains_key(key.1),
        !votes::has_voted(votes::votes_at(e.votes, key), signed.sender),
        votes::votes_at(e.votes, key).len() + 1 >= e.votes.quorum,
        !e.committed.contains(hash::block_hash(e.pending[key].block)),
    ensures
        ({
            let block_hash = hash::block_hash(e.pending[key].block);
            let vote = MessageView::Vote {
                view: key.0,
                sequence: key.1,
                block_hash,
                voter: signed.sender,
            };
            let collected = votes::votes_at(e.votes, key).push((signed.sender, signed.signature));
            let certificate = MessageView::Commit {
                view: key.0,
                sequence: key.1,
                block_hash,
                vote_signatures: collected,
            };
            signed.payload == codec::enc_message(vote) ==> protocol::dispatch(e, signed, vote, now)
                == and_proposes(
                EngineView {
                    votes: VotesView { slots: e.votes.slots.insert(key, collected), ..e.votes },
                    ..committed(e, key, block_hash, now)
                },
                seq![ActionView::Broadcast(protocol::wire_for(e, certificate, e.view))]
                    + protocol::all_writes(e.pending[key].block.operations) + protocol::answers(
                    e.pending[key],
                ),
                now,
            )
        }),
{
    let block_hash = hash::block_hash(e.pending[key].block);
    let vote = MessageView::Vote {
        view: key.0,
        sequence: key.1,
        block_hash,
        voter: signed.sender,
    };
    let collected = votes::votes_at(e.votes, key).push((signed.sender, signed.signature));
    let counted = EngineView {
        votes: VotesView { slots: e.votes.slots.insert(key, collected), ..e.votes },
        ..e
    };
    lemma_resumed(e.pace, PaceMakerState::Committed, now);
    if signed.payload == codec::enc_message(vote) {
        let step = protocol::handle_vote(
            e,
            signed.sender,
            key,
            block_hash,
            signed.signature,
            now,
        );
        assert(step == protocol::commit_block(counted, key, block_hash, now));
        let certificate = protocol::certificate(counted, key, block_hash);
        assert(step.1 =~= seq![ActionView::Broadcast(protocol::wire_for(e, certificate, e.view))]
            + protocol::all_writes(e.pending[key].block.operations) + protocol::answers(
            e.pending[key],
        ));
    }
}

/// A commit of the leader of its view takes effect with the valid votes of a
/// quorum of different nodes for the block that is pending, if any is; then the
/// node is where a committed block leaves it, and proposes what it can.
pub proof fn law_certified_commit_takes_effect(
    e: EngineView,
    signed: SignedView,
    key: SlotKey,
    block_hash: Seq<u8>,
    signatures: votes::Votes,
    now: u64,
)
    requires
        signed.sender == protocol::leader(e, key.0),
        signatures.len() >= e.votes.quorum,
        forall|i: int, j: int|
            0 <= i < j < signatures.len() ==> (#[trigger] signatures[i]).0 != (
            #[trigger] signatures[j]).0,
        forall|i: int|
            0 <= i < signatures.len() ==> e.keys.contains_key((#[trigger] signatures[i]).0)
                && signatures[i].1.len() == 64,
        e.pending.contains_key(key) ==> block_hash == hash::block_hash(e.pending[key].block),
        !e.committed.contains(block_hash),
    ensures
        ({
            let commit = MessageView::Commit {
                view: key.0,
                sequence: key.1,
                block_hash,
                vote_signatures: signatures,
            };
            let valid = forall|i: int|
                0 <= i < signatures.len() ==> crypto::ed25519_accepts(
                    e.keys[(#[trigger] signatures[i]).0],
                    crypto::signing_input(
                        e.chain_id,
                        key.0,
                        codec::enc_message(
                            MessageView::Vote {
                                view: key.0,
                                sequence: key.1,
                                block_hash,
                                voter: signatures[i].0,
                            },
                        ),
                    ),
                    signatures[i].1,
                );
            let written = if e.pending.contains_key(key) && !e.applied.contains_key(key.1) {
                protocol::all_writes(e.pending[key].block.operations) + protocol::answers(
                    e.pending[key],
                )
            } else {
                Seq::empty()
            };
            valid ==> protocol::dispatch(e, signed, commit, now) == and_proposes(
                committed(e, key, block_hash, now),
                written,
                now,
            )
        }),
{
    lemma_resumed(e.pace, PaceMakerState::Committed, now);
}

/// A commit without the valid votes of a quorum of different nodes changes
/// nothing: one vote too few, one node counted twice, one signature that does not
/// verify or one node without a key is enough to refuse it.
pub proof fn law_uncertified_commit_refused(
    e: EngineView,
    signed: SignedView,
    key: SlotKey,
    block_hash: Seq<u8>,
    signatures: votes::Votes,
    i: int,
    j: int,
    now: u64,
)
    requires
        signatures.len() < e.votes.quorum || (0 <= i < j < signatures.len() && signatures[i].0
            == signatures[j].0) || (0 <= i < signatures.len() && (!e.keys.contains_key(
            signatures[i].0,
        ) || signatures[i].1.len() != 64)),
    ensures
        protocol::dispatch(
            e,
            signed,
            MessageView::Commit {
                view: key.0,
                sequence: key.1,
                block_hash,
                vote_signatures: signatures,
            },
            now,
        ) == (e, Seq::<ActionView>::empty()),
{
    assert(!protocol::certifies(e, key, block_hash, signatures));
}

/// A commit that does not come from the leader of its view, and one for another
/// block than the pending one, changes nothing, whoever has voted.
pub proof fn law_misplaced_commit_refused(
    e: EngineView,
    signed: SignedView,
    key: SlotKey,
    block_hash: Seq<u8>,
    signatures: votes::Votes,
    now: u64,
)
    requires
        signed.sender != protocol::leader(e, key.0) || (e.pending.contains_key(key) && block_hash
            != hash::block_hash(e.pending[key].block)),
    ensures
        protocol::dispatch(
            e,
            signed,
            MessageView::Commit {
                view: key.0,
                sequence: key.1,
                block_hash,
                vote_signatures: signatures,
            },
            now,
        ) == (e, Seq::<ActionView>::empty()),
{
}

/// A commit that holds a signature which does not verify as its node's vote for
/// the block changes nothing.
pub proof fn law_forged_commit_refused(
    e: EngineView,
    signed: SignedView,
    key: SlotKey,
    block_hash: Seq<u8>,
    signatures: votes::Votes,
    i: int,
    now: u64,
)
    ensures
        ({
            let vote = MessageView::Vote {
                view: key.0,
                sequence: key.1,
                block_hash,
                voter: signatures[i].0,
            };
            0 <= i < signatures.len() && !crypto::ed25519_accepts(
                e.keys[signatures[i].0],
                crypto::signing_input(e.chain_id, key.0, codec::enc_message(vote)),
                signatures[i].1,
            ) ==> protocol::dispatch(
                e,
                signed,
                MessageView::Commit {
                    view: key.0,
                    sequence: key.1,
                    block_hash,
                    vote_signatures: signatures,
                },
                now,
            ) == (e, Seq::<ActionView>::empty())
        }),
{
    let vote = MessageView::Vote {
        view: key.0,
        sequence: key.1,
        block_hash,
        voter: signatures[i].0,
    };
    if 0 <= i < signatures.len() && !crypto::ed25519_accepts(
        e.keys[signatures[i].0],
        crypto::signing_input(e.chain_id, key.0, codec::enc_message(vote)),
        signatures[i].1,
    ) {
        assert(!protocol::is_vote(e, key, block_hash, signatures[i].0, signatures[i].1));
        assert(!protocol::certifies(e, key, block_hash, signatures));
    }
}

/// What a commit does to a node, by its own decision or by another's word: the
/// same state, with the news to everyone in front where the node decides.
pub proof fn law_commit_leaves_node_there(
    e: EngineView,
    key: SlotKey,
    block_hash: Seq<u8>,
    now: u64,
)
    requires
        !e.committed.contains(block_hash),
    ensures
        protocol::handle_commit(e, key, block_hash, now).0 == committed(e, key, block_hash, now),
        protocol::commit_block(e, key, block_hash, now).0 == committed(e, key, block_hash, now),
        protocol::commit_block(e, key, block_hash, now).1 == seq![
            ActionView::Broadcast(
                protocol::wire_for(
                    e,
                    MessageView::Commit {
                        view: key.0,
                        sequence: key.1,
                        block_hash,
                        vote_signatures: votes::votes_at(e.votes, key),
                    },
                    e.view,
                ),
            ),
        ] + protocol::handle_commit(e, key, block_hash, now).1,
{
    lemma_resumed(e.pace, PaceMakerState::Committed, now);
}

/// What a commit changes: the hash is among the committed ones, the pending block of
/// the slot is gone, with its operations on record for the sequence where there were
/// none, and the log is not behind the sequence. What a node has voted for and
/// collected, what waits and where it stands stays as it was.
pub proof fn law_commit_moves_the_log(
    e: EngineView,
    key: SlotKey,
    block_hash: Seq<u8>,
    other: SlotKey,
    now: u64,
)
    requires
        !e.committed.contains(block_hash),
        key.1 < u64::MAX,
    ensures
        ({
            let after = protocol::handle_commit(e, key, block_hash, now).0;
            &&& after.committed == e.committed.insert(block_hash)
            &&& after.last_committed >= key.1 && after.last_committed >= e.last_committed
            &&& after.last_committed == key.1 || after.last_committed == e.last_committed
            &&& after.next_sequence >= key.1 + 1 && after.next_sequence >= e.next_sequence
            &&& after.next_sequence == key.1 + 1 || after.next_sequence == e.next_sequence
            &&& key.1 + 1 >= e.next_sequence ==> after.last_hash == block_hash
            &&& key.1 + 1 < e.next_sequence ==> after.last_hash == e.last_hash
            &&& !after.pending.contains_key(key)
            &&& other != key ==> {
                &&& after.pending.contains_key(other) == e.pending.contains_key(other)
                &&& e.pending.contains_key(other) ==> after.pending[other] == e.pending[other]
            }
            &&& e.applied.contains_key(key.1) || !e.pending.contains_key(key) ==> after.applied
                == e.applied
            &&& !e.applied.contains_key(key.1) && e.pending.contains_key(key) ==> {
                &&& after.applied.contains_key(key.1)
                &&& after.applied[key.1] == e.pending[key].block.operations
                &&& after.applied.remove(key.1) == e.applied
            }
            &&& after.view == e.view
            &&& after.voted == e.voted
            &&& after.votes == e.votes
            &&& after.view_changes == e.view_changes
            &&& after.requests == e.requests
            &&& after.pace.state == PaceMakerState::Committed
            &&& after.pace.view == e.pace.view
            &&& after.pace.votes == e.pace.votes
            &&& after.pace.last_activity == now
        }),
{
    let after = protocol::handle_commit(e, key, block_hash, now).0;
    if !e.applied.contains_key(key.1) && e.pending.contains_key(key) {
        assert(after.applied.remove(key.1) =~= e.applied);
    }
}

/// What a vote changes: the block is the one that the node has voted for at the
/// sequence, and is pending in its slot. Other sequences and slots, the log, what is
/// collected and what waits stay as they were.
pub proof fn law_vote_is_recorded(
    e: EngineView,
    signed: SignedView,
    block: BlockView,
    other: SlotKey,
    now: u64,
)
    requires
        signed.sender == protocol::leader(e, e.view),
        block.view == e.view,
        !e.voted.contains_key(block.sequence),
    ensures
        ({
            let after = protocol::dispatch(e, signed, MessageView::Propose { block }, now).0;
            let slot = (block.view, block.sequence);
            &&& after.voted.contains_key(block.sequence)
            &&& after.voted[block.sequence] == block
            &&& after.voted.remove(block.sequence) == e.voted
            &&& after.pending.contains_key(slot)
            &&& after.pending[slot].block == block
            &&& after.pending[slot].request_ids.len() == 0
            &&& other != slot ==> {
                &&& after.pending.contains_key(other) == e.pending.contains_key(other)
                &&& e.pending.contains_key(other) ==> after.pending[other] == e.pending[other]
            }
            &&& after.view == e.view
            &&& after.next_sequence == e.next_sequence
            &&& after.last_committed == e.last_committed
            &&& after.last_hash == e.last_hash
            &&& after.applied == e.applied
            &&& after.committed == e.committed
            &&& after.votes == e.votes
            &&& after.view_changes == e.view_changes
            &&& after.requests == e.requests
            &&& after.pace.state == PaceMakerState::WaitingForVotes
            &&& after.pace.view == e.pace.view
            &&& after.pace.votes == e.pace.votes
            &&& after.pace.last_activity == now
        }),
{
    let after = protocol::dispatch(e, signed, MessageView::Propose { block }, now).0;
    assert(after.voted.remove(block.sequence) =~= e.voted);
}

// ---------------------------------------------------------------------------
// Changing the view
// ---------------------------------------------------------------------------

/// The announcement of a higher view by its leader takes every other node there,
/// whatever phase it is in: it waits for a proposal in that view, with its timeout
/// before it, and keeps its log, its votes, its blocks and its requests.
pub proof fn law_announced_view_is_taken(
    e: EngineView,
    signed: SignedView,
    view: ViewNumber,
    announced: NodeId,
    proofs: votes::Votes,
    now: u64,
)
    requires
        view > e.view,
        signed.sender == protocol::leader(e, view),
    ensures
        ({
            let msg = MessageView::NewView {
                view,
                leader: announced,
                view_change_proofs: proofs,
            };
            let (after, actions) = protocol::dispatch(e, signed, msg, now);
            &&& after.view == view
            &&& after.pace.view == view
            &&& (after, actions) == protocol::advance_to_view(e, view, now)
            &&& signed.sender != e.id ==> (after, actions) == (
                arrived(e, view, now),
                Seq::<ActionView>::empty(),
            )
        }),
{
    lemma_arrived(e, view, now);
}

/// After the announcement of a view its leader is followed there: what it proposes
/// at a sequence where the node has not voted gets the node's vote, whatever phase
/// the announcement found the node in.
pub proof fn law_announced_leader_is_followed(
    e: EngineView,
    news: SignedView,
    proofs: votes::Votes,
    proposal: SignedView,
    block: BlockView,
    now: u64,
    later: u64,
)
    requires
        block.view > e.view,
        news.sender == protocol::leader(e, block.view),
        proposal.sender == news.sender,
        news.sender != e.id,
        !e.voted.contains_key(block.sequence),
    ensures
        ({
            let told = protocol::dispatch(
                e,
                news,
                MessageView::NewView {
                    view: block.view,
                    leader: news.sender,
                    view_change_proofs: proofs,
                },
                now,
            ).0;
            let (after, actions) = protocol::dispatch(
                told,
                proposal,
                MessageView::Propose { block },
                later,
            );
            &&& after.voted.contains_key(block.sequence)
            &&& after.voted[block.sequence] == block
            &&& after.pending.contains_key((block.view, block.sequence))
            &&& after.pending[(block.view, block.sequence)].block == block
            &&& actions.len() == 1
            &&& actions[0] is Send
            &&& actions[0]->target == news.sender
        }),
{
    law_announced_view_is_taken(e, news, block.view, news.sender, proofs, now);
    law_proposal_is_voted_for(arrived(e, block.view, now), proposal, block, later);
}

/// The announcement of a view that is not higher changes nothing.
pub proof fn law_old_view_is_not_taken(
    e: EngineView,
    signed: SignedView,
    view: ViewNumber,
    announced: NodeId,
    proofs: votes::Votes,
    now: u64,
)
    requires
        view <= e.view,
    ensures
        protocol::dispatch(
            e,
            signed,
            MessageView::NewView { view, leader: announced, view_change_proofs: proofs },
            now,
        ) == (e, Seq::<ActionView>::empty()),
{
}

/// A request for a higher view, by the node that signed it, is counted, and kept
/// as it was signed. The view changes exactly where a quorum of different nodes
/// has then asked for it; a node that does not lead the view is then there, and
/// before that nothing else happens.
pub proof fn law_view_change_is_counted(
    e: EngineView,
    signed: SignedView,
    new_view: ViewNumber,
    last_committed_seq: u64,
    now: u64,
)
    requires
        new_view > e.view,
        e.pace.view == e.view,
        !votes::has_voted(votes::votes_at(e.view_changes, (new_view, 0)), signed.sender),
    ensures
        ({
            let msg = MessageView::ViewChange {
                new_view,
                sender: signed.sender,
                last_committed_seq,
            };
            let key = (new_view, 0u64);
            let asking = Set::new(
                |node: NodeId| node == signed.sender || e.pace.votes.contains((new_view, node)),
            );
            let counted = EngineView {
                pace: PaceView {
                    votes: e.pace.votes.insert((new_view, signed.sender)),
                    ..e.pace
                },
                view_changes: VotesView {
                    slots: e.view_changes.slots.insert(
                        key,
                        votes::votes_at(e.view_changes, key).push(
                            (signed.sender, codec::enc_signed(signed)),
                        ),
                    ),
                    ..e.view_changes
                },
                ..e
            };
            let (after, actions) = protocol::dispatch(e, signed, msg, now);
            if asking.len() < e.pace.quorum {
                (after, actions) == (counted, Seq::<ActionView>::empty())
            } else {
                &&& after.view == new_view
                &&& (after, actions) == protocol::advance_to_view(counted, new_view, now)
                &&& protocol::leader(e, new_view) != e.id ==> (after, actions) == (
                    arrived(counted, new_view, now),
                    Seq::<ActionView>::empty(),
                )
            }
        }),
{
    let votes = e.pace.votes.insert((new_view, signed.sender));
    assert(pacemaker::supporters(votes, new_view) =~= Set::new(
        |node: NodeId| node == signed.sender || e.pace.votes.contains((new_view, node)),
    ));
    let key = (new_view, 0u64);
    let counted = EngineView {
        pace: PaceView { votes, ..e.pace },
        view_changes: VotesView {
            slots: e.view_changes.slots.insert(
                key,
                votes::votes_at(e.view_changes, key).push(
                    (signed.sender, codec::enc_signed(signed)),
                ),
            ),
            ..e.view_changes
        },
        ..e
    };
    lemma_arrived(counted, new_view, now);
}

/// A request for a view that a node repeats changes nothing below a quorum.
pub proof fn law_repeated_view_change_ignored(
    e: EngineView,
    signed: SignedView,
    new_view: ViewNumber,
    last_committed_seq: u64,
    now: u64,
)
    requires
        new_view > e.view,
        e.pace.view == e.view,
        e.pace.votes.contains((new_view, signed.sender)),
        votes::has_voted(votes::votes_at(e.view_changes, (new_view, 0)), signed.sender),
        Set::new(|node: NodeId| e.pace.votes.contains((new_view, node))).len() < e.pace.quorum,
    ensures
        protocol::dispatch(
            e,
            signed,
            MessageView::ViewChange { new_view, sender: signed.sender, last_committed_seq },
            now,
        ) == (e, Seq::<ActionView>::empty()),
{
    let votes = e.pace.votes.insert((new_view, signed.sender));
    assert(votes =~= e.pace.votes);
    assert(pacemaker::supporters(votes, new_view) =~= Set::new(
        |node: NodeId| e.pace.votes.contains((new_view, node)),
    ));
}

/// A request for a view that is not higher changes nothing.
pub proof fn law_old_view_change_ignored(
    e: EngineView,
    signed: SignedView,
    new_view: ViewNumber,
    sender: NodeId,
    last_committed_seq: u64,
    now: u64,
)
    requires
        new_view <= e.view,
        e.pace.view == e.view,
    ensures
        protocol::dispatch(
            e,
            signed,
            MessageView::ViewChange { new_view, sender, last_committed_seq },
            now,
        ) == (e, Seq::<ActionView>::empty()),
{
}

/// A node whose view times out asks everyone for the next view and counts its own
/// request. Below a quorum it stays in its view, with the timeout of the view
/// before it, and only its phase and the collected requests change.
pub proof fn law_timeout_starts_view_change(e: EngineView, now: u64)
    requires
        e.view < u64::MAX,
        e.pace.view == e.view,
        e.pace.quorum > Set::new(
            |node: NodeId| node == e.id || e.pace.votes.contains(((e.view + 1) as u64, node)),
        ).len(),
        !votes::has_voted(votes::votes_at(e.view_changes, ((e.view + 1) as u64, 0)), e.id),
    ensures
        ({
            let new_view = (e.view + 1) as u64;
            let key = (new_view, 0u64);
            let msg = MessageView::ViewChange {
                new_view,
                sender: e.id,
                last_committed_seq: e.last_committed,
            };
            let signed = SignedView {
                sender: e.signer,
                payload: codec::enc_message(msg),
                signature: crypto::ed25519_signature(
                    e.seed,
                    crypto::signing_input(e.chain_id, new_view, codec::enc_message(msg)),
                ),
            };
            let waiting = resumed(e.pace, PaceMakerState::ViewChanging, now);
            protocol::handle_timeout(e, now) == (
                EngineView {
                    pace: PaceView { votes: e.pace.votes.insert((new_view, e.id)), ..waiting },
                    view_changes: VotesView {
                        slots: e.view_changes.slots.insert(
                            key,
                            votes::votes_at(e.view_changes, key).push(
                                (e.id, codec::enc_signed(signed)),
                            ),
                        ),
                        ..e.view_changes
                    },
                    ..e
                },
                seq![ActionView::Broadcast(protocol::wire_for(e, msg, new_view))],
            )
        }),
{
    let new_view = (e.view + 1) as u64;
    let votes = e.pace.votes.insert((new_view, e.id));
    assert(pacemaker::supporters(votes, new_view) =~= Set::new(
        |node: NodeId| node == e.id || e.pace.votes.contains(((e.view + 1) as u64, node)),
    ));
    lemma_resumed(e.pace, PaceMakerState::ViewChanging, now);
    let after = protocol::handle_timeout(e, now);
    let msg = MessageView::ViewChange {
        new_view,
        sender: e.id,
        last_committed_seq: e.last_committed,
    };
    assert(after.1 =~= seq![ActionView::Broadcast(protocol::wire_for(e, msg, new_view))]);
}

/// A node whose own request completes a quorum moves to the next view behind the
/// request that it sends; one that times out again before that asks again, with
/// the timeout of its view before it, and is not counted again.
pub proof fn law_timeout_goes_on(e: EngineView, now: u64)
    requires
        e.view < u64::MAX,
        e.pace.view == e.view,
    ensures
        ({
            let new_view = (e.view + 1) as u64;
            let key = (new_view, 0u64);
            let msg = MessageView::ViewChange {
                new_view,
                sender: e.id,
                last_committed_seq: e.last_committed,
            };
            let signed = protocol::signed_for(e, msg, new_view);
            let asking = Set::new(
                |node: NodeId| node == e.id || e.pace.votes.contains((new_view, node)),
            );
            let waiting = resumed(e.pace, PaceMakerState::ViewChanging, now);
            let asked = EngineView {
                pace: PaceView { votes: e.pace.votes.insert((new_view, e.id)), ..waiting },
                view_changes: VotesView {
                    slots: e.view_changes.slots.insert(
                        key,
                        votes::votes_at(e.view_changes, key).push(
                            (e.id, codec::enc_signed(signed)),
                        ),
                    ),
                    ..e.view_changes
                },
                ..e
            };
            let news = seq![ActionView::Broadcast(protocol::wire_for(e, msg, new_view))];
            let before = votes::has_voted(votes::votes_at(e.view_changes, key), e.id);
            let moved = protocol::advance_to_view(asked, new_view, now);
            let (after, actions) = protocol::handle_timeout(e, now);
            &&& asking.len() >= e.pace.quorum ==> after.view == new_view
            &&& asking.len() >= e.pace.quorum && !before ==> (after, actions) == (
                moved.0,
                news + moved.1,
            )
            &&& asking.len() < e.pace.quorum && before && e.pace.votes.contains(
                (new_view, e.id),
            ) ==> (after, actions) == (EngineView { pace: waiting, ..e }, news)
        }),
{
    let new_view = (e.view + 1) as u64;
    let votes = e.pace.votes.insert((new_view, e.id));
    assert(pacemaker::supporters(votes, new_view) =~= Set::new(
        |node: NodeId| node == e.id || e.pace.votes.contains((new_view, node)),
    ));
    lemma_resumed(e.pace, PaceMakerState::ViewChanging, now);
    if e.pace.votes.contains((new_view, e.id)) {
        assert(votes =~= e.pace.votes);
    }
    let after = protocol::handle_timeout(e, now);
    let msg = MessageView::ViewChange {
        new_view,
        sender: e.id,
        last_committed_seq: e.last_committed,
    };
    let news = seq![ActionView::Broadcast(protocol::wire_for(e, msg, new_view))];
    assert(news + Seq::<ActionView>::empty() =~= news);
}

/// Behind the last view there is none: a node that times out there asks for view 0,
/// which nobody counts, and stays where it is.
pub proof fn law_timeout_in_last_view(e: EngineView, now: u64)
    requires
        e.view == u64::MAX,
        e.pace.view == e.view,
    ensures
        ({
            let msg = MessageView::ViewChange {
                new_view: 0,
                sender: e.id,
                last_committed_seq: e.last_committed,
            };
            protocol::handle_timeout(e, now) == (
                EngineView { pace: resumed(e.pace, PaceMakerState::ViewChanging, now), ..e },
                seq![ActionView::Broadcast(protocol::wire_for(e, msg, 0))],
            )
        }),
{
    lemma_resumed(e.pace, PaceMakerState::ViewChanging, now);
    let msg = MessageView::ViewChange {
        new_view: 0,
        sender: e.id,
        last_committed_seq: e.last_committed,
    };
    let news = seq![ActionView::Broadcast(protocol::wire_for(e, msg, 0))];
    assert(news + Seq::<ActionView>::empty() =~= news);
}

/// A node that moves to a view that it does not lead is there and does nothing
/// more; one that leads it is there before it announces it and proposes.
pub proof fn law_node_arrives_in_view(e: EngineView, view: ViewNumber, now: u64)
    ensures
        protocol::leader(e, view) != e.id ==> protocol::advance_to_view(e, view, now) == (
            arrived(e, view, now),
            Seq::<ActionView>::empty(),
        ),
        protocol::leader(e, view) == e.id ==> protocol::advance_to_view(e, view, now) == (
            protocol::try_propose(arrived(e, view, now), now).0,
            seq![
                ActionView::Broadcast(
                    protocol::wire_for(
                        e,
                        MessageView::NewView {
                            view,
                            leader: e.id,
                            view_change_proofs: votes::votes_at(e.view_changes, (view, 0)),
                        },
                        view,
                    ),
                ),
            ] + protocol::try_propose(arrived(e, view, now), now).1,
        ),
{
    lemma_arrived(e, view, now);
    assert(votes::votes_at(protocol::in_view(e, view, now).view_changes, (view, 0))
        == votes::votes_at(e.view_changes, (view, 0)));
}

/// A node that moves to a view that it does not lead takes its log, its blocks, its
/// votes at each sequence and its waiting requests with it. What it has collected
/// for that view and later ones stays, and what it has for earlier ones goes. It
/// waits for a proposal, with the timeout of the view before it.
pub proof fn law_view_change_keeps_the_log(
    e: EngineView,
    view: ViewNumber,
    key: SlotKey,
    node: NodeId,
    now: u64,
)
    requires
        protocol::leader(e, view) != e.id,
    ensures
        ({
            let after = protocol::advance_to_view(e, view, now).0;
            &&& after.view == view
            &&& after.id == e.id
            &&& after.peers == e.peers
            &&& after.chain_id == e.chain_id
            &&& after.signer == e.signer
            &&& after.seed == e.seed
            &&& after.keys == e.keys
            &&& after.next_sequence == e.next_sequence
            &&& after.last_committed == e.last_committed
            &&& after.last_hash == e.last_hash
            &&& after.voted == e.voted
            &&& after.applied == e.applied
            &&& after.pending == e.pending
            &&& after.requests == e.requests
            &&& after.committed == e.committed
            &&& after.votes.quorum == e.votes.quorum
            &&& after.view_changes.quorum == e.view_changes.quorum
            &&& key.0 >= view ==> {
                &&& votes::votes_at(after.votes, key) == votes::votes_at(e.votes, key)
                &&& votes::votes_at(after.view_changes, key) == votes::votes_at(
                    e.view_changes,
                    key,
                )
            }
            &&& key.0 < view ==> {
                &&& votes::votes_at(after.votes, key).len() == 0
                &&& votes::votes_at(after.view_changes, key).len() == 0
            }
            &&& after.pace.votes.contains((key.0, node)) <==> key.0 > view
                && e.pace.votes.contains((key.0, node))
            &&& after.pace.view == view
            &&& after.pace.state == PaceMakerState::WaitingForProposal
            &&& after.pace.quorum == e.pace.quorum
            &&& after.pace.base == e.pace.base
            &&& after.pace.last_activity == now
            &&& after.pace.deadline - now == e.pace.base * power2::pow2(
                if view <= 10 {
                    view as nat
                } else {
                    10
                },
            )
        }),
{
    lemma_arrived(e, view, now);
}

/// Recorded activity gives the view its whole timeout again and changes nothing
/// else.
pub proof fn law_activity_extends_deadline(e: EngineView, now: u64)
    ensures
        protocol::active(e, now) == (EngineView {
            pace: resumed(e.pace, e.pace.state, now),
            ..e
        }),
{
    lemma_resumed(e.pace, e.pace.state, now);
}

// ---------------------------------------------------------------------------
// Clients
// ---------------------------------------------------------------------------

/// A node that does not lead changes nothing on a request and says who leads.
pub proof fn law_request_refused_by_replica(e: EngineView, request: RequestView, now: u64)
    requires
        protocol::leader(e, e.view) != e.id,
    ensures
        ({
            let (after, actions) = protocol::handle_client_request(e, request, now);
            &&& after == e
            &&& actions == seq![
                ActionView::Reply(
                    ResponseView {
                        request_id: request.request_id,
                        success: false,
                        value: None,
                        error: Some(
                            "not leader; current leader is node "@ + text::decimal(
                                protocol::leader(e, e.view) as nat,
                            ),
                        ),
                    },
                ),
            ]
        }),
{
}

/// A leader takes a request behind those that wait, and then proposes as it does
/// at any time.
pub proof fn law_request_joins_the_queue(e: EngineView, request: RequestView, now: u64)
    requires
        protocol::leader(e, e.view) == e.id,
    ensures
        protocol::handle_client_request(e, request, now) == protocol::try_propose(
            EngineView { requests: e.requests + seq![request], ..e },
            now,
        ),
{
    assert(e.requests + seq![request] =~= e.requests.push(request));
}

} // verus!
