//! No two nodes commit different values for a sequence, in whatever views and
//! whoever leads them, while no more nodes are faulty than the cluster
//! tolerates.
use vstd::prelude::*;

use crate::cluster;
use crate::codec;
use crate::crypto::CryptoErrorView;
use crate::engine;
use crate::hash;
use crate::pacemaker;
use crate::pacemaker::PaceMakerState;
use crate::pending;
use crate::pending::PendingView;
use crate::protocol;
use crate::protocol::EngineView;
use crate::safety;
use crate::safety::EventView;
use crate::types;
use crate::types::{BlockView, MessageType, MessageView, NodeConfig, NodeId, RequestId, SequenceNumber, SignedView, ViewNumber};
use crate::votes;
use crate::votes::{SlotKey, Votes};

verus! {

// ---------------------------------------------------------------------------
// What a node has voted for
// ---------------------------------------------------------------------------

/// Votes for a block: each is one that this node cast, which then stays with the
/// operations of the block, or one that its voter signed.
pub open spec fn backs(e: EngineView, block: BlockView, cast: Votes) -> bool {
    forall|i: int|
        0 <= i < cast.len() ==> ((#[trigger] cast[i]).0 == e.id && stays_with(e, block))
            || protocol::is_vote(
            e,
            pending::slot_of(block),
            hash::block_hash(block),
            cast[i].0,
            cast[i].1,
        )
}

/// A node has voted for the operations of a block at its sequence.
pub open spec fn stays_with(e: EngineView, block: BlockView) -> bool {
    e.voted.contains_key(block.sequence) && e.voted[block.sequence].operations
        == block.operations
}

/// A quorum of votes for a block.
pub open spec fn carries(e: EngineView, block: BlockView, cast: Votes) -> bool {
    &&& cast.len() >= e.votes.quorum
    &&& votes::one_vote_each(cast)
    &&& backs(e, block, cast)
}

/// The records of a node fit together: votes are on record for their sequences
/// and pending blocks for their slots; in the views that it leads, this node has
/// voted for what is pending; and the votes that it has collected for a pending
/// block are votes for that block.
pub open spec fn orderly(e: EngineView) -> bool {
    &&& forall|s: SequenceNumber| #[trigger]
        e.voted.contains_key(s) ==> e.voted[s].sequence == s && e.voted[s].view <= e.view
    &&& forall|key: SlotKey| #[trigger]
        e.pending.contains_key(key) ==> {
            &&& pending::slot_of(e.pending[key].block) == key
            &&& protocol::leader(e, key.0) == e.id ==> e.voted.contains_key(key.1)
                && e.voted[key.1].view >= key.0
        }
    &&& forall|key: SlotKey| #[trigger]
        e.votes.slots.contains_key(key) ==> {
            &&& protocol::leader(e, key.0) == e.id
            &&& e.voted.contains_key(key.1)
            &&& e.voted[key.1].view >= key.0
        }
    &&& forall|key: SlotKey| #[trigger]
        e.votes.slots.contains_key(key) && e.pending.contains_key(key) ==> backs(
            e,
            e.pending[key].block,
            e.votes.slots[key],
        )
}

/// A quorum has voted for a block of a sequence with the operations that this
/// node has applied, and the block is among those that it has held.
pub open spec fn justified(e: EngineView, s: SequenceNumber, held: Set<BlockView>) -> bool {
    exists|block: BlockView, cast: Votes|
        {
            &&& held.contains(block)
            &&& block.sequence == s
            &&& block.operations == e.applied[s]
            &&& #[trigger] carries(e, block, cast)
        }
}

/// A node whose records fit together has held the blocks `held`, and applies
/// nothing without a quorum.
pub open spec fn accounted(e: EngineView, held: Set<BlockView>) -> bool {
    &&& safety::consistent(e)
    &&& orderly(e)
    &&& forall|key: SlotKey| #[trigger]
        e.pending.contains_key(key) ==> held.contains(e.pending[key].block)
    &&& forall|s: SequenceNumber| #[trigger] e.applied.contains_key(s) ==> justified(e, s, held)
}

proof fn lemma_backs_same(e: EngineView, after: EngineView, block: BlockView, cast: Votes)
    requires
        after.id == e.id,
        after.keys == e.keys,
        after.chain_id == e.chain_id,
        safety::keeps_votes(e, after),
        backs(e, block, cast),
    ensures
        backs(after, block, cast),
{
    let key = pending::slot_of(block);
    let block_hash = hash::block_hash(block);
    assert forall|i: int| 0 <= i < cast.len() implies ((#[trigger] cast[i]).0 == after.id
        && stays_with(after, block)) || protocol::is_vote(
        after,
        key,
        block_hash,
        cast[i].0,
        cast[i].1,
    ) by {
        assert((cast[i].0 == e.id && stays_with(e, block)) || protocol::is_vote(
            e,
            key,
            block_hash,
            cast[i].0,
            cast[i].1,
        ));
    }
}

proof fn lemma_justified_same(
    e: EngineView,
    after: EngineView,
    s: SequenceNumber,
    held: Set<BlockView>,
    more: Set<BlockView>,
)
    requires
        justified(e, s, held),
        safety::follows_on(e, after),
        e.applied.contains_key(s),
        held.subset_of(more),
    ensures
        justified(after, s, more),
{
    let (block, cast) = choose|block: BlockView, cast: Votes|
        {
            &&& held.contains(block)
            &&& block.sequence == s
            &&& block.operations == e.applied[s]
            &&& #[trigger] carries(e, block, cast)
        };
    lemma_backs_same(e, after, block, cast);
    assert(carries(after, block, cast));
}

/// Where more blocks count as held, nothing is lost.
proof fn lemma_accounted_wider(e: EngineView, held: Set<BlockView>, more: Set<BlockView>)
    requires
        accounted(e, held),
        held.subset_of(more),
    ensures
        accounted(e, more),
{
    assert forall|s: SequenceNumber| #[trigger] e.applied.contains_key(s) implies justified(
        e,
        s,
        more,
    ) by {
        lemma_justified_same(e, e, s, held, more);
    }
}

/// A change that touches neither the votes of this node nor what it holds.
proof fn lemma_accounted_same(e: EngineView, after: EngineView, held: Set<BlockView>)
    requires
        accounted(e, held),
        safety::consistent(after),
        safety::follows_on(e, after),
        after.voted == e.voted,
        after.pending == e.pending,
        after.applied == e.applied,
        forall|key: SlotKey| #[trigger]
            after.votes.slots.contains_key(key) ==> e.votes.slots.contains_key(key)
                && after.votes.slots[key] == e.votes.slots[key],
    ensures
        accounted(after, held),
{
    assert forall|key: SlotKey| #[trigger]
        after.votes.slots.contains_key(key) && after.pending.contains_key(key) implies backs(
        after,
        after.pending[key].block,
        after.votes.slots[key],
    ) by {
        assert(e.votes.slots.contains_key(key));
        lemma_backs_same(e, after, e.pending[key].block, e.votes.slots[key]);
    }
    assert forall|key: SlotKey| #[trigger] after.pending.contains_key(key) implies {
        &&& pending::slot_of(after.pending[key].block) == key
        &&& protocol::leader(after, key.0) == after.id ==> after.voted.contains_key(key.1)
            && after.voted[key.1].view >= key.0
    } by {
        assert(e.pending.contains_key(key));
    }
    assert forall|key: SlotKey| #[trigger] after.votes.slots.contains_key(key) implies {
        &&& protocol::leader(after, key.0) == after.id
        &&& after.voted.contains_key(key.1)
        &&& after.voted[key.1].view >= key.0
    } by {
        assert(e.votes.slots.contains_key(key));
    }
    assert forall|s: SequenceNumber| #[trigger] after.applied.contains_key(s) implies justified(
        after,
        s,
        held,
    ) by {
        assert(e.applied.contains_key(s));
        lemma_justified_same(e, after, s, held, held);
    }
}

proof fn lemma_settle_accounted(
    e: EngineView,
    key: SlotKey,
    block_hash: Seq<u8>,
    now: u64,
    cast: Votes,
    held: Set<BlockView>,
)
    requires
        accounted(e, held),
        e.pending.contains_key(key) ==> carries(e, e.pending[key].block, cast),
    ensures
        accounted(protocol::settle(e, key, block_hash, now).0, held),
        safety::follows_on(e, protocol::settle(e, key, block_hash, now).0),
{
    let after = protocol::settle(e, key, block_hash, now).0;
    assert forall|k: SlotKey| #[trigger]
        after.votes.slots.contains_key(k) && after.pending.contains_key(k) implies backs(
        after,
        after.pending[k].block,
        after.votes.slots[k],
    ) by {
        assert(e.pending.contains_key(k));
        assert(e.votes.slots.contains_key(k));
        lemma_backs_same(e, after, e.pending[k].block, e.votes.slots[k]);
    }
    assert forall|k: SlotKey| #[trigger] after.pending.contains_key(k) implies {
        &&& pending::slot_of(after.pending[k].block) == k
        &&& protocol::leader(after, k.0) == after.id ==> after.voted.contains_key(k.1)
            && after.voted[k.1].view >= k.0
        &&& held.contains(after.pending[k].block)
    } by {
        assert(e.pending.contains_key(k));
    }
    assert forall|k: SlotKey| #[trigger] after.votes.slots.contains_key(k) implies {
        &&& protocol::leader(after, k.0) == after.id
        &&& after.voted.contains_key(k.1)
        &&& after.voted[k.1].view >= k.0
    } by {
        assert(e.votes.slots.contains_key(k));
    }
    assert forall|s: SequenceNumber| #[trigger] after.applied.contains_key(s) implies justified(
        after,
        s,
        held,
    ) by {
        if e.applied.contains_key(s) {
            lemma_justified_same(e, after, s, held, held);
        } else {
            assert(s == key.1 && e.pending.contains_key(key));
            let block = e.pending[key].block;
            lemma_backs_same(e, after, block, cast);
            assert(carries(after, block, cast));
        }
    }
}

proof fn lemma_count_vote_accounted(
    e: EngineView,
    key: SlotKey,
    block_hash: Seq<u8>,
    voter: NodeId,
    signature: Seq<u8>,
    now: u64,
    held: Set<BlockView>,
)
    requires
        accounted(e, held),
        protocol::leader(e, key.0) == e.id,
        e.pending.contains_key(key),
        block_hash == hash::block_hash(e.pending[key].block),
        (voter == e.id && stays_with(e, e.pending[key].block)) || protocol::is_vote(
            e,
            key,
            block_hash,
            voter,
            signature,
        ),
    ensures
        accounted(protocol::count_vote(e, key, block_hash, voter, signature, now).0, held),
        safety::follows_on(
            e,
            protocol::count_vote(e, key, block_hash, voter, signature, now).0,
        ),
{
    let (collected, reached) = votes::vote_step(e.votes, key, voter, signature);
    let counted = EngineView { votes: collected, ..e };
    let block = e.pending[key].block;
    votes::law_quorum_of_distinct_voters(e.votes, key, voter, signature);
    let cast = votes::votes_at(collected, key);
    assert(pending::slot_of(block) == key);
    assert(backs(counted, block, cast)) by {
        assert forall|i: int| 0 <= i < cast.len() implies ((#[trigger] cast[i]).0 == counted.id
            && stays_with(counted, block)) || protocol::is_vote(
            counted,
            key,
            block_hash,
            cast[i].0,
            cast[i].1,
        ) by {
            let before = votes::votes_at(e.votes, key);
            if i < before.len() {
                assert(e.votes.slots.contains_key(key));
                assert(cast[i] == before[i]);
                assert((before[i].0 == e.id && stays_with(e, block)) || protocol::is_vote(
                    e,
                    key,
                    block_hash,
                    before[i].0,
                    before[i].1,
                ));
            }
        }
    }
    assert forall|k: SlotKey| #[trigger]
        counted.votes.slots.contains_key(k) && counted.pending.contains_key(k) implies backs(
        counted,
        counted.pending[k].block,
        counted.votes.slots[k],
    ) by {
        if k != key {
            assert(e.votes.slots.contains_key(k));
            lemma_backs_same(e, counted, e.pending[k].block, e.votes.slots[k]);
        }
    }
    assert forall|k: SlotKey| #[trigger] counted.pending.contains_key(k) implies {
        &&& pending::slot_of(counted.pending[k].block) == k
        &&& protocol::leader(counted, k.0) == counted.id ==> counted.voted.contains_key(k.1)
            && counted.voted[k.1].view >= k.0
    } by {
        assert(e.pending.contains_key(k));
    }
    assert forall|k: SlotKey| #[trigger] counted.votes.slots.contains_key(k) implies {
        &&& protocol::leader(counted, k.0) == counted.id
        &&& counted.voted.contains_key(k.1)
        &&& counted.voted[k.1].view >= k.0
    } by {
        if k != key {
            assert(e.votes.slots.contains_key(k));
        }
    }
    assert forall|s: SequenceNumber| #[trigger] counted.applied.contains_key(s) implies justified(
        counted,
        s,
        held,
    ) by {
        lemma_justified_same(e, counted, s, held, held);
    }
    if reached && !e.committed.contains(block_hash) {
        lemma_settle_accounted(counted, key, block_hash, now, cast, held);
    }
}

/// The state after a block has become pending, whether this node votes for it or
/// not.
proof fn lemma_block_accounted(
    e: EngineView,
    after: EngineView,
    block: BlockView,
    request_ids: Seq<RequestId>,
    held: Set<BlockView>,
)
    requires
        accounted(e, held),
        safety::consistent(after),
        safety::follows_on(e, after),
        block.view == e.view,
        after.view == e.view,
        e.voted.contains_key(block.sequence) ==> e.voted[block.sequence].view < block.view,
        after.voted == e.voted.insert(block.sequence, block) || (after.voted == e.voted
            && protocol::leader(e, e.view) != e.id),
        after.pending == e.pending.insert(
            pending::slot_of(block),
            PendingView { block, request_ids },
        ),
        after.applied == e.applied,
        after.votes == e.votes,
    ensures
        accounted(after, held.insert(block)),
{
    let slot = pending::slot_of(block);
    let more = held.insert(block);
    assert(!e.votes.slots.contains_key(slot));
    assert forall|key: SlotKey| #[trigger] after.pending.contains_key(key) implies {
        &&& pending::slot_of(after.pending[key].block) == key
        &&& protocol::leader(after, key.0) == after.id ==> after.voted.contains_key(key.1)
            && after.voted[key.1].view >= key.0
        &&& more.contains(after.pending[key].block)
    } by {
        if key != slot {
            assert(e.pending.contains_key(key));
        }
    }
    assert forall|key: SlotKey| #[trigger]
        after.votes.slots.contains_key(key) && after.pending.contains_key(key) implies backs(
        after,
        after.pending[key].block,
        after.votes.slots[key],
    ) by {
        assert(e.pending.contains_key(key));
        assert(e.votes.slots.contains_key(key));
        lemma_backs_same(e, after, e.pending[key].block, e.votes.slots[key]);
    }
    assert forall|key: SlotKey| #[trigger] after.votes.slots.contains_key(key) implies {
        &&& protocol::leader(after, key.0) == after.id
        &&& after.voted.contains_key(key.1)
        &&& after.voted[key.1].view >= key.0
    } by {
        assert(e.votes.slots.contains_key(key));
    }
    assert forall|s: SequenceNumber| #[trigger] after.applied.contains_key(s) implies justified(
        after,
        s,
        more,
    ) by {
        assert(e.applied.contains_key(s));
        lemma_justified_same(e, after, s, held, more);
    }
}

/// The blocks that count as held once a state has proposed what it can.
pub open spec fn with_proposal(e: EngineView, held: Set<BlockView>) -> Set<BlockView> {
    if protocol::proposes(e) {
        held.insert(protocol::next_block(e))
    } else {
        held
    }
}

proof fn lemma_try_propose_accounted(e: EngineView, now: u64, held: Set<BlockView>)
    requires
        accounted(e, held),
    ensures
        accounted(protocol::try_propose(e, now).0, with_proposal(e, held)),
        protocol::proposes(e) ==> protocol::try_propose(e, now).0.voted == e.voted.insert(
            e.next_sequence,
            protocol::next_block(e),
        ),
        !protocol::proposes(e) ==> protocol::try_propose(e, now).0 == e,
{
    if protocol::proposes(e) {
        let block = protocol::next_block(e);
        let key = (e.view, e.next_sequence);
        let ready = protocol::proposed(e, now);
        lemma_block_accounted(e, ready, block, ready.pending[key].request_ids, held);
        lemma_count_vote_accounted(
            ready,
            key,
            hash::block_hash(block),
            e.id,
            protocol::signed_for(e, protocol::vote_for(e, block), e.view).signature,
            now,
            held.insert(block),
        );
    }
}

// ---------------------------------------------------------------------------
// Every event
// ---------------------------------------------------------------------------

/// The blocks that a node has on record: those that it voted for last, and those
/// that are pending.
pub open spec fn on_record(e: EngineView) -> Set<BlockView> {
    cast_in(e).union(
        Set::new(
            |block: BlockView|
                exists|key: SlotKey| #[trigger]
                    e.pending.contains_key(key) && e.pending[key].block == block,
        ),
    )
}

/// The blocks that a node voted for last, each at its sequence.
pub open spec fn cast_in(e: EngineView) -> Set<BlockView> {
    Set::new(
        |block: BlockView|
            exists|s: SequenceNumber| #[trigger]
                e.voted.contains_key(s) && e.voted[s] == block,
    )
}

/// The blocks that count as held after a step: those that did before, and those
/// on record after it.
pub open spec fn recorded(after: EngineView, held: Set<BlockView>) -> Set<BlockView> {
    held.union(on_record(after))
}

proof fn lemma_proposal_recorded(e: EngineView, now: u64, held: Set<BlockView>)
    requires
        accounted(e, held),
    ensures
        accounted(
            protocol::try_propose(e, now).0,
            recorded(protocol::try_propose(e, now).0, held),
        ),
{
    let after = protocol::try_propose(e, now).0;
    lemma_try_propose_accounted(e, now, held);
    if protocol::proposes(e) {
        assert(after.voted.contains_key(e.next_sequence));
        assert(recorded(after, held).contains(protocol::next_block(e)));
    }
    assert(with_proposal(e, held).subset_of(recorded(after, held)));
    lemma_accounted_wider(after, with_proposal(e, held), recorded(after, held));
}

proof fn lemma_advance_accounted(
    e: EngineView,
    new_view: ViewNumber,
    now: u64,
    held: Set<BlockView>,
)
    requires
        accounted(e, held),
        new_view >= e.view,
    ensures
        accounted(
            protocol::advance_to_view(e, new_view, now).0,
            recorded(protocol::advance_to_view(e, new_view, now).0, held),
        ),
{
    let moved = protocol::in_view(e, new_view, now);
    lemma_accounted_same(e, moved, held);
    if protocol::leads(moved) {
        lemma_proposal_recorded(moved, now, held);
    } else {
        lemma_accounted_wider(moved, held, recorded(moved, held));
    }
}

proof fn lemma_view_change_accounted(
    e: EngineView,
    sender: NodeId,
    new_view: ViewNumber,
    request: Seq<u8>,
    now: u64,
    held: Set<BlockView>,
)
    requires
        accounted(e, held),
    ensures
        accounted(
            protocol::count_view_change(e, sender, new_view, request, now).0,
            recorded(
                protocol::count_view_change(e, sender, new_view, request, now).0,
                held,
            ),
        ),
{
    let counted = safety::lemma_request_counted(e, sender, new_view, request);
    lemma_accounted_same(e, counted, held);
    if pacemaker::pace_vote(e.pace, new_view, sender).1 {
        lemma_advance_accounted(counted, new_view, now, held);
    } else {
        lemma_accounted_wider(counted, held, recorded(counted, held));
    }
}

/// What is counted as a vote was signed as one by its voter.
proof fn lemma_counted_vote_is_signed(
    e: EngineView,
    signed: SignedView,
    view: ViewNumber,
    sequence: SequenceNumber,
    block_hash: Seq<u8>,
    voter: NodeId,
)
    requires
        protocol::judged(e, signed) == Ok::<_, CryptoErrorView>(
            MessageView::Vote { view, sequence, block_hash, voter },
        ),
        signed.sender == voter,
        signed.payload == codec::enc_message(
            MessageView::Vote { view, sequence, block_hash, voter },
        ),
        view == e.view,
    ensures
        protocol::is_vote(e, (view, sequence), block_hash, voter, signed.signature),
{
    let msg = MessageView::Vote { view, sequence, block_hash, voter };
    let rest = codec::dec_message(signed.payload)->Ok_0.1;
    safety::law_context_view_is_that_of_the_message(signed.payload, msg, rest, e.view);
}

/// A certificate is a quorum of votes for the pending block.
proof fn lemma_certificate_carries(
    e: EngineView,
    key: SlotKey,
    block_hash: Seq<u8>,
    signatures: Votes,
)
    requires
        orderly(e),
        e.pending.contains_key(key),
        protocol::certifies(e, key, block_hash, signatures),
        protocol::fits_pending(e, key, block_hash),
    ensures
        carries(e, e.pending[key].block, signatures),
{
    assert forall|i: int| 0 <= i < signatures.len() implies protocol::is_vote(
        e,
        pending::slot_of(e.pending[key].block),
        hash::block_hash(e.pending[key].block),
        (#[trigger] signatures[i]).0,
        signatures[i].1,
    ) by {}
}

proof fn lemma_dispatch_accounted(
    e: EngineView,
    signed: SignedView,
    msg: MessageView,
    now: u64,
    held: Set<BlockView>,
)
    requires
        accounted(e, held),
        protocol::judged(e, signed) == Ok::<_, CryptoErrorView>(msg),
    ensures
        accounted(
            protocol::dispatch(e, signed, msg, now).0,
            recorded(protocol::dispatch(e, signed, msg, now).0, held),
        ),
{
    let after = protocol::dispatch(e, signed, msg, now).0;
    lemma_accounted_wider(e, held, recorded(e, held));
    match msg {
        MessageView::Propose { block } => {
            if after != e {
                lemma_block_accounted(
                    e,
                    after,
                    block,
                    after.pending[pending::slot_of(block)].request_ids,
                    held,
                );
                assert(after.pending.contains_key(pending::slot_of(block)));
                assert(on_record(after).contains(block));
                assert(held.insert(block).subset_of(recorded(after, held)));
                lemma_accounted_wider(after, held.insert(block), recorded(after, held));
            }
        },
        MessageView::Vote { view, sequence, block_hash, voter } => {
            let key = (view, sequence);
            let step = protocol::handle_vote(e, voter, key, block_hash, signed.signature, now);
            if voter == signed.sender && signed.payload == codec::enc_message(msg) {
                if step.0 != e {
                    assert(e.pending.contains_key(key) && protocol::leads(e));
                    lemma_counted_vote_is_signed(e, signed, view, sequence, block_hash, voter);
                    lemma_count_vote_accounted(
                        e,
                        key,
                        block_hash,
                        voter,
                        signed.signature,
                        now,
                        held,
                    );
                }
                lemma_proposal_recorded(step.0, now, held);
            }
        },
        MessageView::Commit { view, sequence, block_hash, vote_signatures } => {
            let key = (view, sequence);
            let step = protocol::handle_commit(e, key, block_hash, now);
            if protocol::certifies(e, key, block_hash, vote_signatures) && protocol::fits_pending(
                e,
                key,
                block_hash,
            ) && signed.sender == protocol::leader(e, view) {
                if e.pending.contains_key(key) {
                    lemma_certificate_carries(e, key, block_hash, vote_signatures);
                }
                lemma_settle_accounted(e, key, block_hash, now, vote_signatures, held);
                lemma_proposal_recorded(step.0, now, held);
            }
        },
        MessageView::ViewChange { new_view, sender, .. } => {
            if sender == signed.sender {
                lemma_view_change_accounted(
                    e,
                    sender,
                    new_view,
                    codec::enc_signed(signed),
                    now,
                    held,
                );
            }
        },
        MessageView::NewView { view, .. } => {
            if view > e.view {
                lemma_advance_accounted(e, view, now, held);
            }
        },
    }
}

/// Whatever happens to a node, its records fit together, and it applies nothing
/// without a quorum.
pub proof fn law_events_are_accounted_for(
    e: EngineView,
    event: EventView,
    now: u64,
    held: Set<BlockView>,
)
    requires
        accounted(e, held),
    ensures
        accounted(
            safety::on_event(e, event, now).0,
            recorded(safety::on_event(e, event, now).0, held),
        ),
{
    lemma_accounted_wider(e, held, recorded(e, held));
    match event {
        EventView::Wire(wire) => {
            if wire.msg_type == MessageType::Consensus {
                match codec::dec_signed(wire.payload) {
                    Ok((signed, _)) => {
                        match protocol::judged(e, signed) {
                            Ok(msg) => lemma_dispatch_accounted(e, signed, msg, now, held),
                            Err(_) => {},
                        }
                    },
                    Err(_) => {},
                }
            }
        },
        EventView::Request(request) => {
            if protocol::leads(e) {
                let queued = EngineView { requests: e.requests.push(request), ..e };
                lemma_accounted_same(e, queued, held);
                lemma_proposal_recorded(queued, now, held);
            }
        },
        EventView::Timeout => {
            let changing = EngineView {
                pace: pacemaker::pace_transition(e.pace, PaceMakerState::ViewChanging, now),
                ..e
            };
            let new_view = protocol::next(e.view);
            let request = MessageView::ViewChange {
                new_view,
                sender: e.id,
                last_committed_seq: e.last_committed,
            };
            lemma_accounted_same(e, changing, held);
            lemma_view_change_accounted(
                changing,
                e.id,
                new_view,
                codec::enc_signed(protocol::signed_for(changing, request, new_view)),
                now,
                held,
            );
        },
    }
}

// ---------------------------------------------------------------------------
// Agreement
// ---------------------------------------------------------------------------

/// What happens to a node from its start on.
pub struct Run {
    pub config: NodeConfig,
    pub seed: Seq<u8>,
    pub start: u64,
    pub events: Seq<(EventView, u64)>,
}

/// The state in which a node starts.
pub open spec fn first_state(run: Run, keys: Map<NodeId, Seq<u8>>) -> EngineView {
    engine::initial(run.config, run.config.id, run.seed, keys, run.start)
}

/// The state in which a node ends.
pub open spec fn last_state(run: Run, keys: Map<NodeId, Seq<u8>>) -> EngineView {
    safety::after_events(first_state(run, keys), run.events)
}

/// Every block that a node holds on its way from a state: whatever is on record
/// at some point.
pub open spec fn held_on(e: EngineView, events: Seq<(EventView, u64)>) -> Set<BlockView>
    decreases events.len(),
{
    if events.len() == 0 {
        on_record(e)
    } else {
        recorded(safety::after_events(e, events), held_on(e, events.drop_last()))
    }
}

/// Every block that a node votes for on its way from a state.
pub open spec fn cast_on(e: EngineView, events: Seq<(EventView, u64)>) -> Set<BlockView>
    decreases events.len(),
{
    if events.len() == 0 {
        cast_in(e)
    } else {
        cast_on(e, events.drop_last()).union(cast_in(safety::after_events(e, events)))
    }
}

/// Every block that a node holds.
pub open spec fn blocks_of(run: Run, keys: Map<NodeId, Seq<u8>>) -> Set<BlockView> {
    held_on(first_state(run, keys), run.events)
}

/// Every block that a node votes for.
pub open spec fn votes_of(run: Run, keys: Map<NodeId, Seq<u8>>) -> Set<BlockView> {
    cast_on(first_state(run, keys), run.events)
}

/// The nodes that are not faulty run this engine: each under its own number, on
/// one chain, with the keys of the cluster. The others do what they like; there
/// are no more of them than the cluster tolerates.
pub open spec fn is_cluster(
    runs: Map<NodeId, Run>,
    keys: Map<NodeId, Seq<u8>>,
    chain_id: Seq<char>,
    max_faults: nat,
) -> bool {
    &&& keys.dom().finite()
    &&& keys.dom().len() <= 3 * max_faults + 1
    &&& runs.dom().subset_of(keys.dom())
    &&& keys.dom().difference(runs.dom()).len() <= max_faults
    &&& forall|id: NodeId| #[trigger]
        runs.contains_key(id) ==> runs[id].config.id == id && runs[id].config.max_faults
            == max_faults && runs[id].config.chain_id@ == chain_id
}

/// Nobody forges a vote: what verifies as the vote of a node that is not faulty
/// is a vote that it cast.
pub open spec fn unforged(runs: Map<NodeId, Run>, keys: Map<NodeId, Seq<u8>>) -> bool {
    forall|id: NodeId, key: SlotKey, block_hash: Seq<u8>, signature: Seq<u8>|
        runs.contains_key(id) && #[trigger] protocol::is_vote(
            first_state(runs[id], keys),
            key,
            block_hash,
            id,
            signature,
        ) ==> has_cast(votes_of(runs[id], keys), key, block_hash)
}

/// A block of a hash in a slot is among those voted for.
pub open spec fn has_cast(cast: Set<BlockView>, key: SlotKey, block_hash: Seq<u8>) -> bool {
    exists|block: BlockView| #[trigger]
        cast.contains(block) && pending::slot_of(block) == key && hash::block_hash(block)
            == block_hash
}

/// The hash tells the blocks apart that the nodes hold and vote for in a slot.
pub open spec fn told_apart(runs: Map<NodeId, Run>, keys: Map<NodeId, Seq<u8>>) -> bool {
    forall|a: NodeId, b: NodeId, left: BlockView, right: BlockView|
        runs.contains_key(a) && runs.contains_key(b) && #[trigger] blocks_of(
            runs[a],
            keys,
        ).contains(left) && #[trigger] votes_of(runs[b], keys).contains(right)
            && pending::slot_of(left) == pending::slot_of(right) && hash::block_hash(left)
            == hash::block_hash(right) ==> left == right
}

/// On its way from its start a node accounts for everything it does.
pub proof fn law_runs_are_accounted_for(run: Run, keys: Map<NodeId, Seq<u8>>)
    ensures
        accounted(last_state(run, keys), blocks_of(run, keys)),
        safety::follows_on(first_state(run, keys), last_state(run, keys)),
{
    safety::law_start_is_consistent(run.config, run.config.id, run.seed, keys, run.start);
    assert(accounted(first_state(run, keys), on_record(first_state(run, keys))));
    lemma_run_accounted(first_state(run, keys), run.events);
    safety::law_every_state_is_consistent(first_state(run, keys), run.events);
}

proof fn lemma_run_accounted(e: EngineView, events: Seq<(EventView, u64)>)
    requires
        accounted(e, on_record(e)),
    ensures
        accounted(safety::after_events(e, events), held_on(e, events)),
    decreases events.len(),
{
    if events.len() > 0 {
        lemma_run_accounted(e, events.drop_last());
        law_events_are_accounted_for(
            safety::after_events(e, events.drop_last()),
            events.last().0,
            events.last().1,
            held_on(e, events.drop_last()),
        );
    }
}

/// Whatever a node votes for at a sequence, it is the operations that it is on
/// record with in the end.
pub proof fn law_votes_of_a_run_agree(run: Run, keys: Map<NodeId, Seq<u8>>, block: BlockView)
    requires
        votes_of(run, keys).contains(block),
    ensures
        stays_with(last_state(run, keys), block),
{
    safety::law_start_is_consistent(run.config, run.config.id, run.seed, keys, run.start);
    assert(accounted(first_state(run, keys), on_record(first_state(run, keys))));
    lemma_votes_agree(first_state(run, keys), run.events, block);
}

proof fn lemma_votes_agree(e: EngineView, events: Seq<(EventView, u64)>, block: BlockView)
    requires
        accounted(e, on_record(e)),
        cast_on(e, events).contains(block),
    ensures
        stays_with(safety::after_events(e, events), block),
    decreases events.len(),
{
    lemma_run_accounted(e, events);
    if events.len() > 0 {
        let before = safety::after_events(e, events.drop_last());
        lemma_run_accounted(e, events.drop_last());
        safety::law_events_keep_progress(before, events.last().0, events.last().1);
        if cast_on(e, events.drop_last()).contains(block) {
            lemma_votes_agree(e, events.drop_last(), block);
        }
    }
}

/// A node that has voted among a quorum for a block is on record with the
/// operations of the block.
proof fn lemma_voter_on_record(
    runs: Map<NodeId, Run>,
    keys: Map<NodeId, Seq<u8>>,
    chain_id: Seq<char>,
    max_faults: nat,
    settler: NodeId,
    block: BlockView,
    cast: Votes,
    voter: NodeId,
)
    requires
        is_cluster(runs, keys, chain_id, max_faults),
        unforged(runs, keys),
        told_apart(runs, keys),
        runs.contains_key(settler),
        runs.contains_key(voter),
        blocks_of(runs[settler], keys).contains(block),
        backs(last_state(runs[settler], keys), block, cast),
        votes::has_voted(cast, voter),
    ensures
        stays_with(last_state(runs[voter], keys), block),
{
    let e = last_state(runs[settler], keys);
    let i = choose|i: int| 0 <= i < cast.len() && (#[trigger] cast[i]).0 == voter;
    let slot = pending::slot_of(block);
    let block_hash = hash::block_hash(block);
    law_runs_are_accounted_for(runs[settler], keys);
    assert((cast[i].0 == e.id && stays_with(e, block)) || protocol::is_vote(
        e,
        slot,
        block_hash,
        voter,
        cast[i].1,
    ));
    if protocol::is_vote(e, slot, block_hash, voter, cast[i].1) {
        assert(protocol::is_vote(
            first_state(runs[voter], keys),
            slot,
            block_hash,
            voter,
            cast[i].1,
        ));
        assert(has_cast(votes_of(runs[voter], keys), slot, block_hash));
        let own = choose|own: BlockView| #[trigger]
            votes_of(runs[voter], keys).contains(own) && pending::slot_of(own) == slot
                && hash::block_hash(own) == block_hash;
        assert(own == block);
        law_votes_of_a_run_agree(runs[voter], keys, own);
    } else {
        assert(voter == settler);
    }
}

/// The voters of a quorum belong to the cluster.
proof fn lemma_voters_belong(
    runs: Map<NodeId, Run>,
    keys: Map<NodeId, Seq<u8>>,
    chain_id: Seq<char>,
    max_faults: nat,
    settler: NodeId,
    block: BlockView,
    cast: Votes,
)
    requires
        is_cluster(runs, keys, chain_id, max_faults),
        runs.contains_key(settler),
        carries(last_state(runs[settler], keys), block, cast),
    ensures
        votes::voters(cast).subset_of(keys.dom()),
        votes::voters(cast).len() >= types::quorum_for(max_faults),
{
    let e = last_state(runs[settler], keys);
    law_runs_are_accounted_for(runs[settler], keys);
    votes::lemma_voters(cast);
    assert forall|node: NodeId| #[trigger] votes::voters(cast).contains(
        node,
    ) implies keys.dom().contains(node) by {
        let i = choose|i: int| 0 <= i < cast.len() && (#[trigger] cast[i]).0 == node;
        if node == e.id {
            assert(runs.dom().contains(node));
        } else {
            assert(protocol::is_vote(
                e,
                pending::slot_of(block),
                hash::block_hash(block),
                node,
                cast[i].1,
            ));
        }
    }
}

/// Safety: two nodes that are not faulty and have both applied a block for a
/// sequence have applied the same operations, in whatever views, whatever happens
/// to them, and whatever up to `max_faults` other nodes do, leaders among them.
/// It rests on two things: that nobody forges votes, and that the hash tells the
/// blocks apart that are held and voted for in a slot.
pub proof fn law_nodes_agree(
    runs: Map<NodeId, Run>,
    keys: Map<NodeId, Seq<u8>>,
    chain_id: Seq<char>,
    max_faults: nat,
    a: NodeId,
    b: NodeId,
    sequence: SequenceNumber,
)
    ensures
        is_cluster(runs, keys, chain_id, max_faults) && unforged(runs, keys) && told_apart(
            runs,
            keys,
        ) && runs.contains_key(a) && runs.contains_key(b) && last_state(
            runs[a],
            keys,
        ).applied.contains_key(sequence) && last_state(runs[b], keys).applied.contains_key(
            sequence,
        ) ==> last_state(runs[a], keys).applied[sequence] == last_state(
            runs[b],
            keys,
        ).applied[sequence],
{
    let left = last_state(runs[a], keys);
    let right = last_state(runs[b], keys);
    if is_cluster(runs, keys, chain_id, max_faults) && unforged(runs, keys) && told_apart(
        runs,
        keys,
    ) && runs.contains_key(a) && runs.contains_key(b) && left.applied.contains_key(sequence)
        && right.applied.contains_key(sequence) {
        law_runs_are_accounted_for(runs[a], keys);
        law_runs_are_accounted_for(runs[b], keys);
        assert(justified(left, sequence, blocks_of(runs[a], keys)));
        assert(justified(right, sequence, blocks_of(runs[b], keys)));
        let (block_a, cast_a) = choose|block: BlockView, cast: Votes|
            {
                &&& blocks_of(runs[a], keys).contains(block)
                &&& block.sequence == sequence
                &&& block.operations == left.applied[sequence]
                &&& #[trigger] carries(left, block, cast)
            };
        let (block_b, cast_b) = choose|block: BlockView, cast: Votes|
            {
                &&& blocks_of(runs[b], keys).contains(block)
                &&& block.sequence == sequence
                &&& block.operations == right.applied[sequence]
                &&& #[trigger] carries(right, block, cast)
            };
        lemma_voters_belong(runs, keys, chain_id, max_faults, a, block_a, cast_a);
        lemma_voters_belong(runs, keys, chain_id, max_faults, b, block_b, cast_b);
        let faulty = keys.dom().difference(runs.dom());
        vstd::set_lib::lemma_set_subset_finite(keys.dom(), faulty);
        cluster::law_quorums_share_honest_node(
            keys.dom(),
            votes::voters(cast_a),
            votes::voters(cast_b),
            faulty,
            max_faults,
        );
        let node = choose|node: NodeId| #[trigger]
            votes::voters(cast_a).contains(node) && votes::voters(cast_b).contains(node)
                && !faulty.contains(node);
        assert(keys.dom().contains(node));
        assert(runs.contains_key(node));
        lemma_voter_on_record(runs, keys, chain_id, max_faults, a, block_a, cast_a, node);
        lemma_voter_on_record(runs, keys, chain_id, max_faults, b, block_b, cast_b, node);
    }
}

/// What a leader broadcasts with a quorum of votes is a certificate to every node
/// that has the same keys, chain and quorum, as long as its own vote verifies
/// under its own key.
pub proof fn law_certificate_is_accepted(e: EngineView, other: EngineView, key: SlotKey)
    requires
        safety::consistent(e),
        orderly(e),
        e.pending.contains_key(key),
        e.votes.slots.contains_key(key),
        e.votes.slots[key].len() >= e.votes.quorum,
        other.keys == e.keys,
        other.chain_id == e.chain_id,
        other.votes.quorum == e.votes.quorum,
    ensures
        ({
            let block_hash = hash::block_hash(e.pending[key].block);
            let cast = e.votes.slots[key];
            (forall|i: int|
                0 <= i < cast.len() && (#[trigger] cast[i]).0 == e.id ==> protocol::is_vote(
                    e,
                    key,
                    block_hash,
                    cast[i].0,
                    cast[i].1,
                )) ==> protocol::certifies(other, key, block_hash, cast)
        }),
{
    let block = e.pending[key].block;
    let block_hash = hash::block_hash(block);
    let cast = e.votes.slots[key];
    assert(backs(e, block, cast));
    if forall|i: int|
        0 <= i < cast.len() && (#[trigger] cast[i]).0 == e.id ==> protocol::is_vote(
            e,
            key,
            block_hash,
            cast[i].0,
            cast[i].1,
        ) {
        assert forall|i: int| 0 <= i < cast.len() implies protocol::is_vote(
            other,
            key,
            block_hash,
            (#[trigger] cast[i]).0,
            cast[i].1,
        ) by {
            assert(protocol::is_vote(e, key, block_hash, cast[i].0, cast[i].1));
        }
    }
}

/// What a node writes when it settles a slot is what the operations say that are
/// then applied for the sequence: so nodes that agree on these write the same, in
/// the same order. Settling a sequence again writes nothing.
pub proof fn law_applied_operations_are_written(
    e: EngineView,
    key: SlotKey,
    block_hash: Seq<u8>,
    now: u64,
)
    ensures
        ({
            let (after, actions) = protocol::settle(e, key, block_hash, now);
            if e.pending.contains_key(key) && !e.applied.contains_key(key.1) {
                &&& after.applied == e.applied.insert(key.1, e.pending[key].block.operations)
                &&& actions == protocol::all_writes(after.applied[key.1]) + protocol::answers(
                    e.pending[key],
                )
            } else {
                after.applied == e.applied && actions.len() == 0
            }
        }),
{
}

/// What a node has applied at a sequence stays what it is, whatever happens.
pub proof fn law_applied_operations_stay(
    e: EngineView,
    events: Seq<(EventView, u64)>,
    sequence: SequenceNumber,
)
    requires
        safety::consistent(e),
        e.applied.contains_key(sequence),
    ensures
        safety::after_events(e, events).applied.contains_key(sequence),
        safety::after_events(e, events).applied[sequence] == e.applied[sequence],
{
    safety::law_every_state_is_consistent(e, events);
}

} // verus!
