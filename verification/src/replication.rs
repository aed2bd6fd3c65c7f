//! What a client can rely on: a committed operation does to the store what it
//! says, no more and no less, in the order in which it was requested.
use vstd::prelude::*;

use crate::hash;
use crate::pending::PendingView;
use crate::protocol;
use crate::protocol::{ActionView, EngineView};
use crate::safety;
use crate::sorted::Table;
use crate::storage;
use crate::types::{OpView, RequestId, RequestView};
use crate::votes;
use crate::votes::SlotKey;
use crate::wal::EntryView;

verus! {

/// A store after an operation: a write changes its own key, a read nothing, and
/// a transaction is its operations one after the other.
pub open spec fn performed(table: Table, op: OpView) -> Table
    decreases op, 0nat,
{
    match op {
        OpView::Put { key, value } => table.insert(key, Some(value)),
        OpView::Get { key } => table,
        OpView::Txn { ops } => all_performed(table, ops),
    }
}

/// A store after operations, in order.
pub open spec fn all_performed(table: Table, ops: Seq<OpView>) -> Table
    decreases ops, 1nat,
{
    if ops.len() == 0 {
        table
    } else {
        all_performed(performed(table, ops[0]), ops.subrange(1, ops.len() as int))
    }
}

/// A store after a node's actions have been carried out, in order: every write
/// goes through the log, and no other action touches the store.
pub open spec fn carried_out(table: Table, actions: Seq<ActionView>) -> Table
    decreases actions.len(),
{
    if actions.len() == 0 {
        table
    } else {
        let before = carried_out(table, actions.drop_last());
        match actions.last() {
            ActionView::Store { key, value } => storage::apply_entry(
                before,
                EntryView::Put { key, value },
            ),
            _ => before,
        }
    }
}

/// Whether an operation writes a key.
pub open spec fn writes_key(op: OpView, key: Seq<u8>) -> bool
    decreases op, 0nat,
{
    match op {
        OpView::Put { key: written, value } => written == key,
        OpView::Get { key: read } => false,
        OpView::Txn { ops } => any_writes_key(ops, key),
    }
}

/// Whether one of several operations writes a key.
pub open spec fn any_writes_key(ops: Seq<OpView>, key: Seq<u8>) -> bool
    decreases ops, 1nat,
{
    ops.len() > 0 && (writes_key(ops[0], key) || any_writes_key(
        ops.subrange(1, ops.len() as int),
        key,
    ))
}

proof fn lemma_carried_out_in_parts(table: Table, first: Seq<ActionView>, second: Seq<ActionView>)
    ensures
        carried_out(table, first + second) == carried_out(carried_out(table, first), second),
    decreases second.len(),
{
    if second.len() == 0 {
        assert(first + second =~= first);
    } else {
        lemma_carried_out_in_parts(table, first, second.drop_last());
        assert((first + second).drop_last() =~= first + second.drop_last());
    }
}

proof fn lemma_nothing_stored(table: Table, actions: Seq<ActionView>)
    requires
        forall|i: int| 0 <= i < actions.len() ==> !((#[trigger] actions[i]) is Store),
    ensures
        carried_out(table, actions) == table,
    decreases actions.len(),
{
    if actions.len() > 0 {
        assert(actions[actions.len() - 1] == actions.last());
        assert forall|i: int| 0 <= i < actions.len() - 1 implies !((
        #[trigger] actions.drop_last()[i]) is Store) by {
            assert(actions.drop_last()[i] == actions[i]);
        }
        lemma_nothing_stored(table, actions.drop_last());
    }
}

/// The writes of an operation do to the store what the operation says: a write
/// is written whole under its key, a read changes nothing, and a transaction is
/// carried out in order.
pub proof fn law_operation_is_performed(table: Table, op: OpView)
    ensures
        carried_out(table, protocol::writes(op)) == performed(table, op),
    decreases op, 0nat,
{
    match op {
        OpView::Put { key, value } => {
            let all = seq![ActionView::Store { key, value }];
            assert(all.drop_last() =~= Seq::empty());
            assert(all.last() == ActionView::Store { key, value });
            assert(carried_out(table, all.drop_last()) == table);
        },
        OpView::Get { key } => {},
        OpView::Txn { ops } => {
            law_operations_are_performed(table, ops);
        },
    }
}

/// The writes of operations do to the store what the operations say, in order.
pub proof fn law_operations_are_performed(table: Table, ops: Seq<OpView>)
    ensures
        carried_out(table, protocol::all_writes(ops)) == all_performed(table, ops),
    decreases ops, 1nat,
{
    if ops.len() > 0 {
        let rest = ops.subrange(1, ops.len() as int);
        law_operation_is_performed(table, ops[0]);
        law_operations_are_performed(performed(table, ops[0]), rest);
        lemma_carried_out_in_parts(table, protocol::writes(ops[0]), protocol::all_writes(rest));
    }
}

/// A write is one action that stores its value, whole, under its key; a read is
/// none. A transaction's actions are those of its operations, and operations in a
/// row are carried out in a row.
pub proof fn law_write_is_stored_whole(
    key: Seq<u8>,
    value: Seq<u8>,
    first: Seq<OpView>,
    second: Seq<OpView>,
)
    ensures
        protocol::writes(OpView::Put { key, value }).len() == 1,
        protocol::writes(OpView::Put { key, value })[0] == (ActionView::Store { key, value }),
        protocol::writes(OpView::Get { key }).len() == 0,
        protocol::writes(OpView::Txn { ops: first }) == protocol::all_writes(first),
        protocol::all_writes(first + second) == protocol::all_writes(first)
            + protocol::all_writes(second),
    decreases first.len(),
{
    if first.len() == 0 {
        assert(first + second =~= second);
        assert(protocol::all_writes(first) + protocol::all_writes(second) =~= protocol::all_writes(
            second,
        ));
    } else {
        let rest = first.subrange(1, first.len() as int);
        let all = first + second;
        assert(all.subrange(1, all.len() as int) =~= rest + second);
        assert(all[0] == first[0]);
        law_write_is_stored_whole(key, value, rest, second);
        assert(protocol::all_writes(all) =~= protocol::all_writes(first) + protocol::all_writes(
            second,
        ));
    }
}

/// Operations that do not write a key leave it as it is.
pub proof fn law_other_keys_stay(table: Table, op: OpView, key: Seq<u8>)
    requires
        !writes_key(op, key),
    ensures
        performed(table, op).contains_key(key) == table.contains_key(key),
        table.contains_key(key) ==> performed(table, op)[key] == table[key],
    decreases op, 0nat,
{
    match op {
        OpView::Put { key: written, value } => {},
        OpView::Get { key: read } => {},
        OpView::Txn { ops } => {
            lemma_others_stay(table, ops, key);
        },
    }
}

proof fn lemma_others_stay(table: Table, ops: Seq<OpView>, key: Seq<u8>)
    requires
        !any_writes_key(ops, key),
    ensures
        all_performed(table, ops).contains_key(key) == table.contains_key(key),
        table.contains_key(key) ==> all_performed(table, ops)[key] == table[key],
    decreases ops, 1nat,
{
    if ops.len() > 0 {
        law_other_keys_stay(table, ops[0], key);
        lemma_others_stay(
            performed(table, ops[0]),
            ops.subrange(1, ops.len() as int),
            key,
        );
    }
}

proof fn lemma_performed_in_parts(table: Table, first: Seq<OpView>, second: Seq<OpView>)
    ensures
        all_performed(table, first + second) == all_performed(all_performed(table, first), second),
    decreases first.len(),
{
    if first.len() == 0 {
        assert(first + second =~= second);
    } else {
        let rest = first.subrange(1, first.len() as int);
        let all = first + second;
        assert(all.subrange(1, all.len() as int) =~= rest + second);
        assert(all[0] == first[0]);
        lemma_performed_in_parts(performed(table, first[0]), rest, second);
    }
}

/// The last write of a key counts: where operations write a value and nothing
/// behind it writes the key, the store holds that value, whole, when their
/// writes are carried out, whatever it held before.
pub proof fn law_last_write_counts(
    table: Table,
    before: Seq<OpView>,
    key: Seq<u8>,
    value: Seq<u8>,
    after: Seq<OpView>,
)
    requires
        !any_writes_key(after, key),
    ensures
        storage::lookup(
            carried_out(
                table,
                protocol::all_writes(before + seq![OpView::Put { key, value }] + after),
            ),
            Seq::empty(),
            key,
        ) == Some(value),
{
    let op = OpView::Put { key, value };
    let ops = before + seq![op] + after;
    law_operations_are_performed(table, ops);
    lemma_performed_in_parts(table, before + seq![op], after);
    lemma_performed_in_parts(table, before, seq![op]);
    let middle = all_performed(table, before);
    assert(all_performed(middle, seq![op]) == middle.insert(key, Some(value))) by {
        assert(seq![op][0] == op);
        assert(seq![op].subrange(1, 1) =~= Seq::empty());
        assert(all_performed(performed(middle, op), Seq::<OpView>::empty()) == performed(
            middle,
            op,
        ));
    }
    lemma_others_stay(middle.insert(key, Some(value)), after, key);
}

proof fn lemma_answers_store_nothing(table: Table, pending: PendingView)
    ensures
        carried_out(table, protocol::answers(pending)) == table,
{
    lemma_nothing_stored(table, protocol::answers(pending));
}

/// When a block is committed its operations are carried out on the store, all of
/// them and nothing else, in the order of the block.
pub proof fn law_committed_block_is_performed(
    e: EngineView,
    key: SlotKey,
    block_hash: Seq<u8>,
    table: Table,
    now: u64,
)
    requires
        !e.committed.contains(block_hash),
    ensures
        ({
            let heard = carried_out(table, protocol::handle_commit(e, key, block_hash, now).1);
            let decided = carried_out(table, protocol::commit_block(e, key, block_hash, now).1);
            let expected = if e.pending.contains_key(key) && !e.applied.contains_key(key.1) {
                all_performed(table, e.pending[key].block.operations)
            } else {
                table
            };
            heard == expected && decided == expected
        }),
{
    let ops = e.pending[key].block.operations;
    let settled = protocol::settle(e, key, block_hash, now).1;
    let announced = protocol::commit_block(e, key, block_hash, now).1;
    if e.pending.contains_key(key) && !e.applied.contains_key(key.1) {
        law_operations_are_performed(table, ops);
        lemma_carried_out_in_parts(
            table,
            protocol::all_writes(ops),
            protocol::answers(e.pending[key]),
        );
        lemma_answers_store_nothing(all_performed(table, ops), e.pending[key]);
    }
    let news = seq![announced[0]];
    assert(announced =~= news + settled);
    lemma_carried_out_in_parts(table, news, settled);
    assert(news[0] is Broadcast);
    lemma_nothing_stored(table, news);
}

/// A committed operation is answered under the number of its request: a read with
/// what the store holds for its key, anything else with success and nothing more.
pub proof fn law_answer_fits_request(request_id: RequestId, key: Seq<u8>, value: Seq<u8>, ops: Seq<OpView>)
    ensures
        protocol::answer(request_id, OpView::Get { key }) == (ActionView::ReplyRead {
            request_id,
            key,
        }),
        ({
            let written = protocol::answer(request_id, OpView::Put { key, value });
            &&& written is Reply
            &&& written->Reply_0.request_id == request_id
            &&& written->Reply_0.success
            &&& written->Reply_0.value is None
            &&& written->Reply_0.error is None
            &&& protocol::answer(request_id, OpView::Txn { ops }) == written
        }),
{
}

/// A block answers its requests one by one: the answer to the request that stands
/// at a place is for the operation at that place.
pub proof fn law_answers_pair_up(pending: PendingView, i: int)
    requires
        0 <= i < pending.request_ids.len(),
        i < pending.block.operations.len(),
    ensures
        protocol::answers(pending).len() <= pending.request_ids.len(),
        protocol::answers(pending).len() <= pending.block.operations.len(),
        protocol::answers(pending).len() == pending.request_ids.len()
            || protocol::answers(pending).len() == pending.block.operations.len(),
        protocol::answers(pending)[i] == protocol::answer(
            pending.request_ids[i],
            pending.block.operations[i],
        ),
{
}

/// What a leader proposes first is what its clients asked for: one operation for
/// each waiting request, unchanged and in the order in which the requests came,
/// under the leader's name, for its view and the next sequence, behind the block
/// committed last. The block that it then waits for answers these requests, in
/// the same order.
pub proof fn law_requests_become_the_block(e: EngineView, now: u64)
    requires
        !e.voted.contains_key(e.next_sequence),
    ensures
        ({
            let block = protocol::next_block(e);
            let pending = protocol::proposed(e, now).pending;
            let slot = (e.view, e.next_sequence);
            &&& block.operations.len() == e.requests.len()
            &&& forall|i: int|
                0 <= i < e.requests.len() ==> #[trigger] block.operations[i]
                    == e.requests[i].operation
            &&& block.view == e.view
            &&& block.sequence == e.next_sequence
            &&& block.proposer == e.id
            &&& block.parent_hash == e.last_hash
            &&& pending.contains_key(slot)
            &&& pending[slot].block == block
            &&& pending[slot].request_ids.len() == e.requests.len()
            &&& forall|i: int|
                0 <= i < e.requests.len() ==> #[trigger] pending[slot].request_ids[i]
                    == e.requests[i].request_id
        }),
{
}

/// The requests that wait are carried out in the order in which they came: of
/// those that write a key the last one counts, and its value is what the store
/// holds when the block of the waiting requests is written.
pub proof fn law_latest_request_counts(e: EngineView, at: int, table: Table)
    requires
        !e.voted.contains_key(e.next_sequence),
        0 <= at < e.requests.len(),
        e.requests[at].operation is Put,
        forall|i: int|
            at < i < e.requests.len() ==> !writes_key(
                (#[trigger] e.requests[i]).operation,
                e.requests[at].operation->Put_key,
            ),
    ensures
        storage::lookup(
            carried_out(table, protocol::all_writes(protocol::next_block(e).operations)),
            Seq::empty(),
            e.requests[at].operation->Put_key,
        ) == Some(e.requests[at].operation->Put_value),
{
    let ops = protocol::next_block(e).operations;
    let key = e.requests[at].operation->Put_key;
    let before = ops.take(at);
    let after = ops.skip(at + 1);
    assert(before + seq![ops[at]] + after =~= ops);
    assert forall|i: int| 0 <= i < after.len() implies !writes_key(#[trigger] after[i], key) by {
        assert(after[i] == e.requests[at + 1 + i].operation);
    }
    lemma_none_writes_key(after, key);
    law_last_write_counts(table, before, key, e.requests[at].operation->Put_value, after);
}

proof fn lemma_none_writes_key(ops: Seq<OpView>, key: Seq<u8>)
    requires
        forall|i: int| 0 <= i < ops.len() ==> !writes_key(#[trigger] ops[i], key),
    ensures
        !any_writes_key(ops, key),
    decreases ops.len(),
{
    if ops.len() > 0 {
        let rest = ops.subrange(1, ops.len() as int);
        assert(!writes_key(ops[0], key));
        assert forall|i: int| 0 <= i < rest.len() implies !writes_key(#[trigger] rest[i], key) by {
            assert(rest[i] == ops[i + 1]);
        }
        lemma_none_writes_key(rest, key);
    }
}

/// From the request to the store: where a leader takes a write in a free slot and
/// gets the votes that a quorum needs, the store holds the value under its key
/// when the leader's actions are carried out, and its client is told of success.
pub proof fn law_requested_write_is_stored(
    e: EngineView,
    request: RequestView,
    cast: votes::Votes,
    table: Table,
    now: u64,
)
    requires
        protocol::leads(e),
        !e.pending.contains_key((e.view, e.next_sequence)),
        !e.voted.contains_key(e.next_sequence),
        !e.applied.contains_key(e.next_sequence),
        !e.votes.slots.contains_key((e.view, e.next_sequence)),
        votes::one_vote_each(cast),
        !votes::has_voted(cast, e.id),
        cast.len() + 1 == e.votes.quorum,
        request.operation is Put,
    ensures
        ({
            let key = (e.view, e.next_sequence);
            let waiting = EngineView { requests: e.requests.push(request), ..e };
            let block_hash = hash::block_hash(protocol::next_block(waiting));
            let asked = protocol::handle_client_request(e, request, now);
            let voted = safety::with_votes(asked.0, key, block_hash, cast, now);
            let actions = asked.1 + voted.1;
            !e.committed.contains(block_hash) ==> storage::lookup(
                carried_out(table, actions),
                Seq::empty(),
                request.operation->Put_key,
            ) == Some(request.operation->Put_value)
        }),
{
    let key = (e.view, e.next_sequence);
    let waiting = EngineView { requests: e.requests.push(request), ..e };
    let block = protocol::next_block(waiting);
    let block_hash = hash::block_hash(block);
    let asked = protocol::handle_client_request(e, request, now);
    let voted = safety::with_votes(asked.0, key, block_hash, cast, now);
    let actions = asked.1 + voted.1;
    if !e.committed.contains(block_hash) {
        safety::law_request_is_committed(e, request, cast, now);
        let news = actions.take(2);
        let writes = protocol::all_writes(block.operations);
        let answers = protocol::answers(protocol::proposed(waiting, now).pending[key]);
        assert(actions =~= news + (writes + answers));
        lemma_carried_out_in_parts(table, news, writes + answers);
        assert(news[0] == actions[0] && news[1] == actions[1]);
        lemma_nothing_stored(table, news);
        lemma_carried_out_in_parts(table, writes, answers);
        lemma_nothing_stored(carried_out(table, writes), answers);
        let before = block.operations.drop_last();
        assert(block.operations.last() == request.operation);
        assert(before + seq![request.operation] + Seq::<OpView>::empty() =~= block.operations);
        law_last_write_counts(
            table,
            before,
            request.operation->Put_key,
            request.operation->Put_value,
            Seq::empty(),
        );
    }
}

} // verus!
