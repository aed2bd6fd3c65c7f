//! Decoding what was encoded gives the value back, whatever bytes follow.
use vstd::prelude::*;

use crate::codec;
use crate::codec::DecodeError;
use crate::octets;
use crate::types;
use crate::types::{Block, BlockView, ConsensusMessage, MessageView, NodeId, Operation, OpView, RequestView, ResponseView, SignedView, WireView};

verus! {

/// A length that the encoding can hold. Every vector has one.
pub open spec fn short<T>(data: Seq<T>) -> bool {
    data.len() < octets::pow256(8)
}

/// The lengths in an operation can be encoded.
pub open spec fn op_fits(op: OpView) -> bool
    decreases op,
{
    match op {
        OpView::Put { key, value } => short(key) && short(value),
        OpView::Get { key } => short(key),
        OpView::Txn { ops } => short(ops) && forall|i: int|
            0 <= i < ops.len() ==> op_fits(#[trigger] ops[i]),
    }
}

/// The lengths in a block can be encoded.
pub open spec fn block_fits(block: BlockView) -> bool {
    &&& short(block.operations)
    &&& forall|i: int| 0 <= i < block.operations.len() ==> op_fits(#[trigger] block.operations[i])
    &&& short(block.parent_hash)
}

/// The lengths in a list of signatures can be encoded.
pub open spec fn sigs_fit(sigs: Seq<(NodeId, Seq<u8>)>) -> bool {
    &&& short(sigs)
    &&& forall|i: int| 0 <= i < sigs.len() ==> short((#[trigger] sigs[i]).1)
}

/// The lengths in a message can be encoded.
pub open spec fn message_fits(msg: MessageView) -> bool {
    match msg {
        MessageView::Propose { block } => block_fits(block),
        MessageView::Vote { block_hash, .. } => short(block_hash),
        MessageView::Commit { block_hash, vote_signatures, .. } => short(block_hash) && sigs_fit(
            vote_signatures,
        ),
        MessageView::ViewChange { .. } => true,
        MessageView::NewView { view_change_proofs, .. } => sigs_fit(view_change_proofs),
    }
}

/// Every operation can be encoded.
pub proof fn lemma_op_fits(op: Operation)
    ensures
        op_fits(op@),
    decreases op,
{
    octets::lemma_pow256_values();
    match op {
        Operation::Put { key, value } => {
            assert(key@.len() == key.len() && value@.len() == value.len());
        },
        Operation::Get { key } => {
            assert(key.len() <= usize::MAX);
        },
        Operation::Txn { ops } => {
            assert(ops.len() <= usize::MAX);
            assert forall|i: int| 0 <= i < op@->ops.len() implies op_fits(
                #[trigger] op@->ops[i],
            ) by {
                assert(decreases_to!(op => op->ops));
                assert(decreases_to!(op->ops => op->ops@));
                assert(decreases_to!(op->ops@ => op->ops@[i]));
                lemma_op_fits(ops@[i]);
            }
        },
    }
}

/// Every block can be encoded.
pub proof fn lemma_block_fits(block: Block)
    ensures
        block_fits(block@),
{
    octets::lemma_pow256_values();
    assert(block.operations.len() <= usize::MAX && block.parent_hash.len() <= usize::MAX);
    assert forall|i: int| 0 <= i < block@.operations.len() implies op_fits(
        #[trigger] block@.operations[i],
    ) by {
        lemma_op_fits(block.operations@[i]);
    }
}

/// Every list of signatures can be encoded.
pub proof fn lemma_sigs_fit(sigs: Vec<(NodeId, Vec<u8>)>)
    ensures
        sigs_fit(types::sigs_view(sigs@)),
{
    octets::lemma_pow256_values();
    assert(sigs.len() <= usize::MAX);
    assert forall|i: int| 0 <= i < sigs@.len() implies short(
        (#[trigger] types::sigs_view(sigs@)[i]).1,
    ) by {
        assert(sigs@[i].1.len() <= usize::MAX);
    }
}

/// Every message can be encoded.
pub proof fn lemma_message_fits(msg: ConsensusMessage)
    ensures
        message_fits(msg@),
{
    octets::lemma_pow256_values();
    match msg {
        ConsensusMessage::Propose { block } => {
            lemma_block_fits(block);
        },
        ConsensusMessage::Vote { block_hash, .. } => {
            assert(block_hash.len() <= usize::MAX);
        },
        ConsensusMessage::Commit { block_hash, vote_signatures, .. } => {
            assert(block_hash.len() <= usize::MAX);
            lemma_sigs_fit(vote_signatures);
        },
        ConsensusMessage::ViewChange { .. } => {},
        ConsensusMessage::NewView { view_change_proofs, .. } => {
            lemma_sigs_fit(view_change_proofs);
        },
    }
}

/// Concatenation associates.
proof fn lemma_join4(a: Seq<u8>, b: Seq<u8>, c: Seq<u8>, d: Seq<u8>, e: Seq<u8>)
    ensures
        a + b + c + d + e == a + (b + (c + (d + e))),
{
    assert(a + b + c + d + e =~= a + (b + (c + (d + e))));
}

proof fn lemma_join5(a: Seq<u8>, b: Seq<u8>, c: Seq<u8>, d: Seq<u8>, e: Seq<u8>, f: Seq<u8>)
    ensures
        a + b + c + d + e + f == a + (b + (c + (d + (e + f)))),
{
    assert(a + b + c + d + e + f =~= a + (b + (c + (d + (e + f)))));
}

pub proof fn lemma_u32(x: u32, rest: Seq<u8>)
    ensures
        codec::dec_u32(octets::le_bytes(x as nat, 4) + rest) == Ok::<_, DecodeError>((x, rest)),
{
    let head = octets::le_bytes(x as nat, 4);
    octets::lemma_pow256_values();
    octets::lemma_le_bytes_len(x as nat, 4);
    octets::lemma_le_value_of_bytes(x as nat, 4);
    assert((head + rest).take(4) =~= head);
    assert((head + rest).skip(4) =~= rest);
}

pub proof fn lemma_u64(x: u64, rest: Seq<u8>)
    ensures
        codec::dec_u64(octets::le_bytes(x as nat, 8) + rest) == Ok::<_, DecodeError>((x, rest)),
{
    let head = octets::le_bytes(x as nat, 8);
    octets::lemma_pow256_values();
    octets::lemma_le_bytes_len(x as nat, 8);
    octets::lemma_le_value_of_bytes(x as nat, 8);
    assert((head + rest).take(8) =~= head);
    assert((head + rest).skip(8) =~= rest);
}

/// A length that was encoded is read back.
pub proof fn lemma_len(n: nat, rest: Seq<u8>)
    requires
        n < octets::pow256(8),
    ensures
        codec::dec_u64(octets::le_bytes(n, 8) + rest) == Ok::<_, DecodeError>((n as u64, rest)),
        n as u64 == n,
{
    octets::lemma_pow256_values();
    lemma_u64(n as u64, rest);
}

pub proof fn lemma_variant(x: u32, variants: u32, rest: Seq<u8>)
    requires
        x < variants,
    ensures
        codec::dec_variant(octets::le_bytes(x as nat, 4) + rest, variants) == Ok::<_, DecodeError>(
            (x, rest),
        ),
{
    lemma_u32(x, rest);
}

pub proof fn lemma_bytes(data: Seq<u8>, rest: Seq<u8>)
    requires
        short(data),
    ensures
        codec::dec_bytes(codec::enc_bytes(data) + rest) == Ok::<_, DecodeError>((data, rest)),
{
    let head = octets::le_bytes(data.len(), 8);
    assert(codec::enc_bytes(data) + rest =~= head + (data + rest));
    lemma_len(data.len(), data + rest);
    assert((data + rest).take(data.len() as int) =~= data);
    assert((data + rest).skip(data.len() as int) =~= rest);
}

pub proof fn lemma_op_len(op: OpView)
    ensures
        codec::enc_op(op).len() >= 4,
{
    octets::lemma_le_bytes_len(0, 4);
    octets::lemma_le_bytes_len(1, 4);
    octets::lemma_le_bytes_len(2, 4);
}

/// An operation decodes to itself.
pub proof fn law_operation_roundtrip(op: OpView, rest: Seq<u8>)
    requires
        op_fits(op),
    ensures
        codec::dec_op(codec::enc_op(op) + rest) == Ok::<_, DecodeError>((op, rest)),
    decreases op, 0nat,
{
    let data = codec::enc_op(op) + rest;
    match op {
        OpView::Put { key, value } => {
            let after_key = codec::enc_bytes(value) + rest;
            let after_variant = codec::enc_bytes(key) + after_key;
            assert(data =~= octets::le_bytes(0, 4) + after_variant);
            lemma_variant(0, 3, after_variant);
            lemma_bytes(key, after_key);
            lemma_bytes(value, rest);
        },
        OpView::Get { key } => {
            let after_variant = codec::enc_bytes(key) + rest;
            assert(data =~= octets::le_bytes(1, 4) + after_variant);
            lemma_variant(1, 3, after_variant);
            lemma_bytes(key, rest);
        },
        OpView::Txn { ops } => {
            let after_len = codec::enc_ops(ops) + rest;
            let after_variant = octets::le_bytes(ops.len(), 8) + after_len;
            assert(data =~= octets::le_bytes(2, 4) + after_variant);
            lemma_variant(2, 3, after_variant);
            lemma_len(ops.len(), after_len);
            lemma_ops(ops, rest);
        },
    }
}

/// Operations in a row decode to themselves.
pub proof fn lemma_ops(ops: Seq<OpView>, rest: Seq<u8>)
    requires
        forall|i: int| 0 <= i < ops.len() ==> op_fits(#[trigger] ops[i]),
    ensures
        codec::dec_ops(ops.len(), codec::enc_ops(ops) + rest) == Ok::<_, DecodeError>((ops, rest)),
    decreases ops, 1nat,
{
    if ops.len() == 0 {
        assert(codec::enc_ops(ops) + rest =~= rest);
        assert(ops =~= Seq::empty());
    } else {
        let tail = ops.subrange(1, ops.len() as int);
        let after = codec::enc_ops(tail) + rest;
        assert(codec::enc_ops(ops) + rest =~= codec::enc_op(ops[0]) + after);
        assert(op_fits(ops[0]));
        law_operation_roundtrip(ops[0], after);
        lemma_op_len(ops[0]);
        assert forall|i: int| 0 <= i < tail.len() implies op_fits(#[trigger] tail[i]) by {
            assert(op_fits(ops[i + 1]));
        }
        lemma_ops(tail, rest);
        assert(seq![ops[0]] + tail =~= ops);
    }
}

pub proof fn lemma_op_list(ops: Seq<OpView>, rest: Seq<u8>)
    requires
        short(ops),
        forall|i: int| 0 <= i < ops.len() ==> op_fits(#[trigger] ops[i]),
    ensures
        codec::dec_op_list(octets::le_bytes(ops.len(), 8) + (codec::enc_ops(ops) + rest)) == Ok::<
            _,
            DecodeError,
        >((ops, rest)),
{
    lemma_len(ops.len(), codec::enc_ops(ops) + rest);
    lemma_ops(ops, rest);
}

/// Lists of as many operations that have one encoding are one list.
pub proof fn lemma_ops_injective(a: Vec<Operation>, b: Vec<Operation>)
    requires
        a@.len() == b@.len(),
        codec::enc_ops(types::ops_view(a@)) == codec::enc_ops(types::ops_view(b@)),
    ensures
        types::ops_view(a@) == types::ops_view(b@),
{
    let left = types::ops_view(a@);
    let right = types::ops_view(b@);
    assert forall|i: int| 0 <= i < left.len() implies op_fits(#[trigger] left[i]) by {
        lemma_op_fits(a@[i]);
    }
    assert forall|i: int| 0 <= i < right.len() implies op_fits(#[trigger] right[i]) by {
        lemma_op_fits(b@[i]);
    }
    lemma_ops(left, Seq::empty());
    lemma_ops(right, Seq::empty());
}

/// A block decodes to itself.
pub proof fn law_block_roundtrip(block: BlockView, rest: Seq<u8>)
    requires
        block_fits(block),
    ensures
        codec::dec_block(codec::enc_block(block) + rest) == Ok::<_, DecodeError>((block, rest)),
{
    let r5 = codec::enc_bytes(block.parent_hash) + rest;
    let r3 = octets::le_bytes(block.operations.len(), 8) + (codec::enc_ops(block.operations) + r5);
    let r2 = octets::le_bytes(block.proposer as nat, 8) + r3;
    let r1 = octets::le_bytes(block.sequence as nat, 8) + r2;
    assert(codec::enc_block(block) + rest =~= octets::le_bytes(block.view as nat, 8) + r1);
    lemma_u64(block.view, r1);
    lemma_u64(block.sequence, r2);
    lemma_u64(block.proposer, r3);
    lemma_op_list(block.operations, r5);
    lemma_bytes(block.parent_hash, rest);
}

pub proof fn lemma_pairs(sigs: Seq<(NodeId, Seq<u8>)>, rest: Seq<u8>)
    requires
        forall|i: int| 0 <= i < sigs.len() ==> short((#[trigger] sigs[i]).1),
    ensures
        codec::dec_pairs(sigs.len(), codec::enc_pairs(sigs) + rest) == Ok::<_, DecodeError>(
            (sigs, rest),
        ),
    decreases sigs.len(),
{
    if sigs.len() == 0 {
        assert(codec::enc_pairs(sigs) + rest =~= rest);
        assert(sigs =~= Seq::empty());
    } else {
        let tail = sigs.skip(1);
        let r2 = codec::enc_pairs(tail) + rest;
        let r1 = codec::enc_bytes(sigs[0].1) + r2;
        assert(codec::enc_pairs(sigs) + rest =~= octets::le_bytes(sigs[0].0 as nat, 8) + r1);
        lemma_u64(sigs[0].0, r1);
        lemma_bytes(sigs[0].1, r2);
        lemma_pairs(tail, rest);
        assert(seq![(sigs[0].0, sigs[0].1)] + tail =~= sigs);
    }
}

pub proof fn lemma_sigs(sigs: Seq<(NodeId, Seq<u8>)>, rest: Seq<u8>)
    requires
        sigs_fit(sigs),
    ensures
        codec::dec_sigs(codec::enc_sigs(sigs) + rest) == Ok::<_, DecodeError>((sigs, rest)),
{
    let r1 = codec::enc_pairs(sigs) + rest;
    assert(codec::enc_sigs(sigs) + rest =~= octets::le_bytes(sigs.len(), 8) + r1);
    lemma_len(sigs.len(), r1);
    lemma_pairs(sigs, rest);
}

proof fn lemma_vote(view: u64, sequence: u64, block_hash: Seq<u8>, voter: u64, rest: Seq<u8>)
    requires
        short(block_hash),
    ensures
        ({
            let msg = MessageView::Vote { view, sequence, block_hash, voter };
            codec::dec_message(codec::enc_message(msg) + rest) == Ok::<_, DecodeError>((msg, rest))
        }),
{
    let r4 = octets::le_bytes(voter as nat, 8) + rest;
    let r3 = codec::enc_bytes(block_hash) + r4;
    let r2 = octets::le_bytes(sequence as nat, 8) + r3;
    let r1 = octets::le_bytes(view as nat, 8) + r2;
    lemma_join5(
        octets::le_bytes(1, 4),
        octets::le_bytes(view as nat, 8),
        octets::le_bytes(sequence as nat, 8),
        codec::enc_bytes(block_hash),
        octets::le_bytes(voter as nat, 8),
        rest,
    );
    lemma_variant(1, 5, r1);
    lemma_u64(view, r2);
    lemma_u64(sequence, r3);
    lemma_bytes(block_hash, r4);
    lemma_u64(voter, rest);
}

proof fn lemma_commit(
    view: u64,
    sequence: u64,
    block_hash: Seq<u8>,
    vote_signatures: Seq<(NodeId, Seq<u8>)>,
    rest: Seq<u8>,
)
    requires
        short(block_hash),
        sigs_fit(vote_signatures),
    ensures
        ({
            let msg = MessageView::Commit { view, sequence, block_hash, vote_signatures };
            codec::dec_message(codec::enc_message(msg) + rest) == Ok::<_, DecodeError>((msg, rest))
        }),
{
    let r4 = codec::enc_sigs(vote_signatures) + rest;
    let r3 = codec::enc_bytes(block_hash) + r4;
    let r2 = octets::le_bytes(sequence as nat, 8) + r3;
    let r1 = octets::le_bytes(view as nat, 8) + r2;
    lemma_join5(
        octets::le_bytes(2, 4),
        octets::le_bytes(view as nat, 8),
        octets::le_bytes(sequence as nat, 8),
        codec::enc_bytes(block_hash),
        codec::enc_sigs(vote_signatures),
        rest,
    );
    lemma_variant(2, 5, r1);
    lemma_u64(view, r2);
    lemma_u64(sequence, r3);
    lemma_bytes(block_hash, r4);
    lemma_sigs(vote_signatures, rest);
}

proof fn lemma_view_change(new_view: u64, sender: u64, last_committed_seq: u64, rest: Seq<u8>)
    ensures
        ({
            let msg = MessageView::ViewChange { new_view, sender, last_committed_seq };
            codec::dec_message(codec::enc_message(msg) + rest) == Ok::<_, DecodeError>((msg, rest))
        }),
{
    let r3 = octets::le_bytes(last_committed_seq as nat, 8) + rest;
    let r2 = octets::le_bytes(sender as nat, 8) + r3;
    let r1 = octets::le_bytes(new_view as nat, 8) + r2;
    lemma_join4(
        octets::le_bytes(3, 4),
        octets::le_bytes(new_view as nat, 8),
        octets::le_bytes(sender as nat, 8),
        octets::le_bytes(last_committed_seq as nat, 8),
        rest,
    );
    lemma_variant(3, 5, r1);
    lemma_u64(new_view, r2);
    lemma_u64(sender, r3);
    lemma_u64(last_committed_seq, rest);
}

proof fn lemma_new_view(
    view: u64,
    leader: u64,
    view_change_proofs: Seq<(NodeId, Seq<u8>)>,
    rest: Seq<u8>,
)
    requires
        sigs_fit(view_change_proofs),
    ensures
        ({
            let msg = MessageView::NewView { view, leader, view_change_proofs };
            codec::dec_message(codec::enc_message(msg) + rest) == Ok::<_, DecodeError>((msg, rest))
        }),
{
    let r3 = codec::enc_sigs(view_change_proofs) + rest;
    let r2 = octets::le_bytes(leader as nat, 8) + r3;
    let r1 = octets::le_bytes(view as nat, 8) + r2;
    lemma_join4(
        octets::le_bytes(4, 4),
        octets::le_bytes(view as nat, 8),
        octets::le_bytes(leader as nat, 8),
        codec::enc_sigs(view_change_proofs),
        rest,
    );
    lemma_variant(4, 5, r1);
    lemma_u64(view, r2);
    lemma_u64(leader, r3);
    lemma_sigs(view_change_proofs, rest);
}

/// A consensus message decodes to itself.
pub proof fn law_message_roundtrip(msg: MessageView, rest: Seq<u8>)
    requires
        message_fits(msg),
    ensures
        codec::dec_message(codec::enc_message(msg) + rest) == Ok::<_, DecodeError>((msg, rest)),
{
    match msg {
        MessageView::Propose { block } => {
            let r = codec::enc_block(block) + rest;
            assert(codec::enc_message(msg) + rest =~= octets::le_bytes(0, 4) + r);
            lemma_variant(0, 5, r);
            law_block_roundtrip(block, rest);
        },
        MessageView::Vote { view, sequence, block_hash, voter } => {
            lemma_vote(view, sequence, block_hash, voter, rest);
        },
        MessageView::Commit { view, sequence, block_hash, vote_signatures } => {
            lemma_commit(view, sequence, block_hash, vote_signatures, rest);
        },
        MessageView::ViewChange { new_view, sender, last_committed_seq } => {
            lemma_view_change(new_view, sender, last_committed_seq, rest);
        },
        MessageView::NewView { view, leader, view_change_proofs } => {
            lemma_new_view(view, leader, view_change_proofs, rest);
        },
    }
}

/// A signed message decodes to itself.
pub proof fn law_signed_roundtrip(signed: SignedView, rest: Seq<u8>)
    requires
        short(signed.payload),
        short(signed.signature),
    ensures
        codec::dec_signed(codec::enc_signed(signed) + rest) == Ok::<_, DecodeError>(
            (signed, rest),
        ),
{
    let r2 = codec::enc_bytes(signed.signature) + rest;
    let r1 = codec::enc_bytes(signed.payload) + r2;
    assert(codec::enc_signed(signed) + rest =~= octets::le_bytes(signed.sender as nat, 8) + r1);
    lemma_u64(signed.sender, r1);
    lemma_bytes(signed.payload, r2);
    lemma_bytes(signed.signature, rest);
}

/// A wire message decodes to itself.
pub proof fn law_wire_roundtrip(wire: WireView, rest: Seq<u8>)
    requires
        short(wire.payload),
    ensures
        codec::dec_wire(codec::enc_wire(wire) + rest) == Ok::<_, DecodeError>((wire, rest)),
{
    let data = codec::enc_wire(wire) + rest;
    let number = codec::type_number(wire.msg_type);
    let r2 = codec::enc_bytes(wire.payload) + rest;
    let r1 = octets::le_bytes(number as nat, 4) + r2;
    assert(data =~= seq![wire.version] + r1);
    assert(data.skip(1) =~= r1);
    lemma_variant(number, 3, r2);
    lemma_bytes(wire.payload, rest);
}

/// A client request decodes to itself.
pub proof fn law_request_roundtrip(request: RequestView, rest: Seq<u8>)
    requires
        op_fits(request.operation),
    ensures
        codec::dec_request(codec::enc_request(request) + rest) == Ok::<_, DecodeError>(
            (request, rest),
        ),
{
    let r1 = codec::enc_op(request.operation) + rest;
    assert(codec::enc_request(request) + rest =~= octets::le_bytes(request.request_id as nat, 8)
        + r1);
    lemma_u64(request.request_id, r1);
    law_operation_roundtrip(request.operation, rest);
}

pub proof fn lemma_option(data: Option<Seq<u8>>, rest: Seq<u8>)
    requires
        data matches Some(data) ==> short(data),
    ensures
        codec::dec_option_bytes(codec::enc_option(data) + rest) == Ok::<_, DecodeError>(
            (data, rest),
        ),
{
    let all = codec::enc_option(data) + rest;
    match data {
        None => {
            assert(all.skip(1) =~= rest);
        },
        Some(value) => {
            let r1 = codec::enc_bytes(value) + rest;
            assert(all =~= seq![1u8] + r1);
            assert(all.skip(1) =~= r1);
            lemma_bytes(value, rest);
        },
    }
}

/// Optional text decodes to itself.
proof fn lemma_option_text(text: Option<Seq<char>>, rest: Seq<u8>)
    requires
        text matches Some(text) ==> short(vstd::utf8::encode_utf8(text)),
    ensures
        codec::dec_option_text(
            codec::enc_option(
                match text {
                    Some(text) => Some(vstd::utf8::encode_utf8(text)),
                    None => None,
                },
            ) + rest,
        ) == Ok::<_, DecodeError>((text, rest)),
{
    match text {
        None => {
            let all = codec::enc_option(None) + rest;
            assert(all.skip(1) =~= rest);
        },
        Some(text) => {
            let value = vstd::utf8::encode_utf8(text);
            let all = codec::enc_option(Some(value)) + rest;
            let r2 = value + rest;
            let r1 = octets::le_bytes(value.len(), 8) + r2;
            assert(all =~= seq![1u8] + r1);
            assert(all.skip(1) =~= r1);
            octets::lemma_pow256_values();
            lemma_u64(value.len() as u64, r2);
            assert(r2.take(value.len() as int) =~= value);
            assert(r2.skip(value.len() as int) =~= rest);
            vstd::utf8::encode_utf8_valid_utf8(text);
            vstd::utf8::encode_utf8_decode_utf8(text);
        },
    }
}

/// A client response decodes to itself.
pub proof fn law_response_roundtrip(response: ResponseView, rest: Seq<u8>)
    requires
        response.value matches Some(value) ==> short(value),
        response.error matches Some(error) ==> short(vstd::utf8::encode_utf8(error)),
    ensures
        codec::dec_response(codec::enc_response(response) + rest) == Ok::<_, DecodeError>(
            (response, rest),
        ),
{
    let text = match response.error {
        Some(error) => Some(vstd::utf8::encode_utf8(error)),
        None => None,
    };
    let flag = seq![
        if response.success {
            1u8
        } else {
            0u8
        },
    ];
    let r3 = codec::enc_option(text) + rest;
    let r2 = codec::enc_option(response.value) + r3;
    let r1 = flag + r2;
    lemma_join4(
        octets::le_bytes(response.request_id as nat, 8),
        flag,
        codec::enc_option(response.value),
        codec::enc_option(text),
        rest,
    );
    lemma_u64(response.request_id, r1);
    assert(r1.skip(1) =~= r2);
    lemma_option(response.value, r3);
    lemma_option_text(response.error, rest);
}

} // verus!
