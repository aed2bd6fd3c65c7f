//! Where the parts of an encoded value stand, and that nothing decodes but what
//! was encoded.
use vstd::prelude::*;

use crate::codec;
use crate::codec::DecodeError;
use crate::octets;
use crate::roundtrip;
use crate::text;
use crate::types::{BlockView, MessageType, MessageView, NodeId, OpView, RequestView, ResponseView, SignedView, WireView};
use crate::wal;
use crate::wal::EntryView;

verus! {

// ---------------------------------------------------------------------------
// Where things stand
// ---------------------------------------------------------------------------

/// The four bytes of a variant number.
pub open spec fn variant(number: u8) -> Seq<u8> {
    seq![number, 0u8, 0u8, 0u8]
}

/// The number in the eight bytes at a place, the least significant first.
pub open spec fn number_at(data: Seq<u8>, at: int) -> nat {
    octets::le_value(data.subrange(at, at + 8))
}

proof fn lemma_variant_bytes()
    ensures
        octets::le_bytes(0, 4) == variant(0),
        octets::le_bytes(1, 4) == variant(1),
        octets::le_bytes(2, 4) == variant(2),
        octets::le_bytes(3, 4) == variant(3),
        octets::le_bytes(4, 4) == variant(4),
{
    reveal_with_fuel(octets::le_bytes, 5);
    assert(octets::le_bytes(0, 4) =~= variant(0));
    assert(octets::le_bytes(1, 4) =~= variant(1));
    assert(octets::le_bytes(2, 4) =~= variant(2));
    assert(octets::le_bytes(3, 4) =~= variant(3));
    assert(octets::le_bytes(4, 4) =~= variant(4));
}

/// Bytes in a row, taken together in other ways.
proof fn lemma_in_a_row(a: Seq<u8>, b: Seq<u8>, c: Seq<u8>, d: Seq<u8>, e: Seq<u8>)
    ensures
        a + b + c + d + e == a + (b + (c + (d + e))),
        a + b + c + d + e == a + b + (c + d + e),
        a + b + c + d + e == a + b + c + (d + e),
{
    assert(a + b + c + d + e =~= a + (b + (c + (d + e))));
    assert(a + b + c + d + e =~= a + b + (c + d + e));
    assert(a + b + c + d + e =~= a + b + c + (d + e));
}

/// Bytes in a row, taken together from the back.
proof fn lemma_from_the_back(
    a: Seq<u8>,
    b: Seq<u8>,
    c: Seq<u8>,
    d: Seq<u8>,
    e: Seq<u8>,
    f: Seq<u8>,
    g: Seq<u8>,
)
    ensures
        a + b + c == a + (b + c),
        a + b + c + d == a + (b + (c + d)),
        a + b + c + d + e == a + (b + (c + (d + e))),
        a + b + c + d + e + f == a + (b + (c + (d + (e + f)))),
        a + b + c + d + e + f + g == a + (b + (c + (d + (e + (f + g))))),
{
    assert(a + b + c =~= a + (b + c));
    assert(a + b + c + d =~= a + b + (c + d));
    assert(a + b + (c + d) =~= a + (b + (c + d)));
    assert(a + b + c + d + e =~= a + b + c + (d + e));
    assert(a + b + c + (d + e) =~= a + b + (c + (d + e)));
    assert(a + b + (c + (d + e)) =~= a + (b + (c + (d + e))));
    let h = e + f;
    assert(a + b + c + d + e + f =~= a + b + c + d + h);
    assert(a + b + c + d + h =~= a + b + c + (d + h));
    assert(a + b + c + (d + h) =~= a + b + (c + (d + h)));
    assert(a + b + (c + (d + h)) =~= a + (b + (c + (d + h))));
    let k = e + (f + g);
    assert(a + b + c + d + e + f + g =~= a + b + c + d + k);
    assert(a + b + c + d + k =~= a + b + c + (d + k));
    assert(a + b + c + (d + k) =~= a + b + (c + (d + k)));
    assert(a + b + (c + (d + k)) =~= a + (b + (c + (d + k))));
}

/// A number that stands between bytes is read where it stands.
proof fn lemma_number_at(front: Seq<u8>, x: nat, back: Seq<u8>)
    requires
        x <= u64::MAX,
    ensures
        octets::le_bytes(x, 8).len() == 8,
        number_at(front + octets::le_bytes(x, 8) + back, front.len() as int) == x,
{
    octets::lemma_pow256_values();
    octets::lemma_le_bytes_len(x, 8);
    octets::lemma_le_value_of_bytes(x, 8);
    let data = front + octets::le_bytes(x, 8) + back;
    let at = front.len() as int;
    assert(data.subrange(at, at + 8) =~= octets::le_bytes(x, 8));
}

/// A byte string is its length in eight bytes and then its bytes, every one.
pub proof fn law_bytes_layout(data: Seq<u8>)
    ensures
        codec::enc_bytes(data).len() == 8 + data.len(),
        data.len() <= u64::MAX ==> number_at(codec::enc_bytes(data), 0) == data.len(),
        codec::enc_bytes(data).skip(8) == data,
{
    octets::lemma_le_bytes_len(data.len(), 8);
    assert(codec::enc_bytes(data).skip(8) =~= data);
    if data.len() <= u64::MAX {
        lemma_number_at(Seq::empty(), data.len(), data);
        assert(Seq::<u8>::empty() + octets::le_bytes(data.len(), 8) + data =~= codec::enc_bytes(
            data,
        ));
    }
}

/// An operation is the number of its kind and then its parts: a write its key and
/// its value, a read its key, a transaction the number of its operations and these.
pub proof fn law_operation_layout(key: Seq<u8>, value: Seq<u8>, ops: Seq<OpView>)
    ensures
        codec::enc_op(OpView::Put { key, value }) == variant(0) + codec::enc_bytes(key)
            + codec::enc_bytes(value),
        codec::enc_op(OpView::Get { key }) == variant(1) + codec::enc_bytes(key),
        codec::enc_op(OpView::Txn { ops }).take(4) == variant(2),
        ops.len() <= u64::MAX ==> number_at(codec::enc_op(OpView::Txn { ops }), 4) == ops.len(),
        codec::enc_op(OpView::Txn { ops }).skip(12) == codec::enc_ops(ops),
{
    lemma_variant_bytes();
    let data = codec::enc_op(OpView::Txn { ops });
    octets::lemma_le_bytes_len(ops.len(), 8);
    assert(data.take(4) =~= variant(2));
    assert(data.skip(12) =~= codec::enc_ops(ops));
    if ops.len() <= u64::MAX {
        lemma_number_at(variant(2), ops.len(), codec::enc_ops(ops));
    }
}

/// Operations stand one behind the other, in their order.
pub proof fn law_operations_in_a_row(ops: Seq<OpView>, op: OpView)
    ensures
        codec::enc_ops(Seq::empty()) == Seq::<u8>::empty(),
        codec::enc_ops(ops.push(op)) == codec::enc_ops(ops) + codec::enc_op(op),
    decreases ops.len(),
{
    let all = ops.push(op);
    if ops.len() == 0 {
        assert(all.subrange(1, 1) =~= Seq::empty());
        assert(codec::enc_ops(all.subrange(1, 1)) =~= Seq::<u8>::empty());
        assert(codec::enc_ops(all) =~= codec::enc_ops(ops) + codec::enc_op(op));
    } else {
        let rest = ops.subrange(1, ops.len() as int);
        law_operations_in_a_row(rest, op);
        assert(all.subrange(1, all.len() as int) =~= rest.push(op));
        assert(codec::enc_ops(all) =~= codec::enc_ops(ops) + codec::enc_op(op));
    }
}

/// Signatures stand one behind the other, each behind its node, and in front of
/// them their number.
pub proof fn law_signatures_layout(
    sigs: Seq<(NodeId, Seq<u8>)>,
    node: NodeId,
    signature: Seq<u8>,
)
    ensures
        codec::enc_pairs(Seq::empty()) == Seq::<u8>::empty(),
        codec::enc_pairs(sigs.push((node, signature))) == codec::enc_pairs(sigs)
            + octets::le_bytes(node as nat, 8) + codec::enc_bytes(signature),
        sigs.len() <= u64::MAX ==> number_at(codec::enc_sigs(sigs), 0) == sigs.len(),
        codec::enc_sigs(sigs).skip(8) == codec::enc_pairs(sigs),
    decreases sigs.len(),
{
    let all = sigs.push((node, signature));
    if sigs.len() == 0 {
        assert(all.skip(1) =~= Seq::empty());
        assert(codec::enc_pairs(all.skip(1)) =~= Seq::<u8>::empty());
    } else {
        law_signatures_layout(sigs.skip(1), node, signature);
        assert(all.skip(1) =~= sigs.skip(1).push((node, signature)));
    }
    assert(codec::enc_pairs(all) =~= codec::enc_pairs(sigs) + octets::le_bytes(node as nat, 8)
        + codec::enc_bytes(signature));
    octets::lemma_le_bytes_len(sigs.len(), 8);
    assert(codec::enc_sigs(sigs).skip(8) =~= codec::enc_pairs(sigs));
    if sigs.len() <= u64::MAX {
        lemma_number_at(Seq::empty(), sigs.len(), codec::enc_pairs(sigs));
        assert(Seq::<u8>::empty() + octets::le_bytes(sigs.len(), 8) + codec::enc_pairs(sigs)
            =~= codec::enc_sigs(sigs));
    }
}

/// A block is its view, its sequence, its proposer and the number of its
/// operations in eight bytes each, then the operations and the parent's hash.
pub proof fn law_block_layout(block: BlockView)
    ensures
        ({
            let data = codec::enc_block(block);
            &&& number_at(data, 0) == block.view
            &&& number_at(data, 8) == block.sequence
            &&& number_at(data, 16) == block.proposer
            &&& block.operations.len() <= u64::MAX ==> number_at(data, 24)
                == block.operations.len()
            &&& data.skip(32) == codec::enc_ops(block.operations) + codec::enc_bytes(
                block.parent_hash,
            )
        }),
{
    let data = codec::enc_block(block);
    let a = octets::le_bytes(block.view as nat, 8);
    let b = octets::le_bytes(block.sequence as nat, 8);
    let c = octets::le_bytes(block.proposer as nat, 8);
    let d = octets::le_bytes(block.operations.len(), 8);
    let e = codec::enc_ops(block.operations) + codec::enc_bytes(block.parent_hash);
    lemma_number_at(Seq::empty(), block.view as nat, b + c + d + e);
    lemma_number_at(a, block.sequence as nat, c + d + e);
    lemma_number_at(a + b, block.proposer as nat, d + e);
    octets::lemma_le_bytes_len(block.operations.len(), 8);
    assert(data =~= Seq::<u8>::empty() + a + (b + c + d + e));
    assert(data =~= a + b + (c + d + e));
    assert(data =~= a + b + c + (d + e));
    assert(data =~= a + b + c + d + e);
    assert(data.skip(32) =~= e);
    if block.operations.len() <= u64::MAX {
        lemma_number_at(a + b + c, block.operations.len(), e);
    }
}

/// A proposal is its number and the block; a vote its number, its view and
/// sequence, the hash and, at the end, the voter.
pub proof fn law_proposal_and_vote_layout(
    block: BlockView,
    view: u64,
    sequence: u64,
    block_hash: Seq<u8>,
    voter: NodeId,
)
    ensures
        codec::enc_message(MessageView::Propose { block }) == variant(0) + codec::enc_block(block),
        ({
            let data = codec::enc_message(MessageView::Vote { view, sequence, block_hash, voter });
            &&& data.len() == 36 + block_hash.len()
            &&& data.take(4) == variant(1)
            &&& number_at(data, 4) == view
            &&& number_at(data, 12) == sequence
            &&& data.subrange(20, 28 + block_hash.len() as int) == codec::enc_bytes(block_hash)
            &&& number_at(data, 28 + block_hash.len() as int) == voter
        }),
{
    lemma_variant_bytes();
    let data = codec::enc_message(MessageView::Vote { view, sequence, block_hash, voter });
    let a = octets::le_bytes(view as nat, 8);
    let b = octets::le_bytes(sequence as nat, 8);
    let c = codec::enc_bytes(block_hash);
    let d = octets::le_bytes(voter as nat, 8);
    law_bytes_layout(block_hash);
    lemma_number_at(variant(1), view as nat, b + c + d);
    lemma_number_at(variant(1) + a, sequence as nat, c + d);
    lemma_number_at(variant(1) + a + b + c, voter as nat, Seq::empty());
    lemma_in_a_row(variant(1), a, b, c, d);
    assert(data == variant(1) + a + b + c + d);
    assert(variant(1) + a + b + c + d + Seq::<u8>::empty() =~= data);
    assert(data.take(4) =~= variant(1));
    assert(data.subrange(20, 28 + block_hash.len() as int) =~= c);
}

/// A commit is its number, its view and sequence, the hash and the signatures.
pub proof fn law_commit_layout(
    view: u64,
    sequence: u64,
    block_hash: Seq<u8>,
    vote_signatures: Seq<(NodeId, Seq<u8>)>,
)
    ensures
        ({
            let data = codec::enc_message(
                MessageView::Commit { view, sequence, block_hash, vote_signatures },
            );
            &&& data.take(4) == variant(2)
            &&& number_at(data, 4) == view
            &&& number_at(data, 12) == sequence
            &&& data.skip(20) == codec::enc_bytes(block_hash) + codec::enc_sigs(vote_signatures)
        }),
{
    lemma_variant_bytes();
    let data = codec::enc_message(
        MessageView::Commit { view, sequence, block_hash, vote_signatures },
    );
    let a = octets::le_bytes(view as nat, 8);
    let b = octets::le_bytes(sequence as nat, 8);
    let h = codec::enc_bytes(block_hash);
    let s = codec::enc_sigs(vote_signatures);
    lemma_number_at(variant(2), view as nat, b + h + s);
    lemma_number_at(variant(2) + a, sequence as nat, h + s);
    lemma_in_a_row(variant(2), a, b, h, s);
    assert(data.take(4) =~= variant(2));
    assert(data.skip(20) =~= h + s);
}

/// A request for a view is its number, the view, the node and what it has
/// committed.
pub proof fn law_view_change_layout(new_view: u64, sender: NodeId, last_committed_seq: u64)
    ensures
        ({
            let data = codec::enc_message(
                MessageView::ViewChange { new_view, sender, last_committed_seq },
            );
            &&& data.len() == 28
            &&& data.take(4) == variant(3)
            &&& number_at(data, 4) == new_view
            &&& number_at(data, 12) == sender
            &&& number_at(data, 20) == last_committed_seq
        }),
{
    lemma_variant_bytes();
    let data = codec::enc_message(
        MessageView::ViewChange { new_view, sender, last_committed_seq },
    );
    let none = Seq::<u8>::empty();
    let a = octets::le_bytes(new_view as nat, 8);
    let b = octets::le_bytes(sender as nat, 8);
    let c = octets::le_bytes(last_committed_seq as nat, 8);
    lemma_number_at(variant(3), new_view as nat, b + c + none);
    lemma_number_at(variant(3) + a, sender as nat, c + none);
    lemma_number_at(variant(3) + a + b, last_committed_seq as nat, none);
    lemma_in_a_row(variant(3), a, b, c, none);
    assert(data + none =~= data);
    assert(data.take(4) =~= variant(3));
}

/// A new view is its number, the view, the leader and the requests for it.
pub proof fn law_new_view_layout(
    view: u64,
    leader: NodeId,
    view_change_proofs: Seq<(NodeId, Seq<u8>)>,
)
    ensures
        ({
            let data = codec::enc_message(
                MessageView::NewView { view, leader, view_change_proofs },
            );
            &&& data.take(4) == variant(4)
            &&& number_at(data, 4) == view
            &&& number_at(data, 12) == leader
            &&& data.skip(20) == codec::enc_sigs(view_change_proofs)
        }),
{
    lemma_variant_bytes();
    let data = codec::enc_message(MessageView::NewView { view, leader, view_change_proofs });
    let a = octets::le_bytes(view as nat, 8);
    let b = octets::le_bytes(leader as nat, 8);
    let s = codec::enc_sigs(view_change_proofs);
    lemma_number_at(variant(4), view as nat, b + s);
    lemma_number_at(variant(4) + a, leader as nat, s);
    assert(data =~= variant(4) + a + (b + s));
    assert(data.take(4) =~= variant(4));
    assert(data.skip(20) =~= s);
}

/// A signed message is its sender, its payload and its signature; a wire message
/// its version, the number of its kind and its payload; a request its number and
/// its operation.
pub proof fn law_envelope_layout(signed: SignedView, wire: WireView, request: RequestView)
    ensures
        number_at(codec::enc_signed(signed), 0) == signed.sender,
        codec::enc_signed(signed).skip(8) == codec::enc_bytes(signed.payload) + codec::enc_bytes(
            signed.signature,
        ),
        codec::enc_wire(wire)[0] == wire.version,
        codec::enc_wire(wire).subrange(1, 5) == variant(
            match wire.msg_type {
                MessageType::Consensus => 0,
                MessageType::ClientRequest => 1,
                MessageType::ClientResponse => 2,
            },
        ),
        codec::enc_wire(wire).skip(5) == codec::enc_bytes(wire.payload),
        number_at(codec::enc_request(request), 0) == request.request_id,
        codec::enc_request(request).skip(8) == codec::enc_op(request.operation),
{
    lemma_variant_bytes();
    let none = Seq::<u8>::empty();
    let back = codec::enc_bytes(signed.payload) + codec::enc_bytes(signed.signature);
    lemma_number_at(none, signed.sender as nat, back);
    assert(codec::enc_signed(signed) =~= none + octets::le_bytes(signed.sender as nat, 8) + back);
    assert(codec::enc_signed(signed).skip(8) =~= back);
    let kind = octets::le_bytes(codec::type_number(wire.msg_type) as nat, 4);
    assert(codec::enc_wire(wire).subrange(1, 5) =~= kind);
    assert(codec::enc_wire(wire).skip(5) =~= codec::enc_bytes(wire.payload));
    let op = codec::enc_op(request.operation);
    lemma_number_at(none, request.request_id as nat, op);
    assert(codec::enc_request(request) =~= none + octets::le_bytes(request.request_id as nat, 8)
        + op);
    assert(codec::enc_request(request).skip(8) =~= op);
}

/// An optional value is a mark and, behind the mark 1, the value. A response is the
/// number of its request, a mark of success, the optional value and the optional
/// error.
pub proof fn law_response_layout(response: ResponseView, data: Seq<u8>)
    ensures
        codec::enc_option(None) == seq![0u8],
        codec::enc_option(Some(data)) == seq![1u8] + codec::enc_bytes(data),
        number_at(codec::enc_response(response), 0) == response.request_id,
        codec::enc_response(response)[8] == if response.success {
            1u8
        } else {
            0u8
        },
        codec::enc_response(response).skip(9) == codec::enc_option(response.value)
            + codec::enc_option(
            match response.error {
                Some(error) => Some(vstd::utf8::encode_utf8(error)),
                None => None,
            },
        ),
{
    let none = Seq::<u8>::empty();
    let flag = seq![
        if response.success {
            1u8
        } else {
            0u8
        },
    ];
    let back = codec::enc_option(response.value) + codec::enc_option(
        match response.error {
            Some(error) => Some(vstd::utf8::encode_utf8(error)),
            None => None,
        },
    );
    lemma_number_at(none, response.request_id as nat, flag + back);
    let all = codec::enc_response(response);
    assert(all =~= none + octets::le_bytes(response.request_id as nat, 8) + (flag + back));
    assert(all.skip(9) =~= back);
}

/// A list or byte string of fewer than 2^64 items can be encoded.
pub proof fn law_what_can_be_encoded(data: Seq<u8>, sigs: Seq<(NodeId, Seq<u8>)>)
    ensures
        roundtrip::short(data) <==> data.len() < 0x1_0000_0000_0000_0000,
        roundtrip::short(sigs) <==> sigs.len() < 0x1_0000_0000_0000_0000,
{
    octets::lemma_pow256_values();
}

// ---------------------------------------------------------------------------
// What decodes
// ---------------------------------------------------------------------------

proof fn lemma_u32_back(data: Seq<u8>)
    ensures
        codec::dec_u32(data) matches Ok((x, rest)) ==> data == octets::le_bytes(x as nat, 4) + rest
            && rest.len() + 4 == data.len(),
{
    if data.len() >= 4 {
        octets::lemma_pow256_values();
        octets::lemma_le_bytes_of_value(data.take(4));
        assert(data =~= data.take(4) + data.skip(4));
    }
}

proof fn lemma_u64_back(data: Seq<u8>)
    ensures
        codec::dec_u64(data) matches Ok((x, rest)) ==> data == octets::le_bytes(x as nat, 8) + rest
            && rest.len() + 8 == data.len(),
{
    if data.len() >= 8 {
        octets::lemma_pow256_values();
        octets::lemma_le_bytes_of_value(data.take(8));
        assert(data =~= data.take(8) + data.skip(8));
    }
}

proof fn lemma_variant_back(data: Seq<u8>, variants: u32)
    ensures
        codec::dec_variant(data, variants) matches Ok((x, rest)) ==> x < variants && data
            == octets::le_bytes(x as nat, 4) + rest && rest.len() + 4 == data.len(),
{
    lemma_u32_back(data);
}

/// Bytes that decode to a byte string are its encoding.
pub proof fn law_bytes_decode_exactly(data: Seq<u8>)
    ensures
        codec::dec_bytes(data) matches Ok((value, rest)) ==> data == codec::enc_bytes(value) + rest
            && rest.len() < data.len() && roundtrip::short(value),
{
    octets::lemma_pow256_values();
    lemma_u64_back(data);
    if let Ok((n, behind)) = codec::dec_u64(data) {
        if behind.len() >= n {
            let value = behind.take(n as int);
            assert(value.len() == n);
            assert(behind =~= value + behind.skip(n as int));
            assert(data =~= codec::enc_bytes(value) + behind.skip(n as int));
        }
    }
}

/// Bytes that decode to an operation are its encoding, with the rest behind it.
pub proof fn law_operation_decodes_exactly(data: Seq<u8>)
    ensures
        codec::dec_op(data) matches Ok((op, rest)) ==> data == codec::enc_op(op) + rest
            && rest.len() < data.len() && roundtrip::op_fits(op),
    decreases data.len(), 0nat,
{
    octets::lemma_pow256_values();
    lemma_variant_back(data, 3);
    if let Ok((found, r1)) = codec::dec_variant(data, 3) {
        law_bytes_decode_exactly(r1);
        lemma_u64_back(r1);
        if found == 0 {
            if let Ok((key, r2)) = codec::dec_bytes(r1) {
                law_bytes_decode_exactly(r2);
                if let Ok((value, r3)) = codec::dec_bytes(r2) {
                    let none = Seq::empty();
                    lemma_from_the_back(
                        octets::le_bytes(0, 4),
                        codec::enc_bytes(key),
                        codec::enc_bytes(value),
                        r3,
                        none,
                        none,
                        none,
                    );
                }
            }
        } else if found == 1 {
            if let Ok((key, r2)) = codec::dec_bytes(r1) {
                assert(data =~= codec::enc_op(OpView::Get { key }) + r2);
            }
        } else {
            if let Ok((n, r2)) = codec::dec_u64(r1) {
                law_operations_decode_exactly(n as nat, r2);
                if let Ok((ops, r3)) = codec::dec_ops(n as nat, r2) {
                    let none = Seq::empty();
                    lemma_from_the_back(
                        octets::le_bytes(2, 4),
                        octets::le_bytes(ops.len(), 8),
                        codec::enc_ops(ops),
                        r3,
                        none,
                        none,
                        none,
                    );
                }
            }
        }
    }
}

/// Bytes that decode to so many operations are their encodings in a row.
pub proof fn law_operations_decode_exactly(n: nat, data: Seq<u8>)
    ensures
        codec::dec_ops(n, data) matches Ok((ops, rest)) ==> ops.len() == n && data
            == codec::enc_ops(ops) + rest && rest.len() <= data.len() && forall|i: int|
            0 <= i < n ==> roundtrip::op_fits(#[trigger] ops[i]),
    decreases data.len(), 1nat,
{
    if n == 0 {
        assert(data =~= codec::enc_ops(Seq::empty()) + data);
    } else {
        law_operation_decodes_exactly(data);
        if let Ok((op, r1)) = codec::dec_op(data) {
            law_operations_decode_exactly((n - 1) as nat, r1);
            if let Ok((tail, r2)) = codec::dec_ops((n - 1) as nat, r1) {
                let ops = seq![op] + tail;
                assert(ops.subrange(1, ops.len() as int) =~= tail);
                assert(data =~= codec::enc_ops(ops) + r2);
            }
        }
    }
}

/// Bytes that decode to a block are its encoding.
pub proof fn law_block_decodes_exactly(data: Seq<u8>)
    ensures
        codec::dec_block(data) matches Ok((block, rest)) ==> data == codec::enc_block(block) + rest
            && roundtrip::block_fits(block),
{
    octets::lemma_pow256_values();
    lemma_u64_back(data);
    if let Ok((view, r1)) = codec::dec_u64(data) {
        lemma_u64_back(r1);
        if let Ok((sequence, r2)) = codec::dec_u64(r1) {
            lemma_u64_back(r2);
            if let Ok((proposer, r3)) = codec::dec_u64(r2) {
                lemma_u64_back(r3);
                if let Ok((n, r4)) = codec::dec_u64(r3) {
                    law_operations_decode_exactly(n as nat, r4);
                    if let Ok((operations, r5)) = codec::dec_ops(n as nat, r4) {
                        law_bytes_decode_exactly(r5);
                        if let Ok((parent_hash, r6)) = codec::dec_bytes(r5) {
                            lemma_from_the_back(
                                octets::le_bytes(view as nat, 8),
                                octets::le_bytes(sequence as nat, 8),
                                octets::le_bytes(proposer as nat, 8),
                                octets::le_bytes(n as nat, 8),
                                codec::enc_ops(operations),
                                codec::enc_bytes(parent_hash),
                                r6,
                            );
                        }
                    }
                }
            }
        }
    }
}

/// Bytes that decode to so many signatures are their encodings in a row.
pub proof fn law_signatures_decode_exactly(n: nat, data: Seq<u8>)
    ensures
        codec::dec_pairs(n, data) matches Ok((sigs, rest)) ==> sigs.len() == n && data
            == codec::enc_pairs(sigs) + rest && forall|i: int|
            0 <= i < n ==> roundtrip::short((#[trigger] sigs[i]).1),
    decreases n,
{
    if n == 0 {
        assert(data =~= codec::enc_pairs(Seq::empty()) + data);
    } else {
        lemma_u64_back(data);
        if let Ok((node, r1)) = codec::dec_u64(data) {
            law_bytes_decode_exactly(r1);
            if let Ok((sig, r2)) = codec::dec_bytes(r1) {
                law_signatures_decode_exactly((n - 1) as nat, r2);
                if let Ok((tail, r3)) = codec::dec_pairs((n - 1) as nat, r2) {
                    let sigs = seq![(node, sig)] + tail;
                    assert(sigs.skip(1) =~= tail);
                    let none = Seq::empty();
                    lemma_from_the_back(
                        octets::le_bytes(node as nat, 8),
                        codec::enc_bytes(sig),
                        codec::enc_pairs(tail),
                        r3,
                        none,
                        none,
                        none,
                    );
                }
            }
        }
    }
}

proof fn lemma_sigs_back(data: Seq<u8>)
    ensures
        codec::dec_sigs(data) matches Ok((sigs, rest)) ==> data == codec::enc_sigs(sigs) + rest
            && roundtrip::sigs_fit(sigs),
{
    octets::lemma_pow256_values();
    lemma_u64_back(data);
    if let Ok((n, r1)) = codec::dec_u64(data) {
        law_signatures_decode_exactly(n as nat, r1);
        if let Ok((sigs, r2)) = codec::dec_pairs(n as nat, r1) {
            assert(data =~= codec::enc_sigs(sigs) + r2);
        }
    }
}

proof fn lemma_vote_back(data: Seq<u8>)
    ensures
        codec::dec_vote(data) matches Ok((msg, rest)) ==> msg is Vote && octets::le_bytes(1, 4)
            + data == codec::enc_message(msg) + rest && roundtrip::message_fits(msg),
{
    lemma_u64_back(data);
    if let Ok((view, r1)) = codec::dec_u64(data) {
        lemma_u64_back(r1);
        if let Ok((sequence, r2)) = codec::dec_u64(r1) {
            law_bytes_decode_exactly(r2);
            if let Ok((block_hash, r3)) = codec::dec_bytes(r2) {
                lemma_u64_back(r3);
                if let Ok((voter, r4)) = codec::dec_u64(r3) {
                    lemma_from_the_back(
                        octets::le_bytes(1, 4),
                        octets::le_bytes(view as nat, 8),
                        octets::le_bytes(sequence as nat, 8),
                        codec::enc_bytes(block_hash),
                        octets::le_bytes(voter as nat, 8),
                        r4,
                        Seq::empty(),
                    );
                }
            }
        }
    }
}

proof fn lemma_commit_back(data: Seq<u8>)
    ensures
        codec::dec_commit(data) matches Ok((msg, rest)) ==> msg is Commit && octets::le_bytes(2, 4)
            + data == codec::enc_message(msg) + rest && roundtrip::message_fits(msg),
{
    lemma_u64_back(data);
    if let Ok((view, r1)) = codec::dec_u64(data) {
        lemma_u64_back(r1);
        if let Ok((sequence, r2)) = codec::dec_u64(r1) {
            law_bytes_decode_exactly(r2);
            if let Ok((block_hash, r3)) = codec::dec_bytes(r2) {
                lemma_sigs_back(r3);
                if let Ok((vote_signatures, r4)) = codec::dec_sigs(r3) {
                    lemma_from_the_back(
                        octets::le_bytes(2, 4),
                        octets::le_bytes(view as nat, 8),
                        octets::le_bytes(sequence as nat, 8),
                        codec::enc_bytes(block_hash),
                        codec::enc_sigs(vote_signatures),
                        r4,
                        Seq::empty(),
                    );
                }
            }
        }
    }
}

proof fn lemma_view_change_back(data: Seq<u8>)
    ensures
        codec::dec_view_change(data) matches Ok((msg, rest)) ==> msg is ViewChange
            && octets::le_bytes(3, 4) + data == codec::enc_message(msg) + rest
            && roundtrip::message_fits(msg),
{
    lemma_u64_back(data);
    if let Ok((new_view, r1)) = codec::dec_u64(data) {
        lemma_u64_back(r1);
        if let Ok((sender, r2)) = codec::dec_u64(r1) {
            lemma_u64_back(r2);
            if let Ok((last_committed_seq, r3)) = codec::dec_u64(r2) {
                let none = Seq::empty();
                lemma_from_the_back(
                    octets::le_bytes(3, 4),
                    octets::le_bytes(new_view as nat, 8),
                    octets::le_bytes(sender as nat, 8),
                    octets::le_bytes(last_committed_seq as nat, 8),
                    r3,
                    none,
                    none,
                );
            }
        }
    }
}

proof fn lemma_new_view_back(data: Seq<u8>)
    ensures
        codec::dec_new_view(data) matches Ok((msg, rest)) ==> msg is NewView && octets::le_bytes(
            4,
            4,
        ) + data == codec::enc_message(msg) + rest && roundtrip::message_fits(msg),
{
    lemma_u64_back(data);
    if let Ok((view, r1)) = codec::dec_u64(data) {
        lemma_u64_back(r1);
        if let Ok((leader, r2)) = codec::dec_u64(r1) {
            lemma_sigs_back(r2);
            if let Ok((view_change_proofs, r3)) = codec::dec_sigs(r2) {
                let none = Seq::empty();
                lemma_from_the_back(
                    octets::le_bytes(4, 4),
                    octets::le_bytes(view as nat, 8),
                    octets::le_bytes(leader as nat, 8),
                    codec::enc_sigs(view_change_proofs),
                    r3,
                    none,
                    none,
                );
            }
        }
    }
}

/// Bytes that decode to a message are its encoding.
pub proof fn law_message_decodes_exactly(data: Seq<u8>)
    ensures
        codec::dec_message(data) matches Ok((msg, rest)) ==> data == codec::enc_message(msg) + rest
            && roundtrip::message_fits(msg),
{
    lemma_variant_back(data, 5);
    if let Ok((found, r1)) = codec::dec_variant(data, 5) {
        if found == 0 {
            law_block_decodes_exactly(r1);
            if let Ok((block, r2)) = codec::dec_block(r1) {
                assert(data =~= codec::enc_message(MessageView::Propose { block }) + r2);
            }
        } else if found == 1 {
            lemma_vote_back(r1);
        } else if found == 2 {
            lemma_commit_back(r1);
        } else if found == 3 {
            lemma_view_change_back(r1);
        } else {
            lemma_new_view_back(r1);
        }
    }
}

/// Bytes that decode to a signed message are its encoding.
pub proof fn law_signed_decodes_exactly(data: Seq<u8>)
    ensures
        codec::dec_signed(data) matches Ok((signed, rest)) ==> data == codec::enc_signed(signed)
            + rest && roundtrip::short(signed.payload) && roundtrip::short(signed.signature),
{
    lemma_u64_back(data);
    if let Ok((sender, r1)) = codec::dec_u64(data) {
        law_bytes_decode_exactly(r1);
        if let Ok((payload, r2)) = codec::dec_bytes(r1) {
            law_bytes_decode_exactly(r2);
            if let Ok((signature, r3)) = codec::dec_bytes(r2) {
                let none = Seq::empty();
                lemma_from_the_back(
                    octets::le_bytes(sender as nat, 8),
                    codec::enc_bytes(payload),
                    codec::enc_bytes(signature),
                    r3,
                    none,
                    none,
                    none,
                );
            }
        }
    }
}

/// Bytes that decode to a wire message are its encoding.
pub proof fn law_wire_decodes_exactly(data: Seq<u8>)
    ensures
        codec::dec_wire(data) matches Ok((wire, rest)) ==> data == codec::enc_wire(wire) + rest
            && roundtrip::short(wire.payload),
{
    if data.len() >= 1 {
        let r1 = data.skip(1);
        assert(data =~= seq![data[0]] + r1);
        lemma_variant_back(r1, 3);
        if let Ok((number, r2)) = codec::dec_variant(r1, 3) {
            law_bytes_decode_exactly(r2);
            if let Ok((payload, r3)) = codec::dec_bytes(r2) {
                let wire = WireView {
                    version: data[0],
                    msg_type: codec::type_of_number(number),
                    payload,
                };
                assert(codec::type_number(wire.msg_type) == number);
                assert(data =~= codec::enc_wire(wire) + r3);
            }
        }
    }
}

/// Bytes that decode to a request are its encoding.
pub proof fn law_request_decodes_exactly(data: Seq<u8>)
    ensures
        codec::dec_request(data) matches Ok((request, rest)) ==> data == codec::enc_request(request)
            + rest && roundtrip::op_fits(request.operation),
{
    lemma_u64_back(data);
    if let Ok((request_id, r1)) = codec::dec_u64(data) {
        law_operation_decodes_exactly(r1);
        if let Ok((operation, r2)) = codec::dec_op(r1) {
            let request = RequestView { request_id, operation };
            assert(data =~= codec::enc_request(request) + r2);
        }
    }
}

proof fn lemma_option_back(data: Seq<u8>)
    ensures
        codec::dec_option_bytes(data) matches Ok((value, rest)) ==> data == codec::enc_option(value)
            + rest,
{
    if data.len() >= 1 {
        let r1 = data.skip(1);
        assert(data =~= seq![data[0]] + r1);
        law_bytes_decode_exactly(r1);
        if data[0] == 1 {
            if let Ok((value, r2)) = codec::dec_bytes(r1) {
                assert(data =~= codec::enc_option(Some(value)) + r2);
            }
        }
    }
}

proof fn lemma_option_text_back(data: Seq<u8>)
    ensures
        codec::dec_option_text(data) matches Ok((error, rest)) ==> data == codec::enc_option(
            match error {
                Some(error) => Some(vstd::utf8::encode_utf8(error)),
                None => None,
            },
        ) + rest,
{
    if data.len() >= 1 {
        let r1 = data.skip(1);
        assert(data =~= seq![data[0]] + r1);
        lemma_u64_back(r1);
        if data[0] == 1 {
            if let Ok((n, r2)) = codec::dec_u64(r1) {
                if r2.len() >= n {
                    let bytes = r2.take(n as int);
                    assert(bytes.len() == n);
                    assert(r2 =~= bytes + r2.skip(n as int));
                    if vstd::utf8::valid_utf8(bytes) {
                        vstd::utf8::decode_utf8_encode_utf8(bytes);
                        assert(data =~= codec::enc_option(Some(bytes)) + r2.skip(n as int));
                    }
                }
            }
        }
    }
}

/// Bytes that decode to a response are its encoding.
pub proof fn law_response_decodes_exactly(data: Seq<u8>)
    ensures
        codec::dec_response(data) matches Ok((response, rest)) ==> data == codec::enc_response(
            response,
        ) + rest,
{
    lemma_u64_back(data);
    if let Ok((request_id, r1)) = codec::dec_u64(data) {
        if let Ok((success, r2)) = codec::dec_bool(r1) {
            let flag = seq![
                if success {
                    1u8
                } else {
                    0u8
                },
            ];
            assert(r1 =~= flag + r2);
            lemma_option_back(r2);
            if let Ok((value, r3)) = codec::dec_option_bytes(r2) {
                lemma_option_text_back(r3);
                if let Ok((error, r4)) = codec::dec_option_text(r3) {
                    let text = codec::enc_option(
                        match error {
                            Some(error) => Some(vstd::utf8::encode_utf8(error)),
                            None => None,
                        },
                    );
                    lemma_in_a_row(
                        octets::le_bytes(request_id as nat, 8),
                        flag,
                        codec::enc_option(value),
                        text,
                        r4,
                    );
                }
            }
        }
    }
}

/// Bytes that decode to an entry of the log are its encoding.
pub proof fn law_entry_decodes_exactly(data: Seq<u8>)
    ensures
        wal::dec_entry(data) matches Ok((entry, rest)) ==> data == wal::enc_entry(entry) + rest,
{
    lemma_variant_back(data, 2);
    if let Ok((found, r1)) = codec::dec_variant(data, 2) {
        law_bytes_decode_exactly(r1);
        if let Ok((key, r2)) = codec::dec_bytes(r1) {
            if found == 0 {
                law_bytes_decode_exactly(r2);
                if let Ok((value, r3)) = codec::dec_bytes(r2) {
                    assert(data =~= wal::enc_entry(EntryView::Put { key, value }) + r3);
                }
            } else {
                assert(data =~= wal::enc_entry(EntryView::Delete { key }) + r2);
            }
        }
    }
}

// ---------------------------------------------------------------------------
// What does not
// ---------------------------------------------------------------------------

/// A whole that is cut in two, and what its first part begins with.
proof fn lemma_cut(whole: Seq<u8>, kept: int, front: Seq<u8>, rest: Seq<u8>)
    requires
        0 <= kept < whole.len(),
        whole.take(kept) == front + rest,
    ensures
        whole == front + (rest + whole.skip(kept)),
        (rest + whole.skip(kept)).len() > 0,
        whole + Seq::<u8>::empty() == whole,
{
    assert(whole =~= whole.take(kept) + whole.skip(kept));
    assert((front + rest) + whole.skip(kept) =~= front + (rest + whole.skip(kept)));
    assert(whole + Seq::<u8>::empty() =~= whole);
}

/// An operation that is cut off at any point is refused.
pub proof fn law_cut_off_operation_refused(op: OpView, kept: int)
    requires
        roundtrip::op_fits(op),
        0 <= kept < codec::enc_op(op).len(),
    ensures
        codec::dec_op(codec::enc_op(op).take(kept)) is Err,
{
    let whole = codec::enc_op(op);
    law_operation_decodes_exactly(whole.take(kept));
    if let Ok((other, rest)) = codec::dec_op(whole.take(kept)) {
        lemma_cut(whole, kept, codec::enc_op(other), rest);
        roundtrip::law_operation_roundtrip(op, Seq::empty());
        roundtrip::law_operation_roundtrip(other, rest + whole.skip(kept));
    }
}

/// A consensus message that is cut off at any point is refused.
pub proof fn law_cut_off_message_refused(msg: MessageView, kept: int)
    requires
        roundtrip::message_fits(msg),
        0 <= kept < codec::enc_message(msg).len(),
    ensures
        codec::dec_message(codec::enc_message(msg).take(kept)) is Err,
{
    let whole = codec::enc_message(msg);
    law_message_decodes_exactly(whole.take(kept));
    if let Ok((other, rest)) = codec::dec_message(whole.take(kept)) {
        lemma_cut(whole, kept, codec::enc_message(other), rest);
        roundtrip::law_message_roundtrip(msg, Seq::empty());
        roundtrip::law_message_roundtrip(other, rest + whole.skip(kept));
    }
}

/// A signed message that is cut off at any point is refused.
pub proof fn law_cut_off_signed_refused(signed: SignedView, kept: int)
    requires
        roundtrip::short(signed.payload),
        roundtrip::short(signed.signature),
        0 <= kept < codec::enc_signed(signed).len(),
    ensures
        codec::dec_signed(codec::enc_signed(signed).take(kept)) is Err,
{
    let whole = codec::enc_signed(signed);
    law_signed_decodes_exactly(whole.take(kept));
    if let Ok((other, rest)) = codec::dec_signed(whole.take(kept)) {
        lemma_cut(whole, kept, codec::enc_signed(other), rest);
        roundtrip::law_signed_roundtrip(signed, Seq::empty());
        roundtrip::law_signed_roundtrip(other, rest + whole.skip(kept));
    }
}

/// A wire message that is cut off at any point is refused.
pub proof fn law_cut_off_wire_refused(wire: WireView, kept: int)
    requires
        roundtrip::short(wire.payload),
        0 <= kept < codec::enc_wire(wire).len(),
    ensures
        codec::dec_wire(codec::enc_wire(wire).take(kept)) is Err,
{
    let whole = codec::enc_wire(wire);
    law_wire_decodes_exactly(whole.take(kept));
    if let Ok((other, rest)) = codec::dec_wire(whole.take(kept)) {
        lemma_cut(whole, kept, codec::enc_wire(other), rest);
        roundtrip::law_wire_roundtrip(wire, Seq::empty());
        roundtrip::law_wire_roundtrip(other, rest + whole.skip(kept));
    }
}

/// A request that is cut off at any point is refused.
pub proof fn law_cut_off_request_refused(request: RequestView, kept: int)
    requires
        roundtrip::op_fits(request.operation),
        0 <= kept < codec::enc_request(request).len(),
    ensures
        codec::dec_request(codec::enc_request(request).take(kept)) is Err,
{
    let whole = codec::enc_request(request);
    law_request_decodes_exactly(whole.take(kept));
    if let Ok((other, rest)) = codec::dec_request(whole.take(kept)) {
        lemma_cut(whole, kept, codec::enc_request(other), rest);
        roundtrip::law_request_roundtrip(request, Seq::empty());
        roundtrip::law_request_roundtrip(other, rest + whole.skip(kept));
    }
}

/// A kind that no operation, message, wire message or entry has is refused, with
/// the number found and the number of kinds there are.
pub proof fn law_unknown_kind_refused(found: u32, version: u8, rest: Seq<u8>)
    ensures
        ({
            let data = octets::le_bytes(found as nat, 4) + rest;
            &&& found >= 3 ==> codec::dec_op(data) == Err::<(OpView, Seq<u8>), _>(
                DecodeError::UnknownVariant { found, variants: 3 },
            )
            &&& found >= 5 ==> codec::dec_message(data) == Err::<(MessageView, Seq<u8>), _>(
                DecodeError::UnknownVariant { found, variants: 5 },
            )
            &&& found >= 2 ==> wal::dec_entry(data) == Err::<(EntryView, Seq<u8>), _>(
                DecodeError::UnknownVariant { found, variants: 2 },
            )
            &&& found >= 3 ==> codec::dec_wire(seq![version] + data) == Err::<
                (WireView, Seq<u8>),
                _,
            >(DecodeError::UnknownVariant { found, variants: 3 })
        }),
{
    let data = octets::le_bytes(found as nat, 4) + rest;
    roundtrip::lemma_u32(found, rest);
    assert((seq![version] + data).skip(1) =~= data);
}

/// Bytes that end too early are refused: a byte string that states more than is
/// there, and a number of which a part is missing.
pub proof fn law_missing_bytes_refused(data: Seq<u8>, length: u64)
    ensures
        data.len() < 8 ==> codec::dec_bytes(data) == Err::<(Seq<u8>, Seq<u8>), _>(
            DecodeError::UnexpectedEnd,
        ),
        data.len() < length ==> codec::dec_bytes(octets::le_bytes(length as nat, 8) + data)
            == Err::<(Seq<u8>, Seq<u8>), _>(DecodeError::UnexpectedEnd),
        data.len() < 8 ==> {
            let end = DecodeError::UnexpectedEnd;
            &&& codec::dec_signed(data) == Err::<(SignedView, Seq<u8>), _>(end)
            &&& codec::dec_block(data) == Err::<(BlockView, Seq<u8>), _>(end)
            &&& codec::dec_request(data) == Err::<(RequestView, Seq<u8>), _>(end)
            &&& codec::dec_response(data) == Err::<(ResponseView, Seq<u8>), _>(end)
        },
        data.len() < 4 ==> {
            let end = DecodeError::UnexpectedEnd;
            &&& codec::dec_op(data) == Err::<(OpView, Seq<u8>), _>(end)
            &&& codec::dec_message(data) == Err::<(MessageView, Seq<u8>), _>(end)
            &&& codec::dec_wire(data) == Err::<(WireView, Seq<u8>), _>(end)
            &&& wal::dec_entry(data) == Err::<(EntryView, Seq<u8>), _>(end)
        },
{
    roundtrip::lemma_u64(length, data);
}

/// Text that ends before as many bytes as it states, and text that is not valid, is
/// refused, the latter with where it stops to be valid; any other text is read, and
/// what stands behind it is left.
pub proof fn law_text_is_read_or_refused(text: Seq<u8>, rest: Seq<u8>, length: u64)
    requires
        text.len() <= u64::MAX,
    ensures
        rest.len() < length ==> codec::dec_text(octets::le_bytes(length as nat, 8) + rest)
            == Err::<(Seq<char>, Seq<u8>), _>(DecodeError::TextCutOff),
        !vstd::utf8::valid_utf8(text) ==> codec::dec_text(codec::enc_bytes(text) + rest) == Err::<
            (Seq<char>, Seq<u8>),
            _,
        >(
            DecodeError::InvalidText {
                valid_up_to: codec::utf8_fault(text).0,
                length: codec::utf8_fault(text).1,
            },
        ),
        vstd::utf8::valid_utf8(text) ==> codec::dec_text(codec::enc_bytes(text) + rest) == Ok::<
            (Seq<char>, Seq<u8>),
            DecodeError,
        >((vstd::utf8::decode_utf8(text), rest)),
{
    octets::lemma_pow256_values();
    roundtrip::lemma_u64(length, rest);
    let behind = text + rest;
    roundtrip::lemma_len(text.len(), behind);
    assert(codec::enc_bytes(text) + rest =~= octets::le_bytes(text.len(), 8) + behind);
    assert(behind.take(text.len() as int) =~= text);
    assert(behind.skip(text.len() as int) =~= rest);
}

/// A mark of success or of an optional value that is neither 0 nor 1 is refused,
/// with the mark found.
pub proof fn law_other_marks_refused(found: u8, rest: Seq<u8>)
    requires
        found > 1,
    ensures
        codec::dec_bool(seq![found] + rest) == Err::<(bool, Seq<u8>), _>(
            DecodeError::InvalidBool { found },
        ),
        codec::dec_option_bytes(seq![found] + rest) == Err::<(Option<Seq<u8>>, Seq<u8>), _>(
            DecodeError::InvalidOption { found },
        ),
        codec::dec_option_text(seq![found] + rest) == Err::<(Option<Seq<char>>, Seq<u8>), _>(
            DecodeError::InvalidOption { found },
        ),
{
}

/// What is said of a decoding error says what was found.
pub proof fn law_decode_errors_are_told(
    found: u32,
    variants: u32,
    mark: u8,
    valid_up_to: u64,
    length: u8,
)
    ensures
        codec::decode_text(DecodeError::UnexpectedEnd) == "io error: unexpected end of file"@,
        codec::decode_text(DecodeError::UnknownVariant { found, variants })
            == "invalid value: integer `"@ + text::decimal(found as nat)
            + "`, expected variant index 0 <= i < "@ + text::decimal(variants as nat),
        codec::decode_text(DecodeError::InvalidBool { found: mark })
            == "invalid u8 while decoding bool, expected 0 or 1, found "@ + text::decimal(
            mark as nat,
        ),
        codec::decode_text(DecodeError::InvalidOption { found: mark })
            == "tag for enum is not valid, found "@ + text::decimal(mark as nat),
        codec::decode_text(DecodeError::TextCutOff) == "io error: "@,
        codec::decode_text(DecodeError::InvalidText { valid_up_to, length: Some(length) })
            == "string is not valid utf8: invalid utf-8 sequence of "@ + text::decimal(
            length as nat,
        ) + " bytes from index "@ + text::decimal(valid_up_to as nat),
        codec::decode_text(DecodeError::InvalidText { valid_up_to, length: None })
            == "string is not valid utf8: incomplete utf-8 byte sequence from index "@
            + text::decimal(valid_up_to as nat),
{
}

} // verus!
