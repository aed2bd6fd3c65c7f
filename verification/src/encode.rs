//! Encoders: each appends to a buffer exactly what `codec` says the encoding is.
use vstd::prelude::*;

use crate::codec;
use crate::octets;
use crate::octets::same_bytes;
use crate::roundtrip;
use crate::types;
use crate::types::{Block, ClientRequest, ClientResponse, ConsensusMessage, MessageType, NodeId, Operation, SignedMessage, WireMessage};

verus! {

/// Appends a variant number.
pub(crate) fn put_u32(out: &mut Vec<u8>, x: u32)
    ensures
        final(out)@ == old(out)@ + octets::le_bytes(x as nat, 4),
{
    let mut encoded = codec::bincode_u32(x);
    out.append(&mut encoded);
}

/// Appends a number.
pub(crate) fn put_u64(out: &mut Vec<u8>, x: u64)
    ensures
        final(out)@ == old(out)@ + octets::le_bytes(x as nat, 8),
{
    let mut encoded = codec::bincode_u64(x);
    out.append(&mut encoded);
}

/// Appends a byte string with its length.
pub(crate) fn put_bytes(out: &mut Vec<u8>, data: &[u8])
    ensures
        final(out)@ == old(out)@ + codec::enc_bytes(data@),
{
    let mut encoded = codec::bincode_bytes(data);
    out.append(&mut encoded);
}

fn put_op(out: &mut Vec<u8>, op: &Operation)
    ensures
        final(out)@ == old(out)@ + codec::enc_op(op@),
    decreases op,
{
    let ghost start = out@;
    match op {
        Operation::Put { key, value } => {
            put_u32(out, 0);
            put_bytes(out, key);
            put_bytes(out, value);
            assert(out@ =~= start + codec::enc_op(op@));
        },
        Operation::Get { key } => {
            put_u32(out, 1);
            put_bytes(out, key);
            assert(out@ =~= start + codec::enc_op(op@));
        },
        Operation::Txn { ops } => {
            put_u32(out, 2);
            put_u64(out, ops.len() as u64);
            let ghost head = out@;
            let ghost views = op@->ops;
            let mut i: usize = 0;
            assert(views.subrange(0, views.len() as int) =~= views);
            while i < ops.len()
                invariant
                    i <= ops@.len() == views.len(),
                    *op == (Operation::Txn { ops: *ops }),
                    views == op@->ops,
                    out@ + codec::enc_ops(views.subrange(i as int, views.len() as int)) == head
                        + codec::enc_ops(views),
                decreases ops@.len() - i,
            {
                let ghost before = out@;
                let ghost left = views.subrange(i as int, views.len() as int);
                assert(decreases_to!(op => op->ops));
                assert(decreases_to!(op->ops => op->ops@));
                assert(decreases_to!(op->ops@ => op->ops@[i as int]));
                put_op(out, &ops[i]);
                i = i + 1;
                proof {
                    let next = views.subrange(i as int, views.len() as int);
                    assert(left.subrange(1, left.len() as int) =~= next);
                    assert(out@ + codec::enc_ops(next) =~= before + codec::enc_ops(left));
                }
            }
            proof {
                let next = views.subrange(i as int, views.len() as int);
                assert(next.len() == 0);
                assert(out@ + codec::enc_ops(next) =~= out@);
                assert(out@ =~= start + codec::enc_op(op@));
            }
        },
    }
}

/// Appends operations, one after the other.
fn put_ops(out: &mut Vec<u8>, ops: &Vec<Operation>)
    ensures
        final(out)@ == old(out)@ + codec::enc_ops(types::ops_view(ops@)),
{
    let ghost views = types::ops_view(ops@);
    let mut i: usize = 0;
    assert(views.subrange(0, views.len() as int) =~= views);
    while i < ops.len()
        invariant
            i <= ops@.len() == views.len(),
            views == types::ops_view(ops@),
            out@ + codec::enc_ops(views.subrange(i as int, views.len() as int)) == old(out)@
                + codec::enc_ops(views),
        decreases ops@.len() - i,
    {
        let ghost before = out@;
        let ghost left = views.subrange(i as int, views.len() as int);
        put_op(out, &ops[i]);
        i = i + 1;
        proof {
            let next = views.subrange(i as int, views.len() as int);
            assert(left.subrange(1, left.len() as int) =~= next);
            assert(out@ + codec::enc_ops(next) =~= before + codec::enc_ops(left));
        }
    }
    proof {
        let next = views.subrange(i as int, views.len() as int);
        assert(out@ + codec::enc_ops(next) =~= out@);
    }
}

/// Whether two lists hold the same operations.
pub fn same_operations(a: &Vec<Operation>, b: &Vec<Operation>) -> (same: bool)
    ensures
        same == (types::ops_view(a@) == types::ops_view(b@)),
{
    if a.len() != b.len() {
        assert(types::ops_view(a@).len() != types::ops_view(b@).len());
        return false;
    }
    let mut left: Vec<u8> = Vec::new();
    put_ops(&mut left, a);
    let mut right: Vec<u8> = Vec::new();
    put_ops(&mut right, b);
    let same = same_bytes(&left, &right);
    proof {
        assert(left@ =~= codec::enc_ops(types::ops_view(a@)));
        assert(right@ =~= codec::enc_ops(types::ops_view(b@)));
        if same {
            roundtrip::lemma_ops_injective(*a, *b);
        }
    }
    same
}

/// Whether two blocks are the same.
pub fn same_block(a: &Block, b: &Block) -> (same: bool)
    ensures
        same == (a@ == b@),
{
    let same = a.view == b.view && a.sequence == b.sequence && a.proposer == b.proposer
        && same_operations(&a.operations, &b.operations) && same_bytes(
        &a.parent_hash,
        &b.parent_hash,
    );
    assert(same ==> a@ =~= b@);
    same
}

fn put_block(out: &mut Vec<u8>, block: &Block)
    ensures
        final(out)@ == old(out)@ + codec::enc_block(block@),
{
    put_u64(out, block.view);
    put_u64(out, block.sequence);
    put_u64(out, block.proposer);
    put_u64(out, block.operations.len() as u64);
    put_ops(out, &block.operations);
    put_bytes(out, &block.parent_hash);
    assert(out@ =~= old(out)@ + codec::enc_block(block@));
}

fn put_sigs(out: &mut Vec<u8>, sigs: &Vec<(NodeId, Vec<u8>)>)
    ensures
        final(out)@ == old(out)@ + codec::enc_sigs(types::sigs_view(sigs@)),
{
    let ghost views = types::sigs_view(sigs@);
    put_u64(out, sigs.len() as u64);
    let ghost head = out@;
    let mut i: usize = 0;
    assert(views.skip(0) =~= views);
    while i < sigs.len()
        invariant
            i <= sigs@.len() == views.len(),
            views == types::sigs_view(sigs@),
            out@ + codec::enc_pairs(views.skip(i as int)) == head + codec::enc_pairs(views),
        decreases sigs@.len() - i,
    {
        let ghost before = out@;
        let ghost left = views.skip(i as int);
        put_u64(out, sigs[i].0);
        put_bytes(out, &sigs[i].1);
        i = i + 1;
        proof {
            let next = views.skip(i as int);
            assert(left.skip(1) =~= next);
            assert(out@ + codec::enc_pairs(next) =~= before + codec::enc_pairs(left));
        }
    }
    proof {
        assert(out@ + codec::enc_pairs(views.skip(i as int)) =~= out@);
        assert(out@ =~= old(out)@ + codec::enc_sigs(views));
    }
}

impl Operation {
    /// The encoding of this operation.
    pub fn to_bytes(&self) -> (out: Vec<u8>)
        ensures
            out@ == codec::enc_op(self@),
    {
        let mut out: Vec<u8> = Vec::new();
        put_op(&mut out, self);
        assert(out@ =~= codec::enc_op(self@));
        out
    }
}

impl Block {
    /// The encoding of this block.
    pub fn to_bytes(&self) -> (out: Vec<u8>)
        ensures
            out@ == codec::enc_block(self@),
    {
        let mut out: Vec<u8> = Vec::new();
        put_block(&mut out, self);
        assert(out@ =~= codec::enc_block(self@));
        out
    }
}

impl ConsensusMessage {
    /// The encoding of this message.
    pub fn to_bytes(&self) -> (out: Vec<u8>)
        ensures
            out@ == codec::enc_message(self@),
    {
        let mut out: Vec<u8> = Vec::new();
        match self {
            ConsensusMessage::Propose { block } => {
                put_u32(&mut out, 0);
                put_block(&mut out, block);
            },
            ConsensusMessage::Vote { view, sequence, block_hash, voter } => {
                put_u32(&mut out, 1);
                put_u64(&mut out, *view);
                put_u64(&mut out, *sequence);
                put_bytes(&mut out, block_hash);
                put_u64(&mut out, *voter);
            },
            ConsensusMessage::Commit { view, sequence, block_hash, vote_signatures } => {
                put_u32(&mut out, 2);
                put_u64(&mut out, *view);
                put_u64(&mut out, *sequence);
                put_bytes(&mut out, block_hash);
                put_sigs(&mut out, vote_signatures);
            },
            ConsensusMessage::ViewChange { new_view, sender, last_committed_seq } => {
                put_u32(&mut out, 3);
                put_u64(&mut out, *new_view);
                put_u64(&mut out, *sender);
                put_u64(&mut out, *last_committed_seq);
            },
            ConsensusMessage::NewView { view, leader, view_change_proofs } => {
                put_u32(&mut out, 4);
                put_u64(&mut out, *view);
                put_u64(&mut out, *leader);
                put_sigs(&mut out, view_change_proofs);
            },
        }
        assert(out@ =~= codec::enc_message(self@));
        out
    }
}

impl SignedMessage {
    /// The encoding of this signed message.
    pub fn to_bytes(&self) -> (out: Vec<u8>)
        ensures
            out@ == codec::enc_signed(self@),
    {
        let mut out: Vec<u8> = Vec::new();
        put_u64(&mut out, self.sender);
        put_bytes(&mut out, &self.payload);
        put_bytes(&mut out, &self.signature);
        assert(out@ =~= codec::enc_signed(self@));
        out
    }
}

impl MessageType {
    fn number(self) -> (number: u32)
        ensures
            number == codec::type_number(self),
    {
        match self {
            MessageType::Consensus => 0,
            MessageType::ClientRequest => 1,
            MessageType::ClientResponse => 2,
        }
    }
}

impl WireMessage {
    /// The bytes of this wire message for transmission.
    pub fn to_bytes(&self) -> (out: Vec<u8>)
        ensures
            out@ == codec::enc_wire(self@),
    {
        let mut out: Vec<u8> = Vec::new();
        out.push(self.version);
        put_u32(&mut out, self.msg_type.number());
        put_bytes(&mut out, &self.payload);
        assert(out@ =~= codec::enc_wire(self@));
        out
    }
}

impl ClientRequest {
    /// The encoding of this request.
    pub fn to_bytes(&self) -> (out: Vec<u8>)
        ensures
            out@ == codec::enc_request(self@),
    {
        let mut out: Vec<u8> = Vec::new();
        put_u64(&mut out, self.request_id);
        put_op(&mut out, &self.operation);
        assert(out@ =~= codec::enc_request(self@));
        out
    }
}

impl ClientResponse {
    /// The encoding of this response.
    pub fn to_bytes(&self) -> (out: Vec<u8>)
        ensures
            out@ == codec::enc_response(self@),
    {
        let mut out: Vec<u8> = Vec::new();
        put_u64(&mut out, self.request_id);
        if self.success {
            out.push(1);
        } else {
            out.push(0);
        }
        match &self.value {
            None => {
                out.push(0);
            },
            Some(value) => {
                out.push(1);
                put_bytes(&mut out, value);
            },
        }
        match &self.error {
            None => {
                out.push(0);
            },
            Some(error) => {
                out.push(1);
                put_bytes(&mut out, error.as_str().as_bytes());
            },
        }
        assert(out@ =~= codec::enc_response(self@));
        out
    }
}

} // verus!
