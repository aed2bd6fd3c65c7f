//! Decoders: each reads from the front of a byte string exactly what `codec`
//! says the decoding is. Bytes behind the value are ignored.
use vstd::prelude::*;
use vstd::slice::slice_subrange;

use crate::codec;
use crate::codec::DecodeError;
use crate::types;
use crate::types::{Block, ClientRequest, ClientResponse, ConsensusMessage, MessageType, NodeId, Operation, SignedMessage, WireMessage};

verus! {

/// A byte string and how far it has been read.
pub(crate) struct Reader<'a> {
    data: &'a [u8],
    pos: usize,
}

/// What a reader method returned, held against the decoding of the bytes that
/// were left before the call.
pub open spec fn reads<T: View>(
    parsed: codec::Parsed<<T as View>::V>,
    result: Result<T, DecodeError>,
    rest: Seq<u8>,
) -> bool {
    match result {
        Ok(value) => parsed == Ok::<_, DecodeError>((value@, rest)),
        Err(e) => parsed == Err::<(<T as View>::V, Seq<u8>), _>(e),
    }
}

/// What a decoder returned, held against the decoding of its bytes: the value
/// where there is one, and otherwise why not.
pub open spec fn decodes<T: View>(
    parsed: codec::Parsed<<T as View>::V>,
    result: Result<T, DecodeError>,
) -> bool {
    match parsed {
        Ok((value, _)) => result matches Ok(decoded) && decoded@ == value,
        Err(e) => result == Err::<T, _>(e),
    }
}

/// A result is the decoding of bytes exactly where it is the value that they hold,
/// or the error that they have.
pub proof fn law_decoding_is_the_value<T: View>(
    value: <T as View>::V,
    rest: Seq<u8>,
    error: DecodeError,
    result: Result<T, DecodeError>,
)
    ensures
        decodes(Ok((value, rest)), result) <==> result is Ok && result->Ok_0@ == value,
        decodes(Err(error), result) <==> result is Err && result->Err_0 == error,
{
}

impl<'a> Reader<'a> {
    pub(crate) closed spec fn wf(&self) -> bool {
        self.pos <= self.data@.len()
    }

    /// The bytes that are still to be read.
    pub(crate) closed spec fn rest(&self) -> Seq<u8> {
        self.data@.skip(self.pos as int)
    }

    pub(crate) fn new(data: &'a [u8]) -> (reader: Self)
        ensures
            reader.wf(),
            reader.rest() == data@,
    {
        assert(data@.skip(0) =~= data@);
        Reader { data, pos: 0 }
    }

    fn left(&self) -> (n: usize)
        requires
            self.wf(),
        ensures
            n == self.rest().len(),
    {
        self.data.len() - self.pos
    }

    fn peek(&self) -> (bytes: &'a [u8])
        requires
            self.wf(),
        ensures
            bytes@ == self.rest(),
    {
        let bytes = slice_subrange(self.data, self.pos, self.data.len());
        assert(bytes@ =~= self.rest());
        bytes
    }

    fn advance(&mut self, n: usize)
        requires
            old(self).wf(),
            n <= old(self).rest().len(),
        ensures
            final(self).wf(),
            final(self).rest() == old(self).rest().skip(n as int),
    {
        let total: usize = self.data.len();
        self.pos = self.pos + n;
        assert(self.rest() =~= old(self).rest().skip(n as int));
    }

    pub(crate) fn byte(&mut self) -> (result: Result<u8, DecodeError>)
        requires
            old(self).wf(),
        ensures
            final(self).wf(),
            reads(codec::dec_byte(old(self).rest()), result, final(self).rest()),
    {
        if self.left() < 1 {
            return Err(DecodeError::UnexpectedEnd);
        }
        let x: u8 = self.peek()[0];
        self.advance(1);
        Ok(x)
    }

    pub(crate) fn u32(&mut self) -> (result: Result<u32, DecodeError>)
        requires
            old(self).wf(),
        ensures
            final(self).wf(),
            reads(codec::dec_u32(old(self).rest()), result, final(self).rest()),
    {
        if self.left() < 4 {
            return Err(DecodeError::UnexpectedEnd);
        }
        let x: u32 = codec::bincode_read_u32(self.peek());
        self.advance(4);
        Ok(x)
    }

    pub(crate) fn u64(&mut self) -> (result: Result<u64, DecodeError>)
        requires
            old(self).wf(),
        ensures
            final(self).wf(),
            reads(codec::dec_u64(old(self).rest()), result, final(self).rest()),
    {
        if self.left() < 8 {
            return Err(DecodeError::UnexpectedEnd);
        }
        let x: u64 = codec::bincode_read_u64(self.peek());
        self.advance(8);
        Ok(x)
    }

    pub(crate) fn variant(&mut self, variants: u32) -> (result: Result<u32, DecodeError>)
        requires
            old(self).wf(),
        ensures
            final(self).wf(),
            reads(codec::dec_variant(old(self).rest(), variants), result, final(self).rest()),
    {
        let found: u32 = self.u32()?;
        if found < variants {
            Ok(found)
        } else {
            Err(DecodeError::UnknownVariant { found, variants })
        }
    }

    pub(crate) fn bytes(&mut self) -> (result: Result<Vec<u8>, DecodeError>)
        requires
            old(self).wf(),
        ensures
            final(self).wf(),
            reads(codec::dec_bytes(old(self).rest()), result, final(self).rest()),
    {
        if self.left() < 8 {
            return Err(DecodeError::UnexpectedEnd);
        }
        let bytes = self.peek();
        let n: u64 = codec::bincode_read_u64(bytes);
        if ((self.left() - 8) as u64) < n {
            return Err(DecodeError::UnexpectedEnd);
        }
        let value = codec::bincode_read_bytes(bytes);
        self.advance(8 + n as usize);
        proof {
            let rest = bytes@.skip(8);
            assert(value@ =~= rest.take(n as int));
            assert(self.rest() =~= rest.skip(n as int));
        }
        Ok(value)
    }

    fn op(&mut self) -> (result: Result<Operation, DecodeError>)
        requires
            old(self).wf(),
        ensures
            final(self).wf(),
            reads(codec::dec_op(old(self).rest()), result, final(self).rest()),
        decreases old(self).rest().len(), 0nat,
    {
        let variant: u32 = self.variant(3)?;
        if variant == 0 {
            let key = self.bytes()?;
            let value = self.bytes()?;
            Ok(Operation::Put { key, value })
        } else if variant == 1 {
            let key = self.bytes()?;
            Ok(Operation::Get { key })
        } else {
            let n: u64 = self.u64()?;
            let ops = self.ops(n)?;
            let op = Operation::Txn { ops };
            assert(op@->ops =~= types::ops_view(ops@));
            Ok(op)
        }
    }

    fn ops(&mut self, n: u64) -> (result: Result<Vec<Operation>, DecodeError>)
        requires
            old(self).wf(),
        ensures
            final(self).wf(),
            match result {
                Ok(ops) => codec::dec_ops(n as nat, old(self).rest()) == Ok::<_, DecodeError>(
                    (types::ops_view(ops@), final(self).rest()),
                ),
                Err(e) => codec::dec_ops(n as nat, old(self).rest()) == Err::<
                    (Seq<types::OpView>, Seq<u8>),
                    _,
                >(e),
            },
        decreases old(self).rest().len(), 1nat,
    {
        let mut ops: Vec<Operation> = Vec::new();
        let mut i: u64 = 0;
        let ghost start = self.rest();
        while i < n
            invariant
                i <= n,
                self.wf(),
                start == old(self).rest(),
                self.rest().len() <= start.len(),
                codec::dec_ops(n as nat, start) == prepended(
                    types::ops_view(ops@),
                    codec::dec_ops((n - i) as nat, self.rest()),
                ),
            decreases n - i,
        {
            let ghost before = types::ops_view(ops@);
            let ghost left = self.rest();
            proof {
                lemma_op_shrinks(left);
            }
            let op = self.op()?;
            ops.push(op);
            i = i + 1;
            proof {
                assert(types::ops_view(ops@) =~= before.push(op@));
                let later = codec::dec_ops((n - i) as nat, self.rest());
                if let Ok((tail, rest)) = later {
                    assert(before + (seq![op@] + tail) =~= before.push(op@) + tail);
                }
            }
        }
        assert(types::ops_view(ops@) + Seq::<types::OpView>::empty() =~= types::ops_view(ops@));
        Ok(ops)
    }

    fn block(&mut self) -> (result: Result<Block, DecodeError>)
        requires
            old(self).wf(),
        ensures
            final(self).wf(),
            reads(codec::dec_block(old(self).rest()), result, final(self).rest()),
    {
        let view: u64 = self.u64()?;
        let sequence: u64 = self.u64()?;
        let proposer: u64 = self.u64()?;
        let n: u64 = self.u64()?;
        let operations = self.ops(n)?;
        let parent_hash = self.bytes()?;
        Ok(Block { view, sequence, proposer, operations, parent_hash })
    }

    fn sigs(&mut self) -> (result: Result<Vec<(NodeId, Vec<u8>)>, DecodeError>)
        requires
            old(self).wf(),
        ensures
            final(self).wf(),
            match result {
                Ok(sigs) => codec::dec_sigs(old(self).rest()) == Ok::<_, DecodeError>(
                    (types::sigs_view(sigs@), final(self).rest()),
                ),
                Err(e) => codec::dec_sigs(old(self).rest()) == Err::<
                    (Seq<(NodeId, Seq<u8>)>, Seq<u8>),
                    _,
                >(e),
            },
    {
        let n: u64 = self.u64()?;
        let mut sigs: Vec<(NodeId, Vec<u8>)> = Vec::new();
        let mut i: u64 = 0;
        let ghost start = self.rest();
        assert(types::sigs_view(sigs@) =~= Seq::empty());
        proof {
            if let Ok((tail, rest)) = codec::dec_pairs(n as nat, start) {
                assert(Seq::empty() + tail =~= tail);
            }
        }
        while i < n
            invariant
                i <= n,
                self.wf(),
                codec::dec_sigs(old(self).rest()) == codec::dec_pairs(n as nat, start),
                codec::dec_pairs(n as nat, start) == prepended(
                    types::sigs_view(sigs@),
                    codec::dec_pairs((n - i) as nat, self.rest()),
                ),
            decreases n - i,
        {
            let ghost before = types::sigs_view(sigs@);
            let node: u64 = self.u64()?;
            let sig = self.bytes()?;
            sigs.push((node, sig));
            i = i + 1;
            proof {
                assert(types::sigs_view(sigs@) =~= before.push((node, sig@)));
                let later = codec::dec_pairs((n - i) as nat, self.rest());
                if let Ok((tail, rest)) = later {
                    assert(before + (seq![(node, sig@)] + tail) =~= before.push((node, sig@))
                        + tail);
                }
            }
        }
        assert(types::sigs_view(sigs@) + Seq::<(NodeId, Seq<u8>)>::empty() =~= types::sigs_view(
            sigs@,
        ));
        Ok(sigs)
    }

    fn message(&mut self) -> (result: Result<ConsensusMessage, DecodeError>)
        requires
            old(self).wf(),
        ensures
            final(self).wf(),
            reads(codec::dec_message(old(self).rest()), result, final(self).rest()),
    {
        let variant: u32 = self.variant(5)?;
        if variant == 0 {
            let block = self.block()?;
            Ok(ConsensusMessage::Propose { block })
        } else if variant == 1 {
            let view: u64 = self.u64()?;
            let sequence: u64 = self.u64()?;
            let block_hash = self.bytes()?;
            let voter: u64 = self.u64()?;
            Ok(ConsensusMessage::Vote { view, sequence, block_hash, voter })
        } else if variant == 2 {
            let view: u64 = self.u64()?;
            let sequence: u64 = self.u64()?;
            let block_hash = self.bytes()?;
            let vote_signatures = self.sigs()?;
            Ok(ConsensusMessage::Commit { view, sequence, block_hash, vote_signatures })
        } else if variant == 3 {
            let new_view: u64 = self.u64()?;
            let sender: u64 = self.u64()?;
            let last_committed_seq: u64 = self.u64()?;
            Ok(ConsensusMessage::ViewChange { new_view, sender, last_committed_seq })
        } else {
            let view: u64 = self.u64()?;
            let leader: u64 = self.u64()?;
            let view_change_proofs = self.sigs()?;
            Ok(ConsensusMessage::NewView { view, leader, view_change_proofs })
        }
    }

    fn presence(&mut self) -> (result: Result<bool, DecodeError>)
        requires
            old(self).wf(),
        ensures
            final(self).wf(),
            reads(codec::dec_presence(old(self).rest()), result, final(self).rest()),
    {
        let found: u8 = self.byte()?;
        if found <= 1 {
            Ok(found == 1)
        } else {
            Err(DecodeError::InvalidOption { found })
        }
    }

    fn text(&mut self) -> (result: Result<String, DecodeError>)
        requires
            old(self).wf(),
        ensures
            final(self).wf(),
            reads(codec::dec_text(old(self).rest()), result, final(self).rest()),
    {
        if self.left() < 8 {
            return Err(DecodeError::UnexpectedEnd);
        }
        let bytes = self.peek();
        let n: u64 = codec::bincode_read_u64(bytes);
        if ((self.left() - 8) as u64) < n {
            return Err(DecodeError::TextCutOff);
        }
        let text = codec::bincode_read_text(bytes);
        self.advance(8 + n as usize);
        proof {
            let rest = bytes@.skip(8);
            assert(codec::prefixed(bytes@) =~= rest.take(n as int));
            assert(self.rest() =~= rest.skip(n as int));
        }
        match text {
            Ok(text) => Ok(text),
            Err((valid_up_to, length)) => Err(DecodeError::InvalidText { valid_up_to, length }),
        }
    }

    fn response(&mut self) -> (result: Result<ClientResponse, DecodeError>)
        requires
            old(self).wf(),
        ensures
            final(self).wf(),
            reads(codec::dec_response(old(self).rest()), result, final(self).rest()),
    {
        let request_id: u64 = self.u64()?;
        let found: u8 = self.byte()?;
        if found > 1 {
            return Err(DecodeError::InvalidBool { found });
        }
        let success: bool = found == 1;
        let value = if self.presence()? {
            Some(self.bytes()?)
        } else {
            None
        };
        let error = if self.presence()? {
            Some(self.text()?)
        } else {
            None
        };
        Ok(ClientResponse { request_id, success, value, error })
    }
}

impl Operation {
    /// Decodes an operation.
    pub fn from_bytes(data: &[u8]) -> (result: Result<Self, DecodeError>)
        ensures
            decodes(codec::dec_op(data@), result),
    {
        let mut reader = Reader::new(data);
        reader.op()
    }
}

impl ConsensusMessage {
    /// Decodes a consensus message.
    pub fn from_bytes(data: &[u8]) -> (result: Result<Self, DecodeError>)
        ensures
            decodes(codec::dec_message(data@), result),
    {
        let mut reader = Reader::new(data);
        reader.message()
    }
}

impl SignedMessage {
    /// Decodes a signed message.
    pub fn from_bytes(data: &[u8]) -> (result: Result<Self, DecodeError>)
        ensures
            decodes(codec::dec_signed(data@), result),
    {
        let mut reader = Reader::new(data);
        let sender: u64 = reader.u64()?;
        let payload = reader.bytes()?;
        let signature = reader.bytes()?;
        Ok(SignedMessage { sender, payload, signature })
    }
}

impl WireMessage {
    /// Decodes a wire message.
    pub fn from_bytes(data: &[u8]) -> (result: Result<Self, DecodeError>)
        ensures
            decodes(codec::dec_wire(data@), result),
    {
        let mut reader = Reader::new(data);
        let version: u8 = reader.byte()?;
        let number: u32 = reader.variant(3)?;
        let payload = reader.bytes()?;
        let msg_type = if number == 0 {
            MessageType::Consensus
        } else if number == 1 {
            MessageType::ClientRequest
        } else {
            MessageType::ClientResponse
        };
        Ok(WireMessage { version, msg_type, payload })
    }
}

impl ClientRequest {
    /// Decodes a client request.
    pub fn from_bytes(data: &[u8]) -> (result: Result<Self, DecodeError>)
        ensures
            decodes(codec::dec_request(data@), result),
    {
        let mut reader = Reader::new(data);
        let request_id: u64 = reader.u64()?;
        let operation = reader.op()?;
        Ok(ClientRequest { request_id, operation })
    }
}

impl ClientResponse {
    /// Decodes a client response.
    pub fn from_bytes(data: &[u8]) -> (result: Result<Self, DecodeError>)
        ensures
            decodes(codec::dec_response(data@), result),
    {
        let mut reader = Reader::new(data);
        reader.response()
    }
}

/// What was decoded with more of it in front.
spec fn prepended<T>(front: Seq<T>, parsed: codec::Parsed<Seq<T>>) -> codec::Parsed<Seq<T>> {
    match parsed {
        Err(e) => Err(e),
        Ok((back, rest)) => Ok((front + back, rest)),
    }
}

/// Decoding an operation uses up some of the bytes, and so does decoding a list
/// of them that is not empty.
proof fn lemma_op_shrinks(data: Seq<u8>)
    ensures
        codec::dec_op(data) matches Ok((_, rest)) ==> rest.len() < data.len(),
    decreases data.len(), 0nat,
{
    if let Ok((variant, rest)) = codec::dec_variant(data, 3) {
        if variant == 2 {
            if let Ok((n, rest)) = codec::dec_u64(rest) {
                lemma_ops_shrink(n as nat, rest);
            }
        }
    }
}

proof fn lemma_ops_shrink(n: nat, data: Seq<u8>)
    ensures
        codec::dec_ops(n, data) matches Ok((_, rest)) ==> rest.len() <= data.len(),
    decreases data.len(), 1nat,
{
    if n > 0 {
        lemma_op_shrinks(data);
        if let Ok((op, rest)) = codec::dec_op(data) {
            lemma_ops_shrink((n - 1) as nat, rest);
        }
    }
}

} // verus!
