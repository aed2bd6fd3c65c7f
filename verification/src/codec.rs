//! The binary encoding of messages: fixed-width little-endian integers,
//! length-prefixed byte strings and sequences, and a variant number before the
//! fields of an enum. Integers, byte strings and text are written and read by
//! `bincode`; the order of the fields and the numbers of the variants are
//! stated and verified here.
use vstd::prelude::*;
use vstd::string::StringExecFns;

use crate::octets;
use crate::text;
use crate::text::decimal_text;
use crate::types::{BlockView, MessageType, MessageView, NodeId, OpView, RequestView, ResponseView, SignedView, WireView};

verus! {

/// Why bytes are not the encoding of a value.
#[derive(Debug, PartialEq, Eq, Structural, Clone, Copy)]
pub enum DecodeError {
    /// The bytes end before the value does.
    UnexpectedEnd,
    /// An enum has no variant of the number found.
    UnknownVariant { found: u32, variants: u32 },
    /// A boolean is neither 0 nor 1.
    InvalidBool { found: u8 },
    /// The mark of an optional value is neither 0 nor 1.
    InvalidOption { found: u8 },
    /// Text ends before as many bytes as it should have.
    TextCutOff,
    /// Text is not valid UTF-8: it is up to an index, and there stands a sequence
    /// of so many bytes that is none, or one that the end cuts off.
    InvalidText { valid_up_to: u64, length: Option<u8> },
}

/// What is said of a decoding error.
pub open spec fn decode_text(error: DecodeError) -> Seq<char> {
    match error {
        DecodeError::UnexpectedEnd => "io error: unexpected end of file"@,
        DecodeError::UnknownVariant { found, variants } => "invalid value: integer `"@
            + text::decimal(found as nat) + "`, expected variant index 0 <= i < "@ + text::decimal(
            variants as nat,
        ),
        DecodeError::InvalidBool { found } =>
            "invalid u8 while decoding bool, expected 0 or 1, found "@ + text::decimal(
            found as nat,
        ),
        DecodeError::InvalidOption { found } => "tag for enum is not valid, found "@
            + text::decimal(found as nat),
        DecodeError::TextCutOff => "io error: "@,
        DecodeError::InvalidText { valid_up_to, length } => match length {
            Some(length) => "string is not valid utf8: invalid utf-8 sequence of "@
                + text::decimal(length as nat) + " bytes from index "@ + text::decimal(
                valid_up_to as nat,
            ),
            None =>
                "string is not valid utf8: incomplete utf-8 byte sequence from index "@
                + text::decimal(valid_up_to as nat),
        },
    }
}

impl DecodeError {
    /// What is said of this error.
    pub fn describe(&self) -> (message: String)
        ensures
            message@ == decode_text(*self),
    {
        match *self {
            DecodeError::UnexpectedEnd => String::from_str("io error: unexpected end of file"),
            DecodeError::UnknownVariant { found, variants } => {
                let mut message = String::from_str("invalid value: integer `");
                message.append(decimal_text(found as u64).as_str());
                message.append("`, expected variant index 0 <= i < ");
                message.append(decimal_text(variants as u64).as_str());
                message
            },
            DecodeError::InvalidBool { found } => {
                let mut message = String::from_str(
                    "invalid u8 while decoding bool, expected 0 or 1, found ",
                );
                message.append(decimal_text(found as u64).as_str());
                message
            },
            DecodeError::InvalidOption { found } => {
                let mut message = String::from_str("tag for enum is not valid, found ");
                message.append(decimal_text(found as u64).as_str());
                message
            },
            DecodeError::TextCutOff => String::from_str("io error: "),
            DecodeError::InvalidText { valid_up_to, length } => match length {
                Some(length) => {
                    let mut message = String::from_str(
                        "string is not valid utf8: invalid utf-8 sequence of ",
                    );
                    message.append(decimal_text(length as u64).as_str());
                    message.append(" bytes from index ");
                    message.append(decimal_text(valid_up_to).as_str());
                    message
                },
                None => {
                    let mut message = String::from_str(
                        "string is not valid utf8: incomplete utf-8 byte sequence from index ",
                    );
                    message.append(decimal_text(valid_up_to).as_str());
                    message
                },
            },
        }
    }
}

// ---------------------------------------------------------------------------
// The outside encoder
// ---------------------------------------------------------------------------

/// The byte string behind a leading `u64` that says its length.
pub open spec fn prefixed(data: Seq<u8>) -> Seq<u8> {
    data.subrange(8, 8 + octets::le_value(data.take(8)) as int)
}

/// `bincode::serialize` of a `u32`: its four bytes, least significant first.
#[verifier::external_body]
pub(crate) fn bincode_u32(x: u32) -> (out: Vec<u8>)
    ensures
        out@ == octets::le_bytes(x as nat, 4),
{
    bincode::serialize(&x).expect("an integer always serializes")
}

/// `bincode::serialize` of a `u64`: its eight bytes, least significant first.
#[verifier::external_body]
pub(crate) fn bincode_u64(x: u64) -> (out: Vec<u8>)
    ensures
        out@ == octets::le_bytes(x as nat, 8),
{
    bincode::serialize(&x).expect("an integer always serializes")
}

/// `bincode::serialize` of a byte string: its length as a `u64`, then the bytes.
#[verifier::external_body]
pub(crate) fn bincode_bytes(data: &[u8]) -> (out: Vec<u8>)
    ensures
        out@ == octets::le_bytes(data@.len(), 8) + data@,
{
    bincode::serialize(data).expect("bytes always serialize")
}

/// `bincode::deserialize` into a `u32`: the first four bytes, least significant
/// first. Further bytes are ignored.
#[verifier::external_body]
pub(crate) fn bincode_read_u32(data: &[u8]) -> (x: u32)
    requires
        data@.len() >= 4,
    ensures
        x == octets::le_value(data@.take(4)),
{
    bincode::deserialize(data).expect("four bytes make a u32")
}

/// `bincode::deserialize` into a `u64`: the first eight bytes, least significant
/// first. Further bytes are ignored.
#[verifier::external_body]
pub(crate) fn bincode_read_u64(data: &[u8]) -> (x: u64)
    requires
        data@.len() >= 8,
    ensures
        x == octets::le_value(data@.take(8)),
{
    bincode::deserialize(data).expect("eight bytes make a u64")
}

/// `bincode::deserialize` into a `Vec<u8>`: as many bytes as the leading `u64`
/// says, from behind it. Further bytes are ignored.
#[verifier::external_body]
pub(crate) fn bincode_read_bytes(data: &[u8]) -> (out: Vec<u8>)
    requires
        data@.len() >= 8,
        data@.len() - 8 >= octets::le_value(data@.take(8)),
    ensures
        out@ == prefixed(data@),
{
    bincode::deserialize(data).expect("the bytes are all there")
}

/// What the error of `bincode::deserialize` into a `String` says of bytes that
/// are not valid UTF-8: `Utf8Error::valid_up_to` and `Utf8Error::error_len`.
pub uninterp spec fn utf8_fault(bytes: Seq<u8>) -> (u64, Option<u8>);

/// `bincode::deserialize` into a `String`: as many bytes as the leading `u64`
/// says, from behind it, decoded as UTF-8; it fails where they are not valid,
/// and says where and why. Further bytes are ignored.
#[verifier::external_body]
pub(crate) fn bincode_read_text(data: &[u8]) -> (text: Result<String, (u64, Option<u8>)>)
    requires
        data@.len() >= 8,
        data@.len() - 8 >= octets::le_value(data@.take(8)),
    ensures
        match text {
            Ok(text) => vstd::utf8::valid_utf8(prefixed(data@)) && text@
                == vstd::utf8::decode_utf8(prefixed(data@)),
            Err(fault) => {
                &&& !vstd::utf8::valid_utf8(prefixed(data@))
                &&& fault == utf8_fault(prefixed(data@))
                &&& fault.0 <= prefixed(data@).len()
                &&& vstd::utf8::valid_utf8(prefixed(data@).take(fault.0 as int))
            },
        },
{
    bincode::deserialize(data).map_err(|e: bincode::Error| match *e {
        bincode::ErrorKind::InvalidUtf8Encoding(fault) => (
            fault.valid_up_to() as u64,
            fault.error_len().map(|n: usize| n as u8),
        ),
        _ => (0, None),
    })
}

// ---------------------------------------------------------------------------
// Encodings
// ---------------------------------------------------------------------------

/// The encoding of a byte string.
pub open spec fn enc_bytes(data: Seq<u8>) -> Seq<u8> {
    octets::le_bytes(data.len(), 8) + data
}

/// The encoding of an operation.
pub open spec fn enc_op(op: OpView) -> Seq<u8>
    decreases op, 0nat,
{
    match op {
        OpView::Put { key, value } => octets::le_bytes(0, 4) + enc_bytes(key) + enc_bytes(value),
        OpView::Get { key } => octets::le_bytes(1, 4) + enc_bytes(key),
        OpView::Txn { ops } => octets::le_bytes(2, 4) + octets::le_bytes(ops.len(), 8) + enc_ops(ops),
    }
}

/// The encodings of operations, one after the other.
pub open spec fn enc_ops(ops: Seq<OpView>) -> Seq<u8>
    decreases ops, 1nat,
{
    if ops.len() == 0 {
        Seq::empty()
    } else {
        enc_op(ops[0]) + enc_ops(ops.subrange(1, ops.len() as int))
    }
}

/// The encoding of a block.
pub open spec fn enc_block(block: BlockView) -> Seq<u8> {
    octets::le_bytes(block.view as nat, 8) + octets::le_bytes(block.sequence as nat, 8) + octets::le_bytes(
        block.proposer as nat,
        8,
    ) + octets::le_bytes(block.operations.len(), 8) + enc_ops(block.operations) + enc_bytes(
        block.parent_hash,
    )
}

/// The encodings of signatures with their nodes, one after the other.
pub open spec fn enc_pairs(sigs: Seq<(NodeId, Seq<u8>)>) -> Seq<u8>
    decreases sigs.len(),
{
    if sigs.len() == 0 {
        Seq::empty()
    } else {
        octets::le_bytes(sigs[0].0 as nat, 8) + enc_bytes(sigs[0].1) + enc_pairs(sigs.skip(1))
    }
}

/// The encoding of a list of signatures with their nodes.
pub open spec fn enc_sigs(sigs: Seq<(NodeId, Seq<u8>)>) -> Seq<u8> {
    octets::le_bytes(sigs.len(), 8) + enc_pairs(sigs)
}

/// The encoding of a consensus message.
pub open spec fn enc_message(msg: MessageView) -> Seq<u8> {
    match msg {
        MessageView::Propose { block } => octets::le_bytes(0, 4) + enc_block(block),
        MessageView::Vote { view, sequence, block_hash, voter } => octets::le_bytes(1, 4) + octets::le_bytes(
            view as nat,
            8,
        ) + octets::le_bytes(sequence as nat, 8) + enc_bytes(block_hash) + octets::le_bytes(voter as nat, 8),
        MessageView::Commit { view, sequence, block_hash, vote_signatures } => octets::le_bytes(2, 4)
            + octets::le_bytes(view as nat, 8) + octets::le_bytes(sequence as nat, 8) + enc_bytes(block_hash)
            + enc_sigs(vote_signatures),
        MessageView::ViewChange { new_view, sender, last_committed_seq } => octets::le_bytes(3, 4)
            + octets::le_bytes(new_view as nat, 8) + octets::le_bytes(sender as nat, 8) + octets::le_bytes(
            last_committed_seq as nat,
            8,
        ),
        MessageView::NewView { view, leader, view_change_proofs } => octets::le_bytes(4, 4) + octets::le_bytes(
            view as nat,
            8,
        ) + octets::le_bytes(leader as nat, 8) + enc_sigs(view_change_proofs),
    }
}

/// The encoding of a signed message.
pub open spec fn enc_signed(signed: SignedView) -> Seq<u8> {
    octets::le_bytes(signed.sender as nat, 8) + enc_bytes(signed.payload) + enc_bytes(signed.signature)
}

/// The variant number of a message type.
pub open spec fn type_number(kind: MessageType) -> u32 {
    match kind {
        MessageType::Consensus => 0,
        MessageType::ClientRequest => 1,
        MessageType::ClientResponse => 2,
    }
}

/// The encoding of a wire message.
pub open spec fn enc_wire(wire: WireView) -> Seq<u8> {
    seq![wire.version] + octets::le_bytes(type_number(wire.msg_type) as nat, 4) + enc_bytes(wire.payload)
}

/// The encoding of a client request.
pub open spec fn enc_request(request: RequestView) -> Seq<u8> {
    octets::le_bytes(request.request_id as nat, 8) + enc_op(request.operation)
}

/// The encoding of an optional byte string.
pub open spec fn enc_option(data: Option<Seq<u8>>) -> Seq<u8> {
    match data {
        None => seq![0u8],
        Some(data) => seq![1u8] + enc_bytes(data),
    }
}

/// The encoding of a client response.
pub open spec fn enc_response(response: ResponseView) -> Seq<u8> {
    octets::le_bytes(response.request_id as nat, 8) + seq![
        if response.success {
            1u8
        } else {
            0u8
        },
    ] + enc_option(response.value) + enc_option(
        match response.error {
            Some(error) => Some(vstd::utf8::encode_utf8(error)),
            None => None,
        },
    )
}

// ---------------------------------------------------------------------------
// Decodings
// ---------------------------------------------------------------------------

/// A decoded value with the bytes behind it, or why there is none.
pub type Parsed<T> = Result<(T, Seq<u8>), DecodeError>;

pub open spec fn dec_byte(data: Seq<u8>) -> Parsed<u8> {
    if data.len() < 1 {
        Err(DecodeError::UnexpectedEnd)
    } else {
        Ok((data[0], data.skip(1)))
    }
}

pub open spec fn dec_u32(data: Seq<u8>) -> Parsed<u32> {
    if data.len() < 4 {
        Err(DecodeError::UnexpectedEnd)
    } else {
        Ok((octets::le_value(data.take(4)) as u32, data.skip(4)))
    }
}

pub open spec fn dec_u64(data: Seq<u8>) -> Parsed<u64> {
    if data.len() < 8 {
        Err(DecodeError::UnexpectedEnd)
    } else {
        Ok((octets::le_value(data.take(8)) as u64, data.skip(8)))
    }
}

/// The variant number of an enum with `variants` variants.
pub open spec fn dec_variant(data: Seq<u8>, variants: u32) -> Parsed<u32> {
    match dec_u32(data) {
        Err(e) => Err(e),
        Ok((found, rest)) => if found < variants {
            Ok((found, rest))
        } else {
            Err(DecodeError::UnknownVariant { found, variants })
        },
    }
}

pub open spec fn dec_bytes(data: Seq<u8>) -> Parsed<Seq<u8>> {
    match dec_u64(data) {
        Err(e) => Err(e),
        Ok((n, rest)) => if rest.len() < n {
            Err(DecodeError::UnexpectedEnd)
        } else {
            Ok((rest.take(n as int), rest.skip(n as int)))
        },
    }
}

pub open spec fn dec_op(data: Seq<u8>) -> Parsed<OpView>
    decreases data.len(), 0nat,
{
    match dec_variant(data, 3) {
        Err(e) => Err(e),
        Ok((variant, rest)) => if variant == 0 {
            match dec_bytes(rest) {
                Err(e) => Err(e),
                Ok((key, rest)) => match dec_bytes(rest) {
                    Err(e) => Err(e),
                    Ok((value, rest)) => Ok((OpView::Put { key, value }, rest)),
                },
            }
        } else if variant == 1 {
            match dec_bytes(rest) {
                Err(e) => Err(e),
                Ok((key, rest)) => Ok((OpView::Get { key }, rest)),
            }
        } else {
            match dec_u64(rest) {
                Err(e) => Err(e),
                Ok((n, rest)) => match dec_ops(n as nat, rest) {
                    Err(e) => Err(e),
                    Ok((ops, rest)) => Ok((OpView::Txn { ops }, rest)),
                },
            }
        },
    }
}

/// `n` operations, one after the other.
pub open spec fn dec_ops(n: nat, data: Seq<u8>) -> Parsed<Seq<OpView>>
    decreases data.len(), 1nat,
{
    if n == 0 {
        Ok((Seq::empty(), data))
    } else {
        match dec_op(data) {
            Err(e) => Err(e),
            Ok((op, rest)) => if rest.len() < data.len() {
                match dec_ops((n - 1) as nat, rest) {
                    Err(e) => Err(e),
                    Ok((ops, rest)) => Ok((seq![op] + ops, rest)),
                }
            } else {
                Err(DecodeError::UnexpectedEnd)
            },
        }
    }
}

/// A number of operations and then the operations.
pub open spec fn dec_op_list(data: Seq<u8>) -> Parsed<Seq<OpView>> {
    match dec_u64(data) {
        Err(e) => Err(e),
        Ok((n, rest)) => dec_ops(n as nat, rest),
    }
}

pub open spec fn dec_block(data: Seq<u8>) -> Parsed<BlockView> {
    match dec_u64(data) {
        Err(e) => Err(e),
        Ok((view, rest)) => match dec_u64(rest) {
            Err(e) => Err(e),
            Ok((sequence, rest)) => match dec_u64(rest) {
                Err(e) => Err(e),
                Ok((proposer, rest)) => match dec_op_list(rest) {
                    Err(e) => Err(e),
                    Ok((operations, rest)) => match dec_bytes(rest) {
                        Err(e) => Err(e),
                        Ok((parent_hash, rest)) => Ok(
                            (
                                BlockView { view, sequence, proposer, operations, parent_hash },
                                rest,
                            ),
                        ),
                    },
                },
            },
        },
    }
}

/// `n` signatures with their nodes, one after the other.
pub open spec fn dec_pairs(n: nat, data: Seq<u8>) -> Parsed<Seq<(NodeId, Seq<u8>)>>
    decreases n,
{
    if n == 0 {
        Ok((Seq::empty(), data))
    } else {
        match dec_u64(data) {
            Err(e) => Err(e),
            Ok((node, rest)) => match dec_bytes(rest) {
                Err(e) => Err(e),
                Ok((sig, rest)) => match dec_pairs((n - 1) as nat, rest) {
                    Err(e) => Err(e),
                    Ok((sigs, rest)) => Ok((seq![(node, sig)] + sigs, rest)),
                },
            },
        }
    }
}

pub open spec fn dec_sigs(data: Seq<u8>) -> Parsed<Seq<(NodeId, Seq<u8>)>> {
    match dec_u64(data) {
        Err(e) => Err(e),
        Ok((n, rest)) => dec_pairs(n as nat, rest),
    }
}

pub open spec fn dec_vote(data: Seq<u8>) -> Parsed<MessageView> {
    match dec_u64(data) {
        Err(e) => Err(e),
        Ok((view, rest)) => match dec_u64(rest) {
            Err(e) => Err(e),
            Ok((sequence, rest)) => match dec_bytes(rest) {
                Err(e) => Err(e),
                Ok((block_hash, rest)) => match dec_u64(rest) {
                    Err(e) => Err(e),
                    Ok((voter, rest)) => Ok(
                        (MessageView::Vote { view, sequence, block_hash, voter }, rest),
                    ),
                },
            },
        },
    }
}

pub open spec fn dec_commit(data: Seq<u8>) -> Parsed<MessageView> {
    match dec_u64(data) {
        Err(e) => Err(e),
        Ok((view, rest)) => match dec_u64(rest) {
            Err(e) => Err(e),
            Ok((sequence, rest)) => match dec_bytes(rest) {
                Err(e) => Err(e),
                Ok((block_hash, rest)) => match dec_sigs(rest) {
                    Err(e) => Err(e),
                    Ok((vote_signatures, rest)) => Ok(
                        (MessageView::Commit { view, sequence, block_hash, vote_signatures }, rest),
                    ),
                },
            },
        },
    }
}

pub open spec fn dec_view_change(data: Seq<u8>) -> Parsed<MessageView> {
    match dec_u64(data) {
        Err(e) => Err(e),
        Ok((new_view, rest)) => match dec_u64(rest) {
            Err(e) => Err(e),
            Ok((sender, rest)) => match dec_u64(rest) {
                Err(e) => Err(e),
                Ok((last_committed_seq, rest)) => Ok(
                    (MessageView::ViewChange { new_view, sender, last_committed_seq }, rest),
                ),
            },
        },
    }
}

pub open spec fn dec_new_view(data: Seq<u8>) -> Parsed<MessageView> {
    match dec_u64(data) {
        Err(e) => Err(e),
        Ok((view, rest)) => match dec_u64(rest) {
            Err(e) => Err(e),
            Ok((leader, rest)) => match dec_sigs(rest) {
                Err(e) => Err(e),
                Ok((view_change_proofs, rest)) => Ok(
                    (MessageView::NewView { view, leader, view_change_proofs }, rest),
                ),
            },
        },
    }
}

pub open spec fn dec_message(data: Seq<u8>) -> Parsed<MessageView> {
    match dec_variant(data, 5) {
        Err(e) => Err(e),
        Ok((variant, rest)) => if variant == 0 {
            match dec_block(rest) {
                Err(e) => Err(e),
                Ok((block, rest)) => Ok((MessageView::Propose { block }, rest)),
            }
        } else if variant == 1 {
            dec_vote(rest)
        } else if variant == 2 {
            dec_commit(rest)
        } else if variant == 3 {
            dec_view_change(rest)
        } else {
            dec_new_view(rest)
        },
    }
}

pub open spec fn dec_signed(data: Seq<u8>) -> Parsed<SignedView> {
    match dec_u64(data) {
        Err(e) => Err(e),
        Ok((sender, rest)) => match dec_bytes(rest) {
            Err(e) => Err(e),
            Ok((payload, rest)) => match dec_bytes(rest) {
                Err(e) => Err(e),
                Ok((signature, rest)) => Ok((SignedView { sender, payload, signature }, rest)),
            },
        },
    }
}

/// The message type of a variant number.
pub open spec fn type_of_number(number: u32) -> MessageType {
    if number == 0 {
        MessageType::Consensus
    } else if number == 1 {
        MessageType::ClientRequest
    } else {
        MessageType::ClientResponse
    }
}

pub open spec fn dec_wire(data: Seq<u8>) -> Parsed<WireView> {
    match dec_byte(data) {
        Err(e) => Err(e),
        Ok((version, rest)) => match dec_variant(rest, 3) {
            Err(e) => Err(e),
            Ok((number, rest)) => match dec_bytes(rest) {
                Err(e) => Err(e),
                Ok((payload, rest)) => Ok(
                    (WireView { version, msg_type: type_of_number(number), payload }, rest),
                ),
            },
        },
    }
}

pub open spec fn dec_request(data: Seq<u8>) -> Parsed<RequestView> {
    match dec_u64(data) {
        Err(e) => Err(e),
        Ok((request_id, rest)) => match dec_op(rest) {
            Err(e) => Err(e),
            Ok((operation, rest)) => Ok((RequestView { request_id, operation }, rest)),
        },
    }
}

pub open spec fn dec_bool(data: Seq<u8>) -> Parsed<bool> {
    match dec_byte(data) {
        Err(e) => Err(e),
        Ok((found, rest)) => if found <= 1 {
            Ok((found == 1, rest))
        } else {
            Err(DecodeError::InvalidBool { found })
        },
    }
}

/// Whether an optional value is there.
pub open spec fn dec_presence(data: Seq<u8>) -> Parsed<bool> {
    match dec_byte(data) {
        Err(e) => Err(e),
        Ok((found, rest)) => if found <= 1 {
            Ok((found == 1, rest))
        } else {
            Err(DecodeError::InvalidOption { found })
        },
    }
}

pub open spec fn dec_option_bytes(data: Seq<u8>) -> Parsed<Option<Seq<u8>>> {
    match dec_presence(data) {
        Err(e) => Err(e),
        Ok((present, rest)) => if present {
            match dec_bytes(rest) {
                Err(e) => Err(e),
                Ok((value, rest)) => Ok((Some(value), rest)),
            }
        } else {
            Ok((None, rest))
        },
    }
}

pub open spec fn dec_text(data: Seq<u8>) -> Parsed<Seq<char>> {
    match dec_u64(data) {
        Err(e) => Err(e),
        Ok((n, rest)) => if rest.len() < n {
            Err(DecodeError::TextCutOff)
        } else if !vstd::utf8::valid_utf8(rest.take(n as int)) {
            let (valid_up_to, length) = utf8_fault(rest.take(n as int));
            Err(DecodeError::InvalidText { valid_up_to, length })
        } else {
            Ok((vstd::utf8::decode_utf8(rest.take(n as int)), rest.skip(n as int)))
        },
    }
}

pub open spec fn dec_option_text(data: Seq<u8>) -> Parsed<Option<Seq<char>>> {
    match dec_presence(data) {
        Err(e) => Err(e),
        Ok((present, rest)) => if present {
            match dec_text(rest) {
                Err(e) => Err(e),
                Ok((text, rest)) => Ok((Some(text), rest)),
            }
        } else {
            Ok((None, rest))
        },
    }
}

pub open spec fn dec_response(data: Seq<u8>) -> Parsed<ResponseView> {
    match dec_u64(data) {
        Err(e) => Err(e),
        Ok((request_id, rest)) => match dec_bool(rest) {
            Err(e) => Err(e),
            Ok((success, rest)) => match dec_option_bytes(rest) {
                Err(e) => Err(e),
                Ok((value, rest)) => match dec_option_text(rest) {
                    Err(e) => Err(e),
                    Ok((error, rest)) => Ok(
                        (ResponseView { request_id, success, value, error }, rest),
                    ),
                },
            },
        },
    }
}

} // verus!
