//! Frames on a stream, the errors of the network, and the decisions of the
//! simulated network.
use bytes::{Buf, BufMut};
use vstd::prelude::*;
use vstd::slice::slice_subrange;
use vstd::string::StringExecFns;

use crate::codec;
use crate::octets;
use crate::roundtrip;
use crate::text;
use crate::text::decimal_text;
use crate::types::{NodeId, WireMessage, WireView};

verus! {

/// The length of a frame's header.
pub const HEADER_LEN: usize = 4;

/// The longest payload that is read, 16 MiB.
pub const MAX_FRAME: usize = 16_777_216;

/// `bytes::BufMut::put_u32` on an empty `Vec`: the four bytes of a number, most
/// significant first.
#[verifier::external_body]
fn bytes_put_u32(x: u32) -> (out: Vec<u8>)
    ensures
        out@ == octets::be_bytes(x as nat, 4),
{
    let mut out: Vec<u8> = Vec::new();
    out.put_u32(x);
    out
}

/// `bytes::Buf::get_u32` on a slice: the number that its first four bytes
/// spell, most significant first.
#[verifier::external_body]
pub(crate) fn bytes_get_u32(data: &[u8]) -> (x: u32)
    requires
        data@.len() >= 4,
    ensures
        x == octets::be_value(data@.take(4)),
{
    let mut data = data;
    data.get_u32()
}

/// Errors of the network.
#[derive(Debug, PartialEq, Eq, Clone)]
pub enum NetworkError {
    /// The target node is not connected.
    PeerNotFound { node_id: NodeId },
    /// The channel is closed.
    ChannelClosed,
    /// A socket failed; what it said.
    Io(String),
    /// Bytes could not be decoded; why not.
    Codec(String),
}

/// What a `NetworkError` stands for.
pub enum NetworkErrorView {
    PeerNotFound { node_id: NodeId },
    ChannelClosed,
    Io(Seq<char>),
    Codec(Seq<char>),
}

impl View for NetworkError {
    type V = NetworkErrorView;

    open spec fn view(&self) -> NetworkErrorView {
        match *self {
            NetworkError::PeerNotFound { node_id } => NetworkErrorView::PeerNotFound { node_id },
            NetworkError::ChannelClosed => NetworkErrorView::ChannelClosed,
            NetworkError::Io(message) => NetworkErrorView::Io(message@),
            NetworkError::Codec(message) => NetworkErrorView::Codec(message@),
        }
    }
}

/// What is said of a network error.
pub open spec fn network_text(error: NetworkErrorView) -> Seq<char> {
    match error {
        NetworkErrorView::PeerNotFound { node_id } => "peer "@ + text::decimal(node_id as nat)
            + " not found"@,
        NetworkErrorView::ChannelClosed => "channel closed"@,
        NetworkErrorView::Io(message) => "I/O error: "@ + message,
        NetworkErrorView::Codec(message) => "codec error: "@ + message,
    }
}

impl NetworkError {
    /// What is said of this error.
    pub fn describe(&self) -> (message: String)
        ensures
            message@ == network_text(self@),
    {
        match self {
            NetworkError::PeerNotFound { node_id } => {
                let mut message = String::from_str("peer ");
                message.append(decimal_text(*node_id).as_str());
                message.append(" not found");
                message
            },
            NetworkError::ChannelClosed => String::from_str("channel closed"),
            NetworkError::Io(reason) => {
                let mut message = String::from_str("I/O error: ");
                message.append(reason.as_str());
                message
            },
            NetworkError::Codec(reason) => {
                let mut message = String::from_str("codec error: ");
                message.append(reason.as_str());
                message
            },
        }
    }
}

// ---------------------------------------------------------------------------
// Frames
// ---------------------------------------------------------------------------

/// A frame: the length of the encoded message, most significant byte first,
/// and the encoded message.
pub open spec fn frame_of(wire: WireView) -> Seq<u8> {
    octets::be_bytes(codec::enc_wire(wire).len(), 4) + codec::enc_wire(wire)
}

/// The payload length that a header announces, or why it is refused.
pub open spec fn announced_len(header: Seq<u8>) -> Result<nat, NetworkErrorView> {
    let n = octets::be_value(header.take(4));
    if n > MAX_FRAME {
        Err(NetworkErrorView::Codec("message too large: "@ + text::decimal(n) + " bytes"@))
    } else {
        Ok(n)
    }
}

/// The message that a payload holds, or why there is none.
pub open spec fn framed_message(payload: Seq<u8>) -> Result<WireView, NetworkErrorView> {
    match codec::dec_wire(payload) {
        Ok((wire, _)) => Ok(wire),
        Err(e) => Err(NetworkErrorView::Codec(codec::decode_text(e))),
    }
}

/// The frame of a wire message.
pub fn frame_encode(msg: &WireMessage) -> (frame: Vec<u8>)
    ensures
        frame@ == frame_of(msg@),
{
    let payload = msg.to_bytes();
    let len: u64 = payload.len() as u64 % 0x1_0000_0000;
    proof {
        octets::lemma_be_bytes_low(payload@.len(), 4);
        octets::lemma_pow256_values();
    }
    let mut frame = bytes_put_u32(len as u32);
    frame.extend_from_slice(&payload);
    assert(frame@ =~= frame_of(msg@));
    frame
}

/// The payload length that a header announces.
pub fn frame_len(header: &[u8]) -> (result: Result<usize, NetworkError>)
    requires
        header@.len() >= HEADER_LEN,
    ensures
        match result {
            Ok(n) => announced_len(header@) == Ok::<nat, NetworkErrorView>(n as nat),
            Err(e) => announced_len(header@) == Err::<nat, NetworkErrorView>(e@),
        },
{
    let n: u32 = bytes_get_u32(header);
    if n as usize > MAX_FRAME {
        let mut message = String::from_str("message too large: ");
        message.append(decimal_text(n as u64).as_str());
        message.append(" bytes");
        Err(NetworkError::Codec(message))
    } else {
        Ok(n as usize)
    }
}

/// The wire message that a payload holds.
pub fn frame_decode(payload: &[u8]) -> (result: Result<WireMessage, NetworkError>)
    ensures
        match result {
            Ok(wire) => framed_message(payload@) == Ok::<WireView, NetworkErrorView>(wire@),
            Err(e) => framed_message(payload@) == Err::<WireView, NetworkErrorView>(e@),
        },
{
    match WireMessage::from_bytes(payload) {
        Ok(wire) => Ok(wire),
        Err(e) => Err(NetworkError::Codec(e.describe())),
    }
}

/// What the reader of a frame has to do.
#[derive(Debug, PartialEq, Eq)]
pub enum FrameStep {
    /// Read so many bytes more.
    Need(usize),
    /// Nothing: the message is there.
    Message(WireMessage),
}

/// What a `FrameStep` stands for.
pub enum FrameStepView {
    Need(nat),
    Message(WireView),
}

impl View for FrameStep {
    type V = FrameStepView;

    open spec fn view(&self) -> FrameStepView {
        match *self {
            FrameStep::Need(n) => FrameStepView::Need(n as nat),
            FrameStep::Message(wire) => FrameStepView::Message(wire@),
        }
    }
}

/// What the reader of a frame has to do that has read some bytes of it: first
/// the header is read, then as many bytes as it announces.
pub open spec fn next_step(got: Seq<u8>) -> Result<FrameStepView, NetworkErrorView> {
    if got.len() < HEADER_LEN {
        Ok(FrameStepView::Need((HEADER_LEN - got.len()) as nat))
    } else {
        match announced_len(got) {
            Err(e) => Err(e),
            Ok(n) => if got.len() < HEADER_LEN + n {
                Ok(FrameStepView::Need((HEADER_LEN + n - got.len()) as nat))
            } else {
                match framed_message(got.subrange(HEADER_LEN as int, HEADER_LEN + n)) {
                    Ok(wire) => Ok(FrameStepView::Message(wire)),
                    Err(e) => Err(e),
                }
            },
        }
    }
}

/// What the reader of a frame has to do next.
pub fn frame_step(got: &[u8]) -> (result: Result<FrameStep, NetworkError>)
    ensures
        match result {
            Ok(step) => next_step(got@) == Ok::<FrameStepView, NetworkErrorView>(step@),
            Err(e) => next_step(got@) == Err::<FrameStepView, NetworkErrorView>(e@),
        },
{
    if got.len() < HEADER_LEN {
        return Ok(FrameStep::Need(HEADER_LEN - got.len()));
    }
    match frame_len(got) {
        Err(e) => Err(e),
        Ok(n) => if got.len() - HEADER_LEN < n {
            Ok(FrameStep::Need(n - (got.len() - HEADER_LEN)))
        } else {
            match frame_decode(slice_subrange(got, HEADER_LEN, HEADER_LEN + n)) {
                Ok(wire) => Ok(FrameStep::Message(wire)),
                Err(e) => Err(e),
            }
        },
    }
}

/// What comes of reading a frame from a stream, and how many bytes are read.
pub enum StreamRead {
    /// A message.
    Message { wire: WireView, read: nat },
    /// The frame is refused.
    Refused { error: NetworkErrorView, read: nat },
    /// The stream ends before the frame does.
    Ended,
}

/// Reading a frame from a stream of which some bytes are read: as long as bytes
/// are needed, they are read.
pub open spec fn read_on(stream: Seq<u8>, read: nat) -> StreamRead
    decreases stream.len() - read,
{
    match next_step(stream.take(read as int)) {
        Err(error) => StreamRead::Refused { error, read },
        Ok(FrameStepView::Message(wire)) => StreamRead::Message { wire, read },
        Ok(FrameStepView::Need(n)) => if 0 < n && read + n <= stream.len() {
            read_on(stream, read + n)
        } else {
            StreamRead::Ended
        },
    }
}

/// Reading a frame from a stream.
pub open spec fn frame_read(stream: Seq<u8>) -> StreamRead {
    read_on(stream, 0)
}

/// What comes of reading a frame is decided by what stands in front of the
/// stream. One that ends in the header or in the payload gives no message; where
/// the header announces too much, no byte of the payload is read; otherwise
/// exactly the frame is read.
pub proof fn law_stream_read(stream: Seq<u8>)
    ensures
        frame_read(stream) == (if stream.len() < HEADER_LEN {
            StreamRead::Ended
        } else {
            match announced_len(stream) {
                Err(error) => StreamRead::Refused { error, read: HEADER_LEN as nat },
                Ok(n) => if stream.len() < HEADER_LEN + n {
                    StreamRead::Ended
                } else {
                    match framed_message(stream.subrange(HEADER_LEN as int, HEADER_LEN + n)) {
                        Ok(wire) => StreamRead::Message { wire, read: HEADER_LEN as nat + n },
                        Err(error) => StreamRead::Refused { error, read: HEADER_LEN as nat + n },
                    }
                },
            }
        }),
{
    reveal_with_fuel(read_on, 3);
    if stream.len() >= HEADER_LEN {
        let header = stream.take(HEADER_LEN as int);
        assert(header.take(4) =~= stream.take(4));
        match announced_len(stream) {
            Err(_) => {},
            Ok(n) => {
                if n == 0 {
                    assert(header.subrange(HEADER_LEN as int, HEADER_LEN as int)
                        =~= stream.subrange(HEADER_LEN as int, HEADER_LEN as int));
                } else if stream.len() >= HEADER_LEN + n {
                    let whole = stream.take(HEADER_LEN + n);
                    assert(whole.take(4) =~= stream.take(4));
                    assert(whole.subrange(HEADER_LEN as int, HEADER_LEN + n) =~= stream.subrange(
                        HEADER_LEN as int,
                        HEADER_LEN + n,
                    ));
                }
            },
        }
    }
}

/// Frames that stand in a row are read one after the other: of a stream that
/// begins with the frame of a message, the message is read, and what is left is
/// what stands behind the frame.
pub proof fn law_frames_in_a_row(wire: WireView, rest: Seq<u8>)
    requires
        codec::enc_wire(wire).len() <= MAX_FRAME,
    ensures
        frame_read(frame_of(wire) + rest) == (StreamRead::Message {
            wire,
            read: frame_of(wire).len(),
        }),
        (frame_of(wire) + rest).skip(frame_of(wire).len() as int) == rest,
{
    let frame = frame_of(wire);
    let stream = frame + rest;
    let n = codec::enc_wire(wire).len();
    law_frame_roundtrip(wire);
    law_stream_read(stream);
    assert(stream.take(4) =~= frame.take(4).take(4));
    assert(stream.subrange(4, 4 + n as int) =~= frame.skip(4));
    assert(stream.skip(frame.len() as int) =~= rest);
}

/// A message that is not too long for a frame is read back from its frame: the
/// header announces the payload, and the payload holds the message.
pub proof fn law_frame_roundtrip(wire: WireView)
    requires
        codec::enc_wire(wire).len() <= MAX_FRAME,
    ensures
        frame_of(wire).len() == HEADER_LEN + codec::enc_wire(wire).len(),
        announced_len(frame_of(wire).take(HEADER_LEN as int)) == Ok::<nat, NetworkErrorView>(
            codec::enc_wire(wire).len(),
        ),
        framed_message(frame_of(wire).skip(HEADER_LEN as int)) == Ok::<WireView, NetworkErrorView>(
            wire,
        ),
{
    let payload = codec::enc_wire(wire);
    let frame = frame_of(wire);
    octets::lemma_pow256_values();
    octets::lemma_be_bytes_len(payload.len(), 4);
    octets::lemma_be_value_of_bytes(payload.len(), 4);
    assert(frame.take(4).take(4) =~= octets::be_bytes(payload.len(), 4));
    assert(frame.skip(4) =~= payload);
    octets::lemma_le_bytes_len(wire.payload.len(), 8);
    octets::lemma_le_bytes_len(codec::type_number(wire.msg_type) as nat, 4);
    assert(roundtrip::short(wire.payload));
    roundtrip::law_wire_roundtrip(wire, Seq::empty());
    assert(payload + Seq::<u8>::empty() =~= payload);
}

/// A message that is too long for a frame is refused by its header.
pub proof fn law_long_frame_refused(wire: WireView)
    requires
        MAX_FRAME < codec::enc_wire(wire).len() < octets::pow256(4),
    ensures
        announced_len(frame_of(wire).take(HEADER_LEN as int)) is Err,
{
    let payload = codec::enc_wire(wire);
    octets::lemma_be_bytes_len(payload.len(), 4);
    octets::lemma_be_value_of_bytes(payload.len(), 4);
    assert(frame_of(wire).take(4).take(4) =~= octets::be_bytes(payload.len(), 4));
}

/// A frame is the length of the message in four bytes, most significant first, and
/// the message behind it. Up to 16 MiB a header announces what its four bytes
/// spell; above that it is refused, and the refusal says how much was announced.
pub proof fn law_frame_layout(wire: WireView, header: Seq<u8>)
    ensures
        frame_of(wire).skip(4) == codec::enc_wire(wire),
        codec::enc_wire(wire).len() < 0x1_0000_0000 ==> octets::be_value(frame_of(wire).take(4))
            == codec::enc_wire(wire).len(),
        ({
            let n = octets::be_value(header.take(4));
            announced_len(header) == if n <= 16 * 1024 * 1024 {
                Ok::<nat, NetworkErrorView>(n)
            } else {
                Err(NetworkErrorView::Codec("message too large: "@ + text::decimal(n) + " bytes"@))
            }
        }),
{
    let payload = codec::enc_wire(wire);
    octets::lemma_pow256_values();
    octets::lemma_be_bytes_len(payload.len(), 4);
    assert(frame_of(wire).skip(4) =~= payload);
    assert(frame_of(wire).take(4) =~= octets::be_bytes(payload.len(), 4));
    if payload.len() < 0x1_0000_0000 {
        octets::lemma_be_value_of_bytes(payload.len(), 4);
    }
}

/// A payload holds the message that is encoded at its front; where none is, the
/// refusal says why.
pub proof fn law_payload_holds_its_message(payload: Seq<u8>)
    ensures
        match codec::dec_wire(payload) {
            Ok((wire, rest)) => framed_message(payload) == Ok::<WireView, NetworkErrorView>(wire),
            Err(e) => framed_message(payload) == Err::<WireView, NetworkErrorView>(
                NetworkErrorView::Codec(codec::decode_text(e)),
            ),
        },
{
}

/// What the reader of a frame needs is never more than what is missing: the rest
/// of the header, and then the rest of what it announces.
pub proof fn law_reader_asks_for_what_is_missing(got: Seq<u8>)
    ensures
        got.len() < 4 ==> next_step(got) == Ok::<FrameStepView, NetworkErrorView>(
            FrameStepView::Need((4 - got.len()) as nat),
        ),
        got.len() >= 4 && announced_len(got) is Err ==> next_step(got) == Err::<
            FrameStepView,
            NetworkErrorView,
        >(announced_len(got)->Err_0),
        got.len() >= 4 && announced_len(got) is Ok ==> {
            let n = announced_len(got)->Ok_0;
            &&& got.len() < 4 + n ==> next_step(got) == Ok::<FrameStepView, NetworkErrorView>(
                FrameStepView::Need((4 + n - got.len()) as nat),
            )
            &&& got.len() >= 4 + n ==> match framed_message(got.subrange(4, 4 + n as int)) {
                Ok(wire) => next_step(got) == Ok::<FrameStepView, NetworkErrorView>(
                    FrameStepView::Message(wire),
                ),
                Err(e) => next_step(got) == Err::<FrameStepView, NetworkErrorView>(e),
            }
        },
{
}

/// What is said of a network error names its kind and then what it holds.
pub proof fn law_network_errors_are_told(node_id: NodeId, message: Seq<char>)
    ensures
        network_text(NetworkErrorView::PeerNotFound { node_id }) == "peer "@ + text::decimal(
            node_id as nat,
        ) + " not found"@,
        network_text(NetworkErrorView::ChannelClosed) == "channel closed"@,
        network_text(NetworkErrorView::Io(message)) == "I/O error: "@ + message,
        network_text(NetworkErrorView::Codec(message)) == "codec error: "@ + message,
{
}

/// Errors and steps stand for themselves.
pub proof fn law_network_values_stand_for_themselves(error: NetworkError, step: FrameStep)
    ensures
        match error {
            NetworkError::PeerNotFound { node_id } => error@ == (NetworkErrorView::PeerNotFound {
                node_id,
            }),
            NetworkError::ChannelClosed => error@ == NetworkErrorView::ChannelClosed,
            NetworkError::Io(message) => error@ == NetworkErrorView::Io(message@),
            NetworkError::Codec(message) => error@ == NetworkErrorView::Codec(message@),
        },
        match step {
            FrameStep::Need(n) => step@ == FrameStepView::Need(n as nat),
            FrameStep::Message(wire) => step@ == FrameStepView::Message(wire@),
        },
{
}

// ---------------------------------------------------------------------------
// The simulated network
// ---------------------------------------------------------------------------

/// What happens to a message on the simulated network.
#[derive(Debug, PartialEq, Eq, Structural, Clone, Copy)]
pub enum Delivery {
    /// It is lost.
    Dropped,
    /// It arrives after a delay in milliseconds, perhaps twice.
    Sent { delay_ms: Option<u64>, twice: bool },
}

/// What the random draws for a message come to.
pub open spec fn planned(lost: bool, delay_ms: Option<u64>, duplicated: bool) -> Delivery {
    if lost {
        Delivery::Dropped
    } else {
        Delivery::Sent { delay_ms, twice: duplicated }
    }
}

/// A message arrives exactly where it is not lost, after the delay that was drawn
/// for it, and twice exactly where that was drawn.
pub proof fn law_only_lost_messages_are_dropped(
    lost: bool,
    delay_ms: Option<u64>,
    duplicated: bool,
)
    ensures
        planned(lost, delay_ms, duplicated) is Dropped <==> lost,
        !lost ==> planned(lost, delay_ms, duplicated)->delay_ms == delay_ms,
        !lost ==> planned(lost, delay_ms, duplicated)->twice == duplicated,
{
}

/// Decides what happens to a message from the random draws made for it. A lost
/// message is neither delayed nor duplicated.
pub fn plan_delivery(lost: bool, delay_ms: Option<u64>, duplicated: bool) -> (delivery: Delivery)
    ensures
        delivery == (if lost {
            Delivery::Dropped
        } else {
            Delivery::Sent { delay_ms, twice: duplicated }
        }),
        delivery == planned(lost, delay_ms, duplicated),
{
    if lost {
        Delivery::Dropped
    } else {
        Delivery::Sent { delay_ms, twice: duplicated }
    }
}

/// What became of an attempt to hand a message to a node's inbox.
#[derive(Debug, PartialEq, Eq, Structural, Clone, Copy)]
pub enum Handover {
    /// The node has no inbox.
    NoInbox,
    /// The inbox is closed.
    Closed,
    /// The inbox has taken the message.
    Taken,
}

/// What went wrong with handing a message over, if anything did.
pub open spec fn handed_over(target: NodeId, handover: Handover) -> Option<NetworkErrorView> {
    match handover {
        Handover::NoInbox => Some(NetworkErrorView::PeerNotFound { node_id: target }),
        Handover::Closed => Some(NetworkErrorView::ChannelClosed),
        Handover::Taken => None,
    }
}

/// A sender hears of an error exactly where the message was not taken: of the node
/// that has no inbox, by its number, or of a closed channel.
pub proof fn law_sender_hears_what_went_wrong(target: NodeId, handover: Handover)
    ensures
        handed_over(target, handover) is None <==> handover == Handover::Taken,
        handover == Handover::NoInbox ==> handed_over(target, handover) == Some(
            NetworkErrorView::PeerNotFound { node_id: target },
        ),
        handover == Handover::Closed ==> handed_over(target, handover) == Some(
            NetworkErrorView::ChannelClosed,
        ),
{
}

/// What the sender of a message is told.
pub fn delivery_result(target: NodeId, handover: Handover) -> (result: Result<(), NetworkError>)
    ensures
        match result {
            Ok(_) => handover == Handover::Taken,
            Err(e) => match handover {
                Handover::NoInbox => e@ == (NetworkErrorView::PeerNotFound { node_id: target }),
                Handover::Closed => e@ == NetworkErrorView::ChannelClosed,
                Handover::Taken => false,
            },
        },
        match result {
            Ok(_) => handed_over(target, handover) is None,
            Err(e) => handed_over(target, handover) == Some(e@),
        },
{
    match handover {
        Handover::NoInbox => Err(NetworkError::PeerNotFound { node_id: target }),
        Handover::Closed => Err(NetworkError::ChannelClosed),
        Handover::Taken => Ok(()),
    }
}

/// The nodes of a list but for one, in their order.
pub open spec fn others(self_id: NodeId, ids: Seq<NodeId>) -> Seq<NodeId>
    decreases ids.len(),
{
    if ids.len() == 0 {
        Seq::empty()
    } else if ids.last() == self_id {
        others(self_id, ids.drop_last())
    } else {
        others(self_id, ids.drop_last()).push(ids.last())
    }
}

/// A broadcast goes to every node but the sender: to each as often and in the
/// order in which it is listed.
pub proof fn law_broadcast_reaches_all_others(self_id: NodeId, ids: Seq<NodeId>, id: NodeId)
    ensures
        others(self_id, Seq::empty()) == Seq::<NodeId>::empty(),
        id != self_id ==> others(self_id, ids.push(id)) == others(self_id, ids).push(id),
        others(self_id, ids.push(self_id)) == others(self_id, ids),
{
    assert(ids.push(id).drop_last() =~= ids);
    assert(ids.push(self_id).drop_last() =~= ids);
}

/// The nodes that a broadcast goes to: all but the sender, in their order.
pub fn broadcast_targets(self_id: NodeId, ids: &Vec<NodeId>) -> (targets: Vec<NodeId>)
    ensures
        targets@ == ids@.filter(|id: NodeId| id != self_id),
        targets@ == others(self_id, ids@),
{
    let mut targets: Vec<NodeId> = Vec::new();
    let ghost other = |id: NodeId| id != self_id;
    let mut i: usize = 0;
    proof {
        reveal(Seq::filter);
        assert(ids@.take(0).filter(other) =~= Seq::empty());
    }
    while i < ids.len()
        invariant
            i <= ids@.len(),
            other == (|id: NodeId| id != self_id),
            targets@ == ids@.take(i as int).filter(other),
            targets@ == others(self_id, ids@.take(i as int)),
        decreases ids@.len() - i,
    {
        proof {
            reveal(Seq::filter);
            assert(ids@.take(i + 1).drop_last() =~= ids@.take(i as int));
        }
        if ids[i] != self_id {
            targets.push(ids[i]);
        }
        i = i + 1;
    }
    assert(ids@.take(i as int) =~= ids@);
    targets
}

} // verus!
