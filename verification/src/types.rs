//! The vocabulary of the system: operations, blocks, protocol messages,
//! envelopes, the client protocol and the node configuration.
use vstd::prelude::*;

use crate::octets::copy_bytes;

verus! {

/// Unique identifier of a node in the cluster.
pub type NodeId = u64;

/// View number (epoch); views only ever grow.
pub type ViewNumber = u64;

/// Position of an entry in the replicated log.
pub type SequenceNumber = u64;

/// Unique identifier of a client request.
pub type RequestId = u64;

/// Protocol version that every wire message carries.
pub const PROTOCOL_VERSION: u8 = 1;

/// A single key-value operation submitted by a client.
#[derive(Debug, PartialEq, Eq)]
pub enum Operation {
    /// Write a key-value pair.
    Put { key: Vec<u8>, value: Vec<u8> },
    /// Read a key; the response carries the value.
    Get { key: Vec<u8> },
    /// Atomic transaction: a batch of operations applied together.
    Txn { ops: Vec<Operation> },
}

/// What an `Operation` stands for.
pub enum OpView {
    Put { key: Seq<u8>, value: Seq<u8> },
    Get { key: Seq<u8> },
    Txn { ops: Seq<OpView> },
}

pub open spec fn op_view(op: Operation) -> OpView
    decreases op,
{
    match op {
        Operation::Put { key, value } => OpView::Put { key: key@, value: value@ },
        Operation::Get { key } => OpView::Get { key: key@ },
        Operation::Txn { ops } => OpView::Txn {
            ops: Seq::new(
                ops@.len(),
                |i: int|
                    if 0 <= i < ops@.len() {
                        op_view(ops@[i])
                    } else {
                        arbitrary()
                    },
            ),
        },
    }
}

impl View for Operation {
    type V = OpView;

    open spec fn view(&self) -> OpView {
        op_view(*self)
    }
}

/// The operations of a vector, each by its view.
pub open spec fn ops_view(ops: Seq<Operation>) -> Seq<OpView> {
    ops.map_values(|op: Operation| op@)
}

impl Clone for Operation {
    fn clone(&self) -> (copy: Self)
        ensures
            copy@ == self@,
        decreases self,
    {
        match self {
            Operation::Put { key, value } => Operation::Put {
                key: copy_bytes(key),
                value: copy_bytes(value),
            },
            Operation::Get { key } => Operation::Get { key: copy_bytes(key) },
            Operation::Txn { ops } => {
                let mut copies: Vec<Operation> = Vec::new();
                let mut i: usize = 0;
                while i < ops.len()
                    invariant
                        i <= ops@.len(),
                        copies@.len() == i,
                        *self == (Operation::Txn { ops: *ops }),
                        forall|j: int| 0 <= j < i ==> op_view(#[trigger] copies@[j]) == op_view(ops@[j]),
                    decreases ops@.len() - i,
                {
                    assert(decreases_to!(self => self->ops));
                    assert(decreases_to!(self->ops => self->ops@));
                    assert(decreases_to!(self->ops@ => self->ops@[i as int]));
                    let copy = ops[i].clone();
                    copies.push(copy);
                    i = i + 1;
                }
                let copy = Operation::Txn { ops: copies };
                assert(copy@->ops =~= self@->ops);
                copy
            },
        }
    }
}

/// A block of operations proposed by the leader for consensus.
#[derive(Debug, PartialEq, Eq)]
pub struct Block {
    /// View in which this block was proposed.
    pub view: ViewNumber,
    /// Sequence number (log index) of this block.
    pub sequence: SequenceNumber,
    /// The leader that created this block.
    pub proposer: NodeId,
    /// Operations in this block, in the order in which they are applied.
    pub operations: Vec<Operation>,
    /// Hash of the previous block.
    pub parent_hash: Vec<u8>,
}

/// What a `Block` stands for.
#[verifier::ext_equal]
pub struct BlockView {
    pub view: ViewNumber,
    pub sequence: SequenceNumber,
    pub proposer: NodeId,
    pub operations: Seq<OpView>,
    pub parent_hash: Seq<u8>,
}

impl View for Block {
    type V = BlockView;

    open spec fn view(&self) -> BlockView {
        BlockView {
            view: self.view,
            sequence: self.sequence,
            proposer: self.proposer,
            operations: ops_view(self.operations@),
            parent_hash: self.parent_hash@,
        }
    }
}

/// A copy of a list of operations.
pub fn copy_ops(ops: &Vec<Operation>) -> (copies: Vec<Operation>)
    ensures
        ops_view(copies@) == ops_view(ops@),
{
    let mut copies: Vec<Operation> = Vec::new();
    let mut i: usize = 0;
    while i < ops.len()
        invariant
            i <= ops@.len(),
            copies@.len() == i,
            forall|j: int| 0 <= j < i ==> (#[trigger] copies@[j])@ == ops@[j]@,
        decreases ops@.len() - i,
    {
        let copy = ops[i].clone();
        copies.push(copy);
        i = i + 1;
    }
    assert(ops_view(copies@) =~= ops_view(ops@));
    copies
}

impl Clone for Block {
    fn clone(&self) -> (copy: Self)
        ensures
            copy@ == self@,
    {
        Block {
            view: self.view,
            sequence: self.sequence,
            proposer: self.proposer,
            operations: copy_ops(&self.operations),
            parent_hash: copy_bytes(&self.parent_hash),
        }
    }
}

/// Signatures, each with the node that made it.
pub open spec fn sigs_view(sigs: Seq<(NodeId, Vec<u8>)>) -> Seq<(NodeId, Seq<u8>)> {
    sigs.map_values(|sig: (NodeId, Vec<u8>)| (sig.0, sig.1@))
}

/// Messages exchanged by the consensus protocol.
#[derive(Debug, PartialEq, Eq, Clone)]
pub enum ConsensusMessage {
    /// Phase 1: the leader proposes a block.
    Propose { block: Block },
    /// Phase 2: a replica votes for a proposed block.
    Vote { view: ViewNumber, sequence: SequenceNumber, block_hash: Vec<u8>, voter: NodeId },
    /// Phase 3: the leader broadcasts the commit certificate, which holds the
    /// vote signatures of a quorum.
    Commit {
        view: ViewNumber,
        sequence: SequenceNumber,
        block_hash: Vec<u8>,
        vote_signatures: Vec<(NodeId, Vec<u8>)>,
    },
    /// A node asks for a new view after a timeout, with the highest sequence
    /// that it knows to be committed.
    ViewChange { new_view: ViewNumber, sender: NodeId, last_committed_seq: SequenceNumber },
    /// The leader of a new view announces it, with the view-change messages
    /// that justify it.
    NewView { view: ViewNumber, leader: NodeId, view_change_proofs: Vec<(NodeId, Vec<u8>)> },
}

/// What a `ConsensusMessage` stands for.
pub enum MessageView {
    Propose { block: BlockView },
    Vote { view: ViewNumber, sequence: SequenceNumber, block_hash: Seq<u8>, voter: NodeId },
    Commit {
        view: ViewNumber,
        sequence: SequenceNumber,
        block_hash: Seq<u8>,
        vote_signatures: Seq<(NodeId, Seq<u8>)>,
    },
    ViewChange { new_view: ViewNumber, sender: NodeId, last_committed_seq: SequenceNumber },
    NewView { view: ViewNumber, leader: NodeId, view_change_proofs: Seq<(NodeId, Seq<u8>)> },
}

impl View for ConsensusMessage {
    type V = MessageView;

    open spec fn view(&self) -> MessageView {
        match *self {
            ConsensusMessage::Propose { block } => MessageView::Propose { block: block@ },
            ConsensusMessage::Vote { view, sequence, block_hash, voter } => MessageView::Vote {
                view,
                sequence,
                block_hash: block_hash@,
                voter,
            },
            ConsensusMessage::Commit { view, sequence, block_hash, vote_signatures } =>
                MessageView::Commit {
                view,
                sequence,
                block_hash: block_hash@,
                vote_signatures: sigs_view(vote_signatures@),
            },
            ConsensusMessage::ViewChange { new_view, sender, last_committed_seq } =>
                MessageView::ViewChange { new_view, sender, last_committed_seq },
            ConsensusMessage::NewView { view, leader, view_change_proofs } =>
                MessageView::NewView {
                view,
                leader,
                view_change_proofs: sigs_view(view_change_proofs@),
            },
        }
    }
}

/// A message with a signature that authenticates its sender.
#[derive(Debug, PartialEq, Eq, Clone)]
pub struct SignedMessage {
    /// The sender's node ID.
    pub sender: NodeId,
    /// The encoded `ConsensusMessage`.
    pub payload: Vec<u8>,
    /// Ed25519 signature.
    pub signature: Vec<u8>,
}

/// What a `SignedMessage` stands for.
#[verifier::ext_equal]
pub struct SignedView {
    pub sender: NodeId,
    pub payload: Seq<u8>,
    pub signature: Seq<u8>,
}

impl View for SignedMessage {
    type V = SignedView;

    open spec fn view(&self) -> SignedView {
        SignedView {
            sender: self.sender,
            payload: self.payload@,
            signature: self.signature@,
        }
    }
}

/// What kind of message a wire message carries.
#[derive(Debug, PartialEq, Eq, Structural, Clone, Copy)]
pub enum MessageType {
    Consensus,
    ClientRequest,
    ClientResponse,
}

/// Top-level wire format: version, type, payload.
#[derive(Debug, PartialEq, Eq, Clone)]
pub struct WireMessage {
    /// Protocol version.
    pub version: u8,
    /// What kind of message this is.
    pub msg_type: MessageType,
    /// Encoded inner message.
    pub payload: Vec<u8>,
}

/// What a `WireMessage` stands for.
#[verifier::ext_equal]
pub struct WireView {
    pub version: u8,
    pub msg_type: MessageType,
    pub payload: Seq<u8>,
}

impl View for WireMessage {
    type V = WireView;

    open spec fn view(&self) -> WireView {
        WireView { version: self.version, msg_type: self.msg_type, payload: self.payload@ }
    }
}

/// A request from a client to the cluster.
#[derive(Debug, PartialEq, Eq, Clone)]
pub struct ClientRequest {
    /// Unique request identifier.
    pub request_id: RequestId,
    /// The operation to execute.
    pub operation: Operation,
}

/// What a `ClientRequest` stands for.
pub struct RequestView {
    pub request_id: RequestId,
    pub operation: OpView,
}

impl View for ClientRequest {
    type V = RequestView;

    open spec fn view(&self) -> RequestView {
        RequestView { request_id: self.request_id, operation: self.operation@ }
    }
}

/// Response sent back to the client.
#[derive(Debug, PartialEq, Eq, Clone)]
pub struct ClientResponse {
    /// Echoed request identifier.
    pub request_id: RequestId,
    /// Whether the operation was committed.
    pub success: bool,
    /// The value that a `Get` read.
    pub value: Option<Vec<u8>>,
    /// Human-readable error message, if any.
    pub error: Option<String>,
}

/// What a `ClientResponse` stands for.
pub struct ResponseView {
    pub request_id: RequestId,
    pub success: bool,
    pub value: Option<Seq<u8>>,
    pub error: Option<Seq<char>>,
}

impl View for ClientResponse {
    type V = ResponseView;

    open spec fn view(&self) -> ResponseView {
        ResponseView {
            request_id: self.request_id,
            success: self.success,
            value: match self.value {
                Some(value) => Some(value@),
                None => None,
            },
            error: match self.error {
                Some(error) => Some(error@),
                None => None,
            },
        }
    }
}

/// Static configuration of a node in the cluster.
#[derive(Debug, Clone)]
pub struct NodeConfig {
    /// This node's ID.
    pub id: NodeId,
    /// Total number of nodes in the cluster.
    pub cluster_size: usize,
    /// Maximum number of Byzantine faults tolerated.
    pub max_faults: usize,
    /// All nodes of the cluster with their network addresses.
    pub peers: Vec<(NodeId, String)>,
    /// Directory for persistent storage.
    pub data_dir: String,
    /// Consensus timeout in milliseconds before a view change.
    pub consensus_timeout_ms: u64,
    /// Chain identifier that signatures are bound to.
    pub chain_id: String,
}

/// How many nodes make a quorum when `max_faults` of them may be faulty.
pub open spec fn quorum_for(max_faults: nat) -> nat {
    2 * max_faults + 1
}

/// The leader of a view: the nodes take turns in their listed order.
pub open spec fn leader_of(ids: Seq<NodeId>, view: nat) -> NodeId {
    ids[(view % ids.len()) as int]
}

impl NodeConfig {
    /// The nodes of the cluster in their listed order.
    pub open spec fn peer_ids(&self) -> Seq<NodeId> {
        self.peers@.map_values(|peer: (NodeId, String)| peer.0)
    }

    /// The quorum size, two nodes for each tolerated fault and one more.
    pub fn quorum_size(&self) -> (size: usize)
        requires
            2 * self.max_faults + 1 <= usize::MAX,
        ensures
            size == quorum_for(self.max_faults as nat),
    {
        2 * self.max_faults + 1
    }

    /// The leader of a given view.
    pub fn leader_for_view(&self, view: ViewNumber) -> (leader: NodeId)
        requires
            self.peers@.len() > 0,
        ensures
            leader == leader_of(self.peer_ids(), view as nat),
    {
        let turn: u64 = view % (self.peers.len() as u64);
        self.peers[turn as usize].0
    }
}

/// A quorum is two nodes for each tolerated fault and one more, and the leader of a
/// view is the node whose place is the view modulo the number of nodes.
pub proof fn law_quorum_and_leader(max_faults: nat, ids: Seq<NodeId>, view: nat, at: int)
    requires
        ids.len() > 0,
    ensures
        quorum_for(max_faults) == max_faults + max_faults + 1,
        0 <= at < ids.len() && (view - at) % (ids.len() as int) == 0 ==> leader_of(ids, view)
            == ids[at],
        ids.contains(leader_of(ids, view)),
{
    let n = ids.len() as int;
    vstd::arithmetic::div_mod::lemma_mod_bound(view as int, n);
    assert(ids[view as int % n] == leader_of(ids, view));
    if 0 <= at < ids.len() && (view - at) % n == 0 {
        vstd::arithmetic::div_mod::lemma_fundamental_div_mod(view - at, n);
        let q = (view - at) / n;
        assert(n * q == q * n) by (nonlinear_arith);
        vstd::arithmetic::div_mod::lemma_fundamental_div_mod_converse(view as int, n, q, at);
    }
}

/// A configuration lists the nodes in the order of its peers.
pub proof fn law_peers_in_order(config: NodeConfig, i: int)
    requires
        0 <= i < config.peers@.len(),
    ensures
        config.peer_ids().len() == config.peers@.len(),
        config.peer_ids()[i] == config.peers@[i].0,
{
}

/// An operation stands for its own key, value and parts, all of them and in their
/// order.
pub proof fn law_operation_stands_for_its_parts(op: Operation, i: int)
    ensures
        match op {
            Operation::Put { key, value } => op@ == (OpView::Put { key: key@, value: value@ }),
            Operation::Get { key } => op@ == (OpView::Get { key: key@ }),
            Operation::Txn { ops } => {
                &&& op@ is Txn
                &&& op@->ops.len() == ops@.len()
                &&& 0 <= i < ops@.len() ==> op@->ops[i] == ops@[i]@
            },
        },
{
}

/// A block stands for its own fields, with its operations in their order.
pub proof fn law_block_stands_for_its_fields(block: Block, i: int)
    ensures
        block@.view == block.view,
        block@.sequence == block.sequence,
        block@.proposer == block.proposer,
        block@.parent_hash == block.parent_hash@,
        block@.operations.len() == block.operations@.len(),
        0 <= i < block.operations@.len() ==> block@.operations[i] == block.operations@[i]@,
{
}

/// A message stands for its own kind and fields, with its signatures in their
/// order.
pub proof fn law_message_stands_for_its_fields(msg: ConsensusMessage, i: int)
    ensures
        match msg {
            ConsensusMessage::Propose { block } => msg@ == (MessageView::Propose { block: block@ }),
            ConsensusMessage::Vote { view, sequence, block_hash, voter } => msg@ == (
            MessageView::Vote { view, sequence, block_hash: block_hash@, voter }),
            ConsensusMessage::Commit { view, sequence, block_hash, vote_signatures } => {
                &&& msg@ matches MessageView::Commit {
                    view: v,
                    sequence: s,
                    block_hash: h,
                    vote_signatures: sigs,
                }
                &&& v == view && s == sequence && h == block_hash@
                &&& sigs.len() == vote_signatures@.len()
                &&& 0 <= i < sigs.len() ==> sigs[i] == (
                    vote_signatures@[i].0,
                    vote_signatures@[i].1@,
                )
            },
            ConsensusMessage::ViewChange { new_view, sender, last_committed_seq } => msg@ == (
            MessageView::ViewChange { new_view, sender, last_committed_seq }),
            ConsensusMessage::NewView { view, leader, view_change_proofs } => {
                &&& msg@ matches MessageView::NewView {
                    view: v,
                    leader: l,
                    view_change_proofs: sigs,
                }
                &&& v == view && l == leader
                &&& sigs.len() == view_change_proofs@.len()
                &&& 0 <= i < sigs.len() ==> sigs[i] == (
                    view_change_proofs@[i].0,
                    view_change_proofs@[i].1@,
                )
            },
        },
{
}

/// Envelopes, requests and responses stand for their own fields.
pub proof fn law_envelopes_stand_for_their_fields(
    signed: SignedMessage,
    wire: WireMessage,
    request: ClientRequest,
    response: ClientResponse,
)
    ensures
        signed@.sender == signed.sender,
        signed@.payload == signed.payload@,
        signed@.signature == signed.signature@,
        wire@.version == wire.version,
        wire@.msg_type == wire.msg_type,
        wire@.payload == wire.payload@,
        request@.request_id == request.request_id,
        request@.operation == request.operation@,
        response@.request_id == response.request_id,
        response@.success == response.success,
        response.value is None <==> response@.value is None,
        response.value matches Some(value) ==> response@.value == Some(value@),
        response.error is None <==> response@.error is None,
        response.error matches Some(error) ==> response@.error == Some(error@),
{
}

} // verus!
