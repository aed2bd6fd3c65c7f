//! Blocks that are proposed and not yet committed, those that a node has voted
//! for, and the hashes of those that are committed.
use std::collections::HashMap;

use vstd::prelude::*;

use crate::octets::same_bytes;
use crate::types::{Block, BlockView, RequestId, SequenceNumber, ViewNumber};
use crate::votes::SlotKey;

verus! {

broadcast use vstd::std_specs::hash::group_hash_axioms;

/// A proposed block. Where this node proposed it, it comes with the request
/// that each of its operations answers.
#[derive(Debug)]
pub struct PendingBlock {
    pub block: Block,
    pub request_ids: Vec<RequestId>,
}

/// What a `PendingBlock` stands for.
#[verifier::ext_equal]
pub struct PendingView {
    pub block: BlockView,
    pub request_ids: Seq<RequestId>,
}

impl View for PendingBlock {
    type V = PendingView;

    open spec fn view(&self) -> PendingView {
        PendingView { block: self.block@, request_ids: self.request_ids@ }
    }
}

/// A pending block stands for its block and the requests that it answers.
pub proof fn law_pending_stands_for_its_fields(pending: PendingBlock)
    ensures
        pending@.block == pending.block@,
        pending@.request_ids == pending.request_ids@,
        slot_of(pending@.block) == (pending.block.view, pending.block.sequence),
{
}

/// The slot that a block is proposed for.
pub open spec fn slot_of(block: BlockView) -> SlotKey {
    (block.view, block.sequence)
}

/// Proposed blocks, at most one for each slot.
#[derive(Debug)]
pub struct PendingBlocks {
    blocks: Vec<PendingBlock>,
}

spec fn blocks_view(blocks: Seq<PendingBlock>) -> Seq<PendingView> {
    blocks.map_values(|pending: PendingBlock| pending@)
}

spec fn holds_slot(blocks: Seq<PendingView>, key: SlotKey) -> bool {
    exists|i: int| 0 <= i < blocks.len() && slot_of((#[trigger] blocks[i]).block) == key
}

spec fn block_at(blocks: Seq<PendingView>, key: SlotKey) -> PendingView {
    blocks[choose|i: int| 0 <= i < blocks.len() && slot_of((#[trigger] blocks[i]).block) == key]
}

spec fn one_per_slot(blocks: Seq<PendingView>) -> bool {
    forall|i: int, j: int|
        0 <= i < j < blocks.len() ==> slot_of((#[trigger] blocks[i]).block) != slot_of(
            (#[trigger] blocks[j]).block,
        )
}

spec fn by_slot(blocks: Seq<PendingView>) -> Map<SlotKey, PendingView> {
    Map::new(|key: SlotKey| holds_slot(blocks, key), |key: SlotKey| block_at(blocks, key))
}

proof fn lemma_by_slot(blocks: Seq<PendingView>, at: int)
    requires
        one_per_slot(blocks),
        0 <= at < blocks.len(),
    ensures
        by_slot(blocks).contains_key(slot_of(blocks[at].block)),
        by_slot(blocks)[slot_of(blocks[at].block)] == blocks[at],
{
    let key = slot_of(blocks[at].block);
    assert(holds_slot(blocks, key));
    let i = choose|i: int| 0 <= i < blocks.len() && slot_of((#[trigger] blocks[i]).block) == key;
    if i != at {
        assert(slot_of(blocks[i].block) == slot_of(blocks[at].block));
    }
}

impl View for PendingBlocks {
    type V = Map<SlotKey, PendingView>;

    closed spec fn view(&self) -> Map<SlotKey, PendingView> {
        by_slot(blocks_view(self.blocks@))
    }
}

impl PendingBlocks {
    #[verifier::type_invariant]
    spec fn inv(&self) -> bool {
        one_per_slot(blocks_view(self.blocks@))
    }

    /// No blocks.
    pub fn new() -> (pending: Self)
        ensures
            pending@ == Map::<SlotKey, PendingView>::empty(),
    {
        let pending = PendingBlocks { blocks: Vec::new() };
        assert(pending@ =~= Map::<SlotKey, PendingView>::empty());
        pending
    }

    fn position(&self, view: ViewNumber, sequence: SequenceNumber) -> (at: usize)
        ensures
            at <= self.blocks@.len(),
            at < self.blocks@.len() ==> slot_of(blocks_view(self.blocks@)[at as int].block) == (
                view,
                sequence,
            ),
            at == self.blocks@.len() ==> !holds_slot(blocks_view(self.blocks@), (view, sequence)),
    {
        let mut at: usize = 0;
        while at < self.blocks.len()
            invariant
                at <= self.blocks@.len(),
                forall|i: int|
                    0 <= i < at ==> slot_of((#[trigger] blocks_view(self.blocks@)[i]).block) != (
                        view,
                        sequence,
                    ),
            decreases self.blocks@.len() - at,
        {
            if self.blocks[at].block.view == view && self.blocks[at].block.sequence == sequence {
                return at;
            }
            at = at + 1;
        }
        at
    }

    /// Puts a block into its slot, in place of the one that is there.
    pub fn insert(&mut self, block: Block, request_ids: Vec<RequestId>)
        ensures
            final(self)@ == old(self)@.insert(
                slot_of(block@),
                PendingView { block: block@, request_ids: request_ids@ },
            ),
    {
        proof {
            use_type_invariant(&*self);
        }
        let ghost key = slot_of(block@);
        let ghost new = PendingView { block: block@, request_ids: request_ids@ };
        self.remove(block.view, block.sequence);
        proof {
            use_type_invariant(&*self);
        }
        let ghost left = blocks_view(self.blocks@);
        let ghost before = self@;
        assert(!holds_slot(left, key)) by {
            assert(!self@.contains_key(key));
        }
        let mut blocks: Vec<PendingBlock> = Vec::new();
        std::mem::swap(&mut blocks, &mut self.blocks);
        blocks.push(PendingBlock { block, request_ids });
        proof {
            let all = blocks_view(blocks@);
            assert(all =~= left.push(new));
            assert forall|i: int, j: int| 0 <= i < j < all.len() implies slot_of(
                (#[trigger] all[i]).block,
            ) != slot_of((#[trigger] all[j]).block) by {
                assert(all[i] == left[i]);
                if j < left.len() {
                    assert(all[j] == left[j]);
                } else {
                    assert(all[j] == new);
                    assert(slot_of(left[i].block) != key);
                }
            }
            lemma_by_slot(all, left.len() as int);
            assert forall|k: SlotKey| k != key implies (by_slot(all).contains_key(k)
                == #[trigger] before.contains_key(k)) && (before.contains_key(k) ==> by_slot(
                all,
            )[k] == before[k]) by {
                if before.contains_key(k) {
                    let i = choose|i: int|
                        0 <= i < left.len() && slot_of((#[trigger] left[i]).block) == k;
                    assert(all[i] == left[i]);
                    lemma_by_slot(all, i);
                    lemma_by_slot(left, i);
                }
                if by_slot(all).contains_key(k) {
                    let i = choose|i: int|
                        0 <= i < all.len() && slot_of((#[trigger] all[i]).block) == k;
                    assert(all[i] == left[i]);
                    assert(holds_slot(left, k));
                }
            }
            assert(by_slot(all) =~= before.insert(key, new));
            assert(before.insert(key, new) =~= old(self)@.insert(key, new));
        }
        self.blocks = blocks;
    }

    /// The block of a slot, if there is one.
    pub fn get(&self, view: ViewNumber, sequence: SequenceNumber) -> (block: Option<&PendingBlock>)
        ensures
            match block {
                Some(block) => self@.contains_key((view, sequence)) && block@ == self@[(
                    view,
                    sequence,
                )],
                None => !self@.contains_key((view, sequence)),
            },
    {
        proof {
            use_type_invariant(self);
        }
        let at: usize = self.position(view, sequence);
        if at == self.blocks.len() {
            None
        } else {
            proof {
                lemma_by_slot(blocks_view(self.blocks@), at as int);
            }
            Some(&self.blocks[at])
        }
    }

    /// Takes the block of a slot out, if there is one.
    pub fn remove(&mut self, view: ViewNumber, sequence: SequenceNumber) -> (block: Option<
        PendingBlock,
    >)
        ensures
            final(self)@ == old(self)@.remove((view, sequence)),
            match block {
                Some(block) => old(self)@.contains_key((view, sequence)) && block@ == old(self)@[(
                    view,
                    sequence,
                )],
                None => !old(self)@.contains_key((view, sequence)),
            },
    {
        proof {
            use_type_invariant(&*self);
        }
        let ghost key = (view, sequence);
        let ghost before = blocks_view(self.blocks@);
        let at: usize = self.position(view, sequence);
        if at == self.blocks.len() {
            assert(old(self)@.remove(key) =~= old(self)@);
            return None;
        }
        proof {
            lemma_by_slot(before, at as int);
        }
        let mut blocks: Vec<PendingBlock> = Vec::new();
        std::mem::swap(&mut blocks, &mut self.blocks);
        let block = blocks.remove(at);
        proof {
            let after = blocks_view(blocks@);
            assert(after =~= before.remove(at as int));
            assert(block@ == before[at as int]);
            assert forall|i: int| 0 <= i < after.len() implies #[trigger] after[i] == before[if i
                < at {
                i
            } else {
                i + 1
            }] by {}
            assert forall|i: int, j: int| 0 <= i < j < after.len() implies slot_of(
                (#[trigger] after[i]).block,
            ) != slot_of((#[trigger] after[j]).block) by {
                let a = if i < at {
                    i
                } else {
                    i + 1
                };
                let b = if j < at {
                    j
                } else {
                    j + 1
                };
                assert(after[i] == before[a] && after[j] == before[b]);
                assert(slot_of(before[a].block) != slot_of(before[b].block));
            }
            assert forall|k: SlotKey| (by_slot(after).contains_key(k) == (k != key
                && #[trigger] by_slot(before).contains_key(k))) && (by_slot(after).contains_key(
                k,
            ) ==> by_slot(after)[k] == by_slot(before)[k]) by {
                if by_slot(after).contains_key(k) {
                    let i = choose|i: int|
                        0 <= i < after.len() && slot_of((#[trigger] after[i]).block) == k;
                    let a = if i < at {
                        i
                    } else {
                        i + 1
                    };
                    assert(after[i] == before[a]);
                    lemma_by_slot(after, i);
                    lemma_by_slot(before, a);
                    assert(slot_of(before[a].block) != slot_of(before[at as int].block));
                }
                if k != key && by_slot(before).contains_key(k) {
                    let i = choose|i: int|
                        0 <= i < before.len() && slot_of((#[trigger] before[i]).block) == k;
                    let a = if i < at {
                        i
                    } else {
                        i - 1
                    };
                    assert(after[a] == before[i]);
                    assert(holds_slot(after, k));
                }
            }
            assert(by_slot(after) =~= old(self)@.remove(key));
        }
        self.blocks = blocks;
        Some(block)
    }
}

/// The hashes of the blocks that are committed.
#[derive(Debug)]
pub struct CommittedHashes {
    hashes: Vec<Vec<u8>>,
}

impl View for CommittedHashes {
    type V = Set<Seq<u8>>;

    closed spec fn view(&self) -> Set<Seq<u8>> {
        self.hashes@.map_values(|hash: Vec<u8>| hash@).to_set()
    }
}

impl CommittedHashes {
    /// No hashes.
    pub fn new() -> (hashes: Self)
        ensures
            hashes@ == Set::<Seq<u8>>::empty(),
    {
        let hashes = CommittedHashes { hashes: Vec::new() };
        assert(hashes@ =~= Set::<Seq<u8>>::empty());
        hashes
    }

    /// Whether a hash is there.
    pub fn contains(&self, hash: &[u8]) -> (yes: bool)
        ensures
            yes == self@.contains(hash@),
    {
        let ghost views = self.hashes@.map_values(|hash: Vec<u8>| hash@);
        let mut i: usize = 0;
        while i < self.hashes.len()
            invariant
                i <= self.hashes@.len() == views.len(),
                views == self.hashes@.map_values(|hash: Vec<u8>| hash@),
                forall|j: int| 0 <= j < i ==> #[trigger] views[j] != hash@,
            decreases self.hashes@.len() - i,
        {
            if same_bytes(&self.hashes[i], hash) {
                assert(views[i as int] == hash@);
                assert(views.contains(hash@));
                return true;
            }
            i = i + 1;
        }
        assert(!views.contains(hash@));
        false
    }

    /// Adds a hash.
    pub fn insert(&mut self, hash: Vec<u8>)
        ensures
            final(self)@ == old(self)@.insert(hash@),
    {
        let ghost before = self.hashes@.map_values(|hash: Vec<u8>| hash@);
        let ghost new = hash@;
        self.hashes.push(hash);
        proof {
            let after = self.hashes@.map_values(|hash: Vec<u8>| hash@);
            assert(after =~= before.push(new));
            assert forall|x: Seq<u8>| #[trigger]
                after.contains(x) == (before.contains(x) || x == new) by {
                if before.contains(x) {
                    let i = choose|i: int| 0 <= i < before.len() && before[i] == x;
                    assert(after[i] == x);
                }
                assert(after[before.len() as int] == new);
                if after.contains(x) && x != new {
                    let i = choose|i: int| 0 <= i < after.len() && after[i] == x;
                    assert(before[i] == x);
                }
            }
            assert(self@ =~= old(self)@.insert(new));
        }
    }
}

/// The block that a node voted for last, for each sequence.
#[derive(Debug)]
pub struct Ballots {
    blocks: HashMap<SequenceNumber, Block>,
}

impl View for Ballots {
    type V = Map<SequenceNumber, BlockView>;

    closed spec fn view(&self) -> Map<SequenceNumber, BlockView> {
        self.blocks@.map_values(|block: Block| block@)
    }
}

impl Ballots {
    /// No votes.
    pub fn new() -> (ballots: Self)
        ensures
            ballots@ == Map::<SequenceNumber, BlockView>::empty(),
    {
        let ballots = Ballots { blocks: HashMap::new() };
        assert(ballots@ =~= Map::<SequenceNumber, BlockView>::empty());
        ballots
    }

    /// Records a vote for a block, in place of the last one for its sequence.
    pub fn insert(&mut self, block: Block)
        ensures
            final(self)@ == old(self)@.insert(block@.sequence, block@),
    {
        let sequence: SequenceNumber = block.sequence;
        self.blocks.insert(sequence, block);
        assert(self@ =~= old(self)@.insert(block@.sequence, block@));
    }

    /// The block that the node voted for last at a sequence.
    pub fn get(&self, sequence: SequenceNumber) -> (block: Option<&Block>)
        ensures
            match block {
                Some(block) => self@.contains_key(sequence) && block@ == self@[sequence],
                None => !self@.contains_key(sequence),
            },
    {
        self.blocks.get(&sequence)
    }
}

} // verus!
