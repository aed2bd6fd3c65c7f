//! Vote collection: who has voted for a slot of the log, and when that is a
//! quorum.
use vstd::prelude::*;

use crate::octets::copy_bytes;
use crate::types;
use crate::types::{NodeId, SequenceNumber, ViewNumber};

verus! {

/// A slot of the log in a view.
pub type SlotKey = (ViewNumber, SequenceNumber);

/// Votes in the order in which they came, each with its signature.
pub type Votes = Seq<(NodeId, Seq<u8>)>;

/// What a vote collector stands for.
#[verifier::ext_equal]
pub struct VotesView {
    /// The votes for each slot that has any.
    pub slots: Map<SlotKey, Votes>,
    /// How many votes make a quorum.
    pub quorum: nat,
}

/// The votes for a slot.
pub open spec fn votes_at(state: VotesView, key: SlotKey) -> Votes {
    if state.slots.contains_key(key) {
        state.slots[key]
    } else {
        Seq::empty()
    }
}

/// Whether a node is among the voters.
pub open spec fn has_voted(votes: Votes, voter: NodeId) -> bool {
    exists|i: int| 0 <= i < votes.len() && (#[trigger] votes[i]).0 == voter
}

/// No node has two votes.
pub open spec fn one_vote_each(votes: Votes) -> bool {
    forall|i: int, j: int|
        0 <= i < j < votes.len() ==> (#[trigger] votes[i]).0 != (#[trigger] votes[j]).0
}

/// The nodes that have voted.
pub open spec fn voters(votes: Votes) -> Set<NodeId> {
    Set::new(|node: NodeId| has_voted(votes, node))
}

/// As many nodes have voted as there are votes, where no node has two.
pub proof fn lemma_voters(votes: Votes)
    requires
        one_vote_each(votes),
    ensures
        voters(votes).finite(),
        voters(votes).len() == votes.len(),
    decreases votes.len(),
{
    if votes.len() == 0 {
        assert(voters(votes) =~= Set::empty());
    } else {
        let front = votes.drop_last();
        let last = votes.last();
        assert forall|i: int, j: int| 0 <= i < j < front.len() implies (#[trigger] front[i]).0 != (
        #[trigger] front[j]).0 by {
            assert(votes[i].0 != votes[j].0);
        }
        lemma_voters(front);
        assert(!voters(front).contains(last.0)) by {
            if has_voted(front, last.0) {
                let i = choose|i: int| 0 <= i < front.len() && (#[trigger] front[i]).0 == last.0;
                assert(votes[i].0 != votes[votes.len() - 1].0);
            }
        }
        assert forall|node: NodeId| voters(votes).contains(node) == #[trigger] voters(
            front,
        ).insert(last.0).contains(node) by {
            if has_voted(votes, node) {
                let i = choose|i: int| 0 <= i < votes.len() && (#[trigger] votes[i]).0 == node;
                if i < front.len() {
                    assert(front[i].0 == node);
                }
            }
            if has_voted(front, node) {
                let i = choose|i: int| 0 <= i < front.len() && (#[trigger] front[i]).0 == node;
                assert(votes[i].0 == node);
            }
            assert(votes[votes.len() - 1].0 == last.0);
        }
        assert(voters(votes) =~= voters(front).insert(last.0));
    }
}

/// The collector after a vote, and whether the vote completes a quorum or adds
/// to one. A second vote of a node for a slot changes nothing and reports
/// nothing.
pub open spec fn vote_step(
    state: VotesView,
    key: SlotKey,
    voter: NodeId,
    signature: Seq<u8>,
) -> (VotesView, bool) {
    let votes = votes_at(state, key);
    if has_voted(votes, voter) {
        (state, false)
    } else {
        (
            VotesView { slots: state.slots.insert(key, votes.push((voter, signature))), ..state },
            votes.len() + 1 >= state.quorum,
        )
    }
}

/// The collector without the views below `min_view`.
pub open spec fn without_views_below(state: VotesView, min_view: ViewNumber) -> VotesView {
    VotesView {
        slots: Map::new(
            |key: SlotKey| state.slots.contains_key(key) && key.0 >= min_view,
            |key: SlotKey| state.slots[key],
        ),
        ..state
    }
}

/// Each node votes at most once for each slot.
pub open spec fn valid_votes(state: VotesView) -> bool {
    forall|key: SlotKey| #[trigger]
        state.slots.contains_key(key) ==> one_vote_each(state.slots[key])
}

/// What every vote keeps, and what a reported quorum means: at least as many
/// different nodes as the quorum asks for have voted for the slot.
pub proof fn law_quorum_of_distinct_voters(
    state: VotesView,
    key: SlotKey,
    voter: NodeId,
    signature: Seq<u8>,
)
    requires
        valid_votes(state),
    ensures
        valid_votes(vote_step(state, key, voter, signature).0),
        vote_step(state, key, voter, signature).1 ==> {
            let votes = votes_at(vote_step(state, key, voter, signature).0, key);
            votes.len() >= state.quorum && one_vote_each(votes)
        },
{
}

/// A node's first vote for a slot stands behind the votes that are there, with
/// its signature, and completes a quorum exactly where the votes are then as many
/// as the quorum asks for.
pub proof fn law_vote_is_added(state: VotesView, key: SlotKey, voter: NodeId, signature: Seq<u8>)
    requires
        forall|i: int| 0 <= i < votes_at(state, key).len() ==> (#[trigger] votes_at(state, key)[i]).0
            != voter,
    ensures
        ({
            let before = votes_at(state, key);
            let (after, reached) = vote_step(state, key, voter, signature);
            &&& votes_at(after, key).len() == before.len() + 1
            &&& votes_at(after, key).last() == (voter, signature)
            &&& forall|i: int|
                0 <= i < before.len() ==> #[trigger] votes_at(after, key)[i] == before[i]
            &&& reached <==> before.len() + 1 >= state.quorum
            &&& after.quorum == state.quorum
        }),
{
}

/// Where views are forgotten, the votes of every lower view are gone and those of
/// every other view are all there.
pub proof fn law_only_lower_views_forgotten(state: VotesView, min_view: ViewNumber, key: SlotKey)
    ensures
        without_views_below(state, min_view).quorum == state.quorum,
        key.0 < min_view ==> votes_at(without_views_below(state, min_view), key).len() == 0,
        key.0 >= min_view ==> votes_at(without_views_below(state, min_view), key) == votes_at(
            state,
            key,
        ),
{
}

/// A slot that nobody has voted for has no votes, and one that has some has those
/// that were collected.
pub proof fn law_votes_are_those_collected(state: VotesView, key: SlotKey)
    ensures
        state.slots.contains_key(key) ==> votes_at(state, key) == state.slots[key],
        !state.slots.contains_key(key) ==> votes_at(state, key).len() == 0,
{
}

/// A node that votes again for a slot is not counted again.
pub proof fn law_vote_counts_once(
    state: VotesView,
    key: SlotKey,
    voter: NodeId,
    first: Seq<u8>,
    second: Seq<u8>,
)
    ensures
        ({
            let after = vote_step(state, key, voter, first).0;
            vote_step(after, key, voter, second) == (after, false)
        }),
{
    let votes = votes_at(state, key);
    if !has_voted(votes, voter) {
        let more = votes.push((voter, first));
        assert(more[votes.len() as int].0 == voter);
    }
}

/// A vote for one slot leaves the votes for every other slot as they are.
pub proof fn law_slots_are_independent(
    state: VotesView,
    key: SlotKey,
    other: SlotKey,
    voter: NodeId,
    signature: Seq<u8>,
)
    requires
        other != key,
    ensures
        votes_at(vote_step(state, key, voter, signature).0, other) == votes_at(state, other),
{
}

/// The votes for one slot.
#[derive(Debug)]
struct SlotVotes {
    view: ViewNumber,
    sequence: SequenceNumber,
    votes: Vec<(NodeId, Vec<u8>)>,
}

spec fn slot_pairs(slots: Seq<SlotVotes>) -> Seq<(SlotKey, Votes)> {
    slots.map_values(
        |slot: SlotVotes| ((slot.view, slot.sequence), types::sigs_view(slot.votes@)),
    )
}

spec fn map_of(pairs: Seq<(SlotKey, Votes)>) -> Map<SlotKey, Votes>
    decreases pairs.len(),
{
    if pairs.len() == 0 {
        Map::empty()
    } else {
        map_of(pairs.drop_last()).insert(pairs.last().0, pairs.last().1)
    }
}

spec fn distinct_keys(pairs: Seq<(SlotKey, Votes)>) -> bool {
    forall|i: int, j: int|
        0 <= i < j < pairs.len() ==> (#[trigger] pairs[i]).0 != (#[trigger] pairs[j]).0
}

proof fn lemma_map_of(pairs: Seq<(SlotKey, Votes)>)
    requires
        distinct_keys(pairs),
    ensures
        forall|i: int|
            0 <= i < pairs.len() ==> map_of(pairs).contains_key((#[trigger] pairs[i]).0)
                && map_of(pairs)[pairs[i].0] == pairs[i].1,
        forall|key: SlotKey| #[trigger]
            map_of(pairs).contains_key(key) ==> exists|i: int|
                0 <= i < pairs.len() && (#[trigger] pairs[i]).0 == key,
    decreases pairs.len(),
{
    if pairs.len() > 0 {
        let front = pairs.drop_last();
        lemma_map_of(front);
        assert forall|i: int| 0 <= i < pairs.len() implies map_of(pairs).contains_key(
            (#[trigger] pairs[i]).0,
        ) && map_of(pairs)[pairs[i].0] == pairs[i].1 by {
            if i < front.len() {
                assert(front[i] == pairs[i]);
                assert(pairs[i].0 != pairs[pairs.len() - 1].0);
            }
        }
        assert forall|key: SlotKey| #[trigger] map_of(pairs).contains_key(key) implies exists|
            i: int,
        |
            0 <= i < pairs.len() && (#[trigger] pairs[i]).0 == key by {
            if key == pairs.last().0 {
                assert(pairs[pairs.len() - 1].0 == key);
            } else {
                assert(map_of(front).contains_key(key));
                let i = choose|i: int| 0 <= i < front.len() && (#[trigger] front[i]).0 == key;
                assert(pairs[i].0 == key);
            }
        }
    }
}

/// Collects votes for slots of the log and reports quorums.
#[derive(Debug)]
pub struct VoteCollector {
    slots: Vec<SlotVotes>,
    quorum_size: usize,
}

impl View for VoteCollector {
    type V = VotesView;

    closed spec fn view(&self) -> VotesView {
        VotesView { slots: map_of(slot_pairs(self.slots@)), quorum: self.quorum_size as nat }
    }
}

impl VoteCollector {
    #[verifier::type_invariant]
    spec fn inv(&self) -> bool {
        distinct_keys(slot_pairs(self.slots@)) && valid_votes(self@)
    }

    /// A collector without votes.
    pub fn new(quorum_size: usize) -> (collector: Self)
        ensures
            collector@ == (VotesView { slots: Map::empty(), quorum: quorum_size as nat }),
    {
        let slots: Vec<SlotVotes> = Vec::new();
        assert(slot_pairs(slots@) =~= Seq::empty());
        VoteCollector { slots, quorum_size }
    }

    /// How many votes make a quorum.
    pub fn quorum_size(&self) -> (quorum: usize)
        ensures
            quorum == self@.quorum,
    {
        self.quorum_size
    }

    /// Adds a vote. Returns whether the slot has a quorum with it.
    pub fn add_vote(
        &mut self,
        view: ViewNumber,
        sequence: SequenceNumber,
        voter: NodeId,
        signature: Vec<u8>,
    ) -> (reached: bool)
        ensures
            (final(self)@, reached) == vote_step(
                old(self)@,
                (view, sequence),
                voter,
                signature@,
            ),
            valid_votes(final(self)@),
    {
        proof {
            use_type_invariant(&*self);
            law_quorum_of_distinct_voters(self@, (view, sequence), voter, signature@);
        }
        let ghost key = (view, sequence);
        let ghost pairs = slot_pairs(self.slots@);
        let ghost before = self@;
        let ghost vote = (voter, signature@);
        proof {
            lemma_map_of(pairs);
        }
        let quorum_size: usize = self.quorum_size;
        let mut slots: Vec<SlotVotes> = Vec::new();
        std::mem::swap(&mut slots, &mut self.slots);
        let at: usize = position(&slots, view, sequence);
        if at == slots.len() {
            let mut votes: Vec<(NodeId, Vec<u8>)> = Vec::new();
            votes.push((voter, signature));
            slots.push(SlotVotes { view, sequence, votes });
            proof {
                assert forall|i: int| 0 <= i < pairs.len() implies (#[trigger] pairs[i]).0
                    != key by {}
                assert(!before.slots.contains_key(key));
                assert(types::sigs_view(votes@) =~= Seq::empty().push(vote));
                let after = slot_pairs(slots@);
                assert(after =~= pairs.push((key, Seq::empty().push(vote))));
                assert(after.drop_last() =~= pairs);
            }
            self.slots = slots;
            return 1 >= quorum_size;
        }
        assert(pairs[at as int].0 == key);
        let ghost votes = votes_at(before, key);
        assert(votes == types::sigs_view(slots@[at as int].votes@));
        if voted(&slots[at].votes, voter) {
            self.slots = slots;
            return false;
        }
        let mut entry = slots.remove(at);
        let ghost old_votes = entry.votes@;
        entry.votes.push((voter, signature));
        let count: usize = entry.votes.len();
        proof {
            assert(types::sigs_view(entry.votes@) =~= votes.push(vote));
        }
        slots.insert(at, entry);
        proof {
            let after = slot_pairs(slots@);
            assert(after =~= pairs.update(at as int, (key, votes.push(vote))));
            assert forall|i: int, j: int| 0 <= i < j < after.len() implies (#[trigger] after[i]).0
                != (#[trigger] after[j]).0 by {
                assert(pairs[i].0 != pairs[j].0);
            }
            lemma_map_of(after);
            let expected = before.slots.insert(key, votes.push(vote));
            assert forall|k: SlotKey| map_of(after).contains_key(k) == #[trigger]
                expected.contains_key(k) && (expected.contains_key(k) ==> map_of(after)[k]
                == expected[k]) by {
                if map_of(after).contains_key(k) {
                    let i = choose|i: int| 0 <= i < after.len() && (#[trigger] after[i]).0 == k;
                    assert(pairs[i].0 == k);
                    assert(after[i].0 == k);
                }
                if before.slots.contains_key(k) {
                    let i = choose|i: int| 0 <= i < pairs.len() && (#[trigger] pairs[i]).0 == k;
                    assert(after[i].0 == k);
                }
                if k == key {
                    assert(after[at as int].0 == k);
                }
            }
            assert(map_of(after) =~= expected);
        }
        self.slots = slots;
        count >= quorum_size
    }

    /// The votes collected for a slot, with their signatures.
    pub fn get_signatures(&self, view: ViewNumber, sequence: SequenceNumber) -> (votes: Vec<
        (NodeId, Vec<u8>),
    >)
        ensures
            types::sigs_view(votes@) == votes_at(self@, (view, sequence)),
            one_vote_each(types::sigs_view(votes@)),
    {
        proof {
            use_type_invariant(self);
            lemma_map_of(slot_pairs(self.slots@));
        }
        let at: usize = position(&self.slots, view, sequence);
        if at == self.slots.len() {
            let votes: Vec<(NodeId, Vec<u8>)> = Vec::new();
            assert(types::sigs_view(votes@) =~= Seq::empty());
            return votes;
        }
        assert(slot_pairs(self.slots@)[at as int].0 == (view, sequence));
        copy_sigs(&self.slots[at].votes)
    }

    /// Forgets the views below `min_view`.
    pub fn gc_before_view(&mut self, min_view: ViewNumber)
        ensures
            final(self)@ == without_views_below(old(self)@, min_view),
            valid_votes(final(self)@),
    {
        proof {
            use_type_invariant(&*self);
        }
        let ghost before = self@;
        let ghost pairs = slot_pairs(self.slots@);
        let mut slots: Vec<SlotVotes> = Vec::new();
        std::mem::swap(&mut slots, &mut self.slots);
        let ghost views = pairs;
        let mut kept: Vec<SlotVotes> = Vec::new();
        assert(slot_pairs(kept@) =~= recent(views.take(0), min_view));
        assert(slot_pairs(slots@) =~= views.skip(0));
        let ghost mut done: int = 0;
        while slots.len() > 0
            invariant
                0 <= done <= views.len(),
                slot_pairs(slots@) == views.skip(done),
                slot_pairs(kept@) == recent(views.take(done), min_view),
            decreases slots@.len(),
        {
            let ghost left = slots@;
            let slot = slots.remove(0);
            proof {
                assert(slot_pairs(left).len() == left.len());
                assert(views.skip(done)[0] == views[done]);
                assert(slot_pairs(left)[0] == views[done]);
                assert(slot_pairs(slots@) =~= views.skip(done + 1)) by {
                    assert forall|i: int| 0 <= i < slots@.len() implies #[trigger] slot_pairs(
                        slots@,
                    )[i] == views.skip(done + 1)[i] by {
                        assert(slots@[i] == left[i + 1]);
                        assert(slot_pairs(left)[i + 1] == views.skip(done)[i + 1]);
                    }
                }
                assert(views.take(done + 1).drop_last() =~= views.take(done));
            }
            let ghost kept_before = slot_pairs(kept@);
            if slot.view >= min_view {
                kept.push(slot);
                assert(slot_pairs(kept@) =~= kept_before.push(views[done]));
            }
            proof {
                done = done + 1;
            }
        }
        proof {
            assert(slot_pairs(slots@).len() == 0);
            assert(views.take(done) =~= views);
            lemma_recent(views, min_view);
            assert(map_of(recent(views, min_view)) =~= without_views_below(before, min_view).slots);
        }
        self.slots = kept;
    }
}

spec fn recent(pairs: Seq<(SlotKey, Votes)>, min_view: ViewNumber) -> Seq<(SlotKey, Votes)>
    decreases pairs.len(),
{
    if pairs.len() == 0 {
        Seq::empty()
    } else if pairs.last().0.0 >= min_view {
        recent(pairs.drop_last(), min_view).push(pairs.last())
    } else {
        recent(pairs.drop_last(), min_view)
    }
}

proof fn lemma_recent(pairs: Seq<(SlotKey, Votes)>, min_view: ViewNumber)
    requires
        distinct_keys(pairs),
    ensures
        distinct_keys(recent(pairs, min_view)),
        forall|i: int|
            0 <= i < recent(pairs, min_view).len() ==> exists|j: int|
                0 <= j < pairs.len() && pairs[j] == #[trigger] recent(pairs, min_view)[i],
        forall|key: SlotKey| #[trigger]
            map_of(recent(pairs, min_view)).contains_key(key) == (map_of(pairs).contains_key(key)
                && key.0 >= min_view),
        forall|key: SlotKey| #[trigger]
            map_of(recent(pairs, min_view)).contains_key(key) ==> map_of(
                recent(pairs, min_view),
            )[key] == map_of(pairs)[key],
    decreases pairs.len(),
{
    if pairs.len() > 0 {
        let front = pairs.drop_last();
        let last = pairs.last();
        let kept = recent(front, min_view);
        let all = recent(pairs, min_view);
        lemma_recent(front, min_view);
        assert forall|i: int| 0 <= i < kept.len() implies (#[trigger] kept[i]).0 != last.0
            && exists|j: int| 0 <= j < pairs.len() && pairs[j] == kept[i] by {
            let j = choose|j: int| 0 <= j < front.len() && front[j] == kept[i];
            assert(pairs[j] == kept[i]);
            assert(pairs[j].0 != pairs[pairs.len() - 1].0);
        }
        assert forall|i: int| 0 <= i < all.len() implies exists|j: int|
            0 <= j < pairs.len() && pairs[j] == #[trigger] all[i] by {
            if i < kept.len() {
                assert(all[i] == kept[i]);
            } else {
                assert(pairs[pairs.len() - 1] == all[i]);
            }
        }
        if last.0.0 >= min_view {
            assert(all.drop_last() =~= kept);
        } else {
            lemma_map_of(front);
            assert(!map_of(front).contains_key(last.0)) by {
                if map_of(front).contains_key(last.0) {
                    let i = choose|i: int| 0 <= i < front.len() && (#[trigger] front[i]).0
                        == last.0;
                    assert(pairs[i].0 != pairs[pairs.len() - 1].0);
                }
            }
        }
        assert forall|key: SlotKey| #[trigger]
            map_of(all).contains_key(key) == (map_of(pairs).contains_key(key) && key.0 >= min_view)
                && (map_of(all).contains_key(key) ==> map_of(all)[key] == map_of(pairs)[key]) by {
            assert(map_of(kept).contains_key(key) == (map_of(front).contains_key(key) && key.0
                >= min_view));
        }
    }
}

fn position(slots: &Vec<SlotVotes>, view: ViewNumber, sequence: SequenceNumber) -> (at: usize)
    ensures
        at <= slots@.len(),
        at < slots@.len() ==> slots@[at as int].view == view && slots@[at as int].sequence
            == sequence,
        at == slots@.len() ==> forall|i: int|
            0 <= i < slots@.len() ==> ((#[trigger] slots@[i]).view, slots@[i].sequence) != (
                view,
                sequence,
            ),
{
    let mut at: usize = 0;
    while at < slots.len()
        invariant
            at <= slots@.len(),
            forall|i: int|
                0 <= i < at ==> ((#[trigger] slots@[i]).view, slots@[i].sequence) != (
                    view,
                    sequence,
                ),
        decreases slots@.len() - at,
    {
        if slots[at].view == view && slots[at].sequence == sequence {
            return at;
        }
        at = at + 1;
    }
    at
}

fn voted(votes: &Vec<(NodeId, Vec<u8>)>, voter: NodeId) -> (yes: bool)
    ensures
        yes == has_voted(types::sigs_view(votes@), voter),
{
    let mut i: usize = 0;
    while i < votes.len()
        invariant
            i <= votes@.len(),
            forall|j: int| 0 <= j < i ==> (#[trigger] types::sigs_view(votes@)[j]).0 != voter,
        decreases votes@.len() - i,
    {
        if votes[i].0 == voter {
            assert(types::sigs_view(votes@)[i as int].0 == voter);
            return true;
        }
        i = i + 1;
    }
    false
}

/// A copy of signatures with their nodes.
pub fn copy_sigs(sigs: &Vec<(NodeId, Vec<u8>)>) -> (copies: Vec<(NodeId, Vec<u8>)>)
    ensures
        types::sigs_view(copies@) == types::sigs_view(sigs@),
{
    let mut copies: Vec<(NodeId, Vec<u8>)> = Vec::new();
    let mut i: usize = 0;
    while i < sigs.len()
        invariant
            i <= sigs@.len(),
            copies@.len() == i,
            forall|j: int|
                0 <= j < i ==> (#[trigger] copies@[j]).0 == sigs@[j].0 && copies@[j].1@
                    == sigs@[j].1@,
        decreases sigs@.len() - i,
    {
        copies.push((sigs[i].0, copy_bytes(&sigs[i].1)));
        i = i + 1;
    }
    assert(types::sigs_view(copies@) =~= types::sigs_view(sigs@));
    copies
}

} // verus!
