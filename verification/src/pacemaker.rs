//! View management: the phase of the protocol, the deadline of the current
//! view, and the votes for leaving it. Time is a number of milliseconds since
//! a moment that the caller fixes; every method that depends on it takes the
//! current time.
use vstd::arithmetic::power2;
use vstd::prelude::*;

use crate::types::{NodeId, ViewNumber};

verus! {

/// The phase of the protocol that a node is in.
#[derive(Debug, PartialEq, Eq, Structural, Clone, Copy)]
pub enum PaceMakerState {
    /// Waiting to receive a proposal.
    WaitingForProposal,
    /// Waiting to collect a quorum of votes.
    WaitingForVotes,
    /// Block committed, ready for the next sequence.
    Committed,
    /// View change in progress, collecting view-change messages.
    ViewChanging,
}

/// The highest power of two by which the timeout grows.
pub const MAX_BACKOFF: u64 = 10;

/// What a pacemaker stands for.
#[verifier::ext_equal]
pub struct PaceView {
    pub state: PaceMakerState,
    pub view: ViewNumber,
    /// Who has asked for which view.
    pub votes: Set<(ViewNumber, NodeId)>,
    /// How many nodes have to ask for a view.
    pub quorum: nat,
    /// The timeout of view 0.
    pub base: u64,
    /// When something last happened.
    pub last_activity: u64,
    /// When the current view times out.
    pub deadline: nat,
}

/// The timeout of a view: it doubles with each view, up to a limit.
pub open spec fn timeout_of(base: u64, view: ViewNumber) -> nat {
    base as nat * power2::pow2(
        if view < MAX_BACKOFF {
            view as nat
        } else {
            MAX_BACKOFF as nat
        },
    )
}

/// The nodes that have asked for a view.
pub open spec fn supporters(votes: Set<(ViewNumber, NodeId)>, view: ViewNumber) -> Set<NodeId> {
    Set::new(|node: NodeId| votes.contains((view, node)))
}

/// A new pacemaker.
pub open spec fn pace_start(quorum: nat, base: u64, now: u64) -> PaceView {
    PaceView {
        state: PaceMakerState::WaitingForProposal,
        view: 0,
        votes: Set::empty(),
        quorum,
        base,
        last_activity: now,
        deadline: now as nat + timeout_of(base, 0),
    }
}

/// The pacemaker after activity.
pub open spec fn pace_activity(pace: PaceView, now: u64) -> PaceView {
    PaceView {
        last_activity: now,
        deadline: now as nat + timeout_of(pace.base, pace.view),
        ..pace
    }
}

/// The pacemaker after a change of phase.
pub open spec fn pace_transition(pace: PaceView, state: PaceMakerState, now: u64) -> PaceView {
    pace_activity(PaceView { state, ..pace }, now)
}

/// The pacemaker after a node has asked for a view, and whether a quorum has
/// asked for it. Views that are not above the current one are not asked for.
pub open spec fn pace_vote(pace: PaceView, new_view: ViewNumber, sender: NodeId) -> (
    PaceView,
    bool,
) {
    if new_view <= pace.view {
        (pace, false)
    } else {
        let votes = pace.votes.insert((new_view, sender));
        (PaceView { votes, ..pace }, supporters(votes, new_view).len() >= pace.quorum)
    }
}

/// The pacemaker after a change of view.
pub open spec fn pace_advance(pace: PaceView, new_view: ViewNumber, now: u64) -> PaceView {
    pace_activity(
        PaceView {
            state: PaceMakerState::WaitingForProposal,
            view: new_view,
            votes: pace.votes.filter(|vote: (ViewNumber, NodeId)| vote.0 > new_view),
            ..pace
        },
        now,
    )
}

/// Whether the time of the current view is over.
pub open spec fn is_over(pace: PaceView, now: u64) -> bool {
    now >= pace.deadline
}

proof fn lemma_first_timeout(base: u64)
    ensures
        timeout_of(base, 0) == base,
{
    power2::lemma2_to64();
    assert(power2::pow2(0) == 1);
    assert(base as nat * 1 == base) by (nonlinear_arith);
}

/// The timeout doubles from view to view until the limit, and stays there.
pub proof fn law_backoff_doubles(base: u64, view: ViewNumber)
    requires
        view < u64::MAX,
    ensures
        timeout_of(base, 0) == base,
        view < MAX_BACKOFF ==> timeout_of(base, (view + 1) as ViewNumber) == 2 * timeout_of(
            base,
            view,
        ),
        view >= MAX_BACKOFF ==> timeout_of(base, (view + 1) as ViewNumber) == timeout_of(
            base,
            view,
        ),
{
    power2::lemma2_to64();
    lemma_first_timeout(base);
    if view < MAX_BACKOFF {
        power2::lemma_pow2_unfold(view as nat + 1);
        let p = power2::pow2(view as nat) as int;
        assert(base * (2 * p) == 2 * (base * p)) by (nonlinear_arith);
    }
}

/// Whatever happens, the current view then has its whole timeout before it: the
/// base, doubled once for each view up to the tenth. A change of phase keeps the
/// view, a change of view waits for a proposal, and neither touches the base or
/// the quorum.
pub proof fn law_deadline_is_a_timeout_away(
    pace: PaceView,
    state: PaceMakerState,
    new_view: ViewNumber,
    now: u64,
)
    ensures
        ({
            let started = pace_start(pace.quorum, pace.base, now);
            let after = pace_activity(pace, now);
            let changed = pace_transition(pace, state, now);
            let moved = pace_advance(pace, new_view, now);
            let of_view = |view: ViewNumber|
                pace.base * power2::pow2(
                    if view <= 10 {
                        view as nat
                    } else {
                        10
                    },
                );
            &&& started.deadline - now == pace.base
            &&& after.deadline - now == of_view(pace.view)
            &&& changed.deadline - now == of_view(pace.view)
            &&& moved.deadline - now == of_view(new_view)
            &&& started.last_activity == now
            &&& after.last_activity == now
            &&& changed.last_activity == now
            &&& moved.last_activity == now
            &&& started.view == 0
            &&& after.view == pace.view
            &&& changed.view == pace.view
            &&& moved.view == new_view
            &&& started.state == PaceMakerState::WaitingForProposal
            &&& after.state == pace.state
            &&& changed.state == state
            &&& moved.state == PaceMakerState::WaitingForProposal
            &&& started.votes == Set::<(ViewNumber, NodeId)>::empty()
            &&& after.votes == pace.votes
            &&& changed.votes == pace.votes
            &&& started.quorum == pace.quorum == after.quorum == changed.quorum == moved.quorum
            &&& started.base == pace.base == after.base == changed.base == moved.base
        }),
{
    lemma_first_timeout(pace.base);
    power2::lemma2_to64();
    assert forall|view: ViewNumber| #[trigger]
        timeout_of(pace.base, view) == pace.base * power2::pow2(
            if view <= 10 {
                view as nat
            } else {
                10
            },
        ) by {}
}

/// A view is over once its whole timeout has passed since something happened in
/// it, and not before: the base, doubled once for each view up to the tenth.
pub proof fn law_view_is_over_after_its_timeout(
    pace: PaceView,
    state: PaceMakerState,
    new_view: ViewNumber,
    since: u64,
    now: u64,
)
    ensures
        ({
            let of_view = |view: ViewNumber|
                pace.base * power2::pow2(
                    if view <= 10 {
                        view as nat
                    } else {
                        10
                    },
                );
            &&& is_over(pace_start(pace.quorum, pace.base, since), now) <==> now - since
                >= pace.base
            &&& is_over(pace_activity(pace, since), now) <==> now - since >= of_view(pace.view)
            &&& is_over(pace_transition(pace, state, since), now) <==> now - since >= of_view(
                pace.view,
            )
            &&& is_over(pace_advance(pace, new_view, since), now) <==> now - since >= of_view(
                new_view,
            )
        }),
{
    law_deadline_is_a_timeout_away(pace, state, new_view, since);
}

/// A node's request for a higher view is added to what was asked for, and the
/// view is reached exactly where a quorum of different nodes has asked for it.
/// Phase, view and deadline stay as they were.
pub proof fn law_view_change_reached_by_quorum(
    pace: PaceView,
    new_view: ViewNumber,
    sender: NodeId,
    view: ViewNumber,
    node: NodeId,
)
    requires
        new_view > pace.view,
    ensures
        ({
            let (after, reached) = pace_vote(pace, new_view, sender);
            let asking = Set::new(|n: NodeId| n == sender || pace.votes.contains((new_view, n)));
            &&& after.votes.contains((view, node)) <==> pace.votes.contains((view, node)) || (view,
                node) == (new_view, sender)
            &&& reached <==> asking.len() >= pace.quorum
            &&& after.state == pace.state
            &&& after.view == pace.view
            &&& after.quorum == pace.quorum
            &&& after.base == pace.base
            &&& after.last_activity == pace.last_activity
            &&& after.deadline == pace.deadline
        }),
{
    let (after, reached) = pace_vote(pace, new_view, sender);
    assert(supporters(after.votes, new_view) =~= Set::new(
        |n: NodeId| n == sender || pace.votes.contains((new_view, n)),
    ));
}

/// A request for a view that is not above the current one is refused.
pub proof fn law_stale_view_change_refused(pace: PaceView, new_view: ViewNumber, sender: NodeId)
    requires
        new_view <= pace.view,
    ensures
        pace_vote(pace, new_view, sender) == (pace, false),
{
}

/// A node that asks for a view twice is counted once.
pub proof fn law_view_change_counts_once(pace: PaceView, new_view: ViewNumber, sender: NodeId)
    ensures
        ({
            let (once, reached) = pace_vote(pace, new_view, sender);
            pace_vote(once, new_view, sender) == (once, reached)
        }),
{
    if new_view > pace.view {
        let once = pace_vote(pace, new_view, sender).0;
        assert(once.votes.insert((new_view, sender)) =~= once.votes);
    }
}

/// After a change of view nobody has asked for the new view or an older one.
pub proof fn law_advance_forgets_old_votes(
    pace: PaceView,
    new_view: ViewNumber,
    now: u64,
    view: ViewNumber,
)
    ensures
        view <= new_view ==> supporters(pace_advance(pace, new_view, now).votes, view)
            == Set::<NodeId>::empty(),
        view > new_view ==> supporters(pace_advance(pace, new_view, now).votes, view)
            == supporters(pace.votes, view),
{
    let votes = pace_advance(pace, new_view, now).votes;
    if view <= new_view {
        assert(supporters(votes, view) =~= Set::<NodeId>::empty());
    } else {
        assert(supporters(votes, view) =~= supporters(pace.votes, view));
    }
}

/// How many entries of a list of votes are for a view.
spec fn tally(votes: Seq<(ViewNumber, NodeId)>, view: ViewNumber) -> nat
    decreases votes.len(),
{
    if votes.len() == 0 {
        0
    } else if votes.last().0 == view {
        tally(votes.drop_last(), view) + 1
    } else {
        tally(votes.drop_last(), view)
    }
}

proof fn lemma_tally(votes: Seq<(ViewNumber, NodeId)>, view: ViewNumber)
    requires
        votes.no_duplicates(),
    ensures
        supporters(votes.to_set(), view).finite(),
        supporters(votes.to_set(), view).len() == tally(votes, view),
    decreases votes.len(),
{
    if votes.len() == 0 {
        assert(supporters(votes.to_set(), view) =~= Set::empty());
    } else {
        let front = votes.drop_last();
        let last = votes.last();
        lemma_tally(front, view);
        assert(votes =~= front.push(last));
        assert(!front.contains(last)) by {
            if front.contains(last) {
                let i = choose|i: int| 0 <= i < front.len() && front[i] == last;
                assert(votes[i] == votes[votes.len() - 1]);
            }
        }
        let some = supporters(front.to_set(), view);
        let all = supporters(votes.to_set(), view);
        assert forall|x: (ViewNumber, NodeId)| #[trigger]
            votes.contains(x) == (front.contains(x) || x == last) by {
            if votes.contains(x) {
                let i = choose|i: int| 0 <= i < votes.len() && votes[i] == x;
                if i < front.len() {
                    assert(front[i] == x);
                }
            }
            if front.contains(x) {
                let i = choose|i: int| 0 <= i < front.len() && front[i] == x;
                assert(votes[i] == x);
            }
            if x == last {
                assert(votes[votes.len() - 1] == x);
            }
        }
        if last.0 == view {
            assert(all =~= some.insert(last.1));
            assert(!some.contains(last.1));
        } else {
            assert(all =~= some);
        }
    }
}

/// Tracks the phase of the protocol, the deadline of the view and the votes
/// for leaving it.
#[derive(Debug)]
pub struct PaceMaker {
    state: PaceMakerState,
    current_view: ViewNumber,
    view_change_votes: Vec<(ViewNumber, NodeId)>,
    quorum_size: usize,
    base_timeout_ms: u64,
    last_activity: u64,
    deadline: u128,
}

impl View for PaceMaker {
    type V = PaceView;

    closed spec fn view(&self) -> PaceView {
        PaceView {
            state: self.state,
            view: self.current_view,
            votes: self.view_change_votes@.to_set(),
            quorum: self.quorum_size as nat,
            base: self.base_timeout_ms,
            last_activity: self.last_activity,
            deadline: self.deadline as nat,
        }
    }
}

fn contains(votes: &Vec<(ViewNumber, NodeId)>, view: ViewNumber, node: NodeId) -> (yes: bool)
    ensures
        yes == votes@.contains((view, node)),
{
    let mut i: usize = 0;
    while i < votes.len()
        invariant
            i <= votes@.len(),
            forall|j: int| 0 <= j < i ==> #[trigger] votes@[j] != (view, node),
        decreases votes@.len() - i,
    {
        if votes[i].0 == view && votes[i].1 == node {
            assert(votes@[i as int] == (view, node));
            return true;
        }
        i = i + 1;
    }
    false
}

fn count(votes: &Vec<(ViewNumber, NodeId)>, view: ViewNumber) -> (n: usize)
    ensures
        n == tally(votes@, view),
{
    let mut n: usize = 0;
    let mut i: usize = 0;
    while i < votes.len()
        invariant
            n <= i <= votes@.len(),
            n == tally(votes@.take(i as int), view),
        decreases votes@.len() - i,
    {
        assert(votes@.take(i + 1).drop_last() =~= votes@.take(i as int));
        if votes[i].0 == view {
            n = n + 1;
        }
        i = i + 1;
    }
    assert(votes@.take(i as int) =~= votes@);
    n
}

impl PaceMaker {
    #[verifier::type_invariant]
    spec fn inv(&self) -> bool {
        self.view_change_votes@.no_duplicates()
    }

    /// A pacemaker in view 0.
    pub fn new(quorum_size: usize, base_timeout_ms: u64, now: u64) -> (pace: Self)
        ensures
            pace@ == pace_start(quorum_size as nat, base_timeout_ms, now),
    {
        let view_change_votes: Vec<(ViewNumber, NodeId)> = Vec::new();
        proof {
            lemma_first_timeout(base_timeout_ms);
            assert(view_change_votes@.to_set() =~= Set::empty());
        }
        PaceMaker {
            state: PaceMakerState::WaitingForProposal,
            current_view: 0,
            view_change_votes,
            quorum_size,
            base_timeout_ms,
            last_activity: now,
            deadline: now as u128 + base_timeout_ms as u128,
        }
    }

    /// The phase of the protocol.
    pub fn state(&self) -> (state: PaceMakerState)
        ensures
            state == self@.state,
    {
        self.state
    }

    /// The current view.
    pub fn current_view(&self) -> (view: ViewNumber)
        ensures
            view == self@.view,
    {
        self.current_view
    }

    /// When the current view times out.
    pub fn deadline(&self) -> (deadline: u128)
        ensures
            deadline == self@.deadline,
    {
        self.deadline
    }

    /// Changes the phase.
    pub fn transition(&mut self, new_state: PaceMakerState, now: u64)
        ensures
            final(self)@ == pace_transition(old(self)@, new_state, now),
    {
        proof {
            use_type_invariant(&*self);
        }
        self.state = new_state;
        self.record_activity(now);
    }

    /// Records activity and sets the deadline anew.
    pub fn record_activity(&mut self, now: u64)
        ensures
            final(self)@ == pace_activity(old(self)@, now),
    {
        proof {
            use_type_invariant(&*self);
        }
        let timeout: u128 = self.current_timeout();
        proof {
            lemma_timeout_bound(self@.base, self@.view);
        }
        self.last_activity = now;
        self.deadline = now as u128 + timeout;
    }

    /// The timeout of the current view in milliseconds.
    pub fn current_timeout(&self) -> (timeout: u128)
        ensures
            timeout == timeout_of(self@.base, self@.view),
    {
        let times: u64 = if self.current_view < MAX_BACKOFF {
            self.current_view
        } else {
            MAX_BACKOFF
        };
        let mut multiplier: u128 = 1;
        let mut i: u64 = 0;
        proof {
            power2::lemma2_to64();
        }
        while i < times
            invariant
                i <= times <= MAX_BACKOFF,
                multiplier == power2::pow2(i as nat),
                multiplier <= 1024,
            decreases times - i,
        {
            proof {
                power2::lemma_pow2_unfold(i as nat + 1);
                power2::lemma2_to64();
            }
            multiplier = 2 * multiplier;
            i = i + 1;
        }
        let base: u128 = self.base_timeout_ms as u128;
        assert(base * multiplier <= 0xffff_ffff_ffff_ffff * 1024) by (nonlinear_arith)
            requires
                base <= 0xffff_ffff_ffff_ffff,
                multiplier <= 1024,
        ;
        base * multiplier
    }

    /// Whether the deadline has passed.
    pub fn is_timed_out(&self, now: u64) -> (timed_out: bool)
        ensures
            timed_out == (now >= self@.deadline),
            timed_out == is_over(self@, now),
    {
        now as u128 >= self.deadline
    }

    /// Records that a node asks for a view. Returns whether a quorum does.
    pub fn add_view_change(&mut self, new_view: ViewNumber, sender: NodeId) -> (reached: bool)
        ensures
            (final(self)@, reached) == pace_vote(old(self)@, new_view, sender),
    {
        proof {
            use_type_invariant(&*self);
        }
        if new_view <= self.current_view {
            return false;
        }
        let mut votes: Vec<(ViewNumber, NodeId)> = Vec::new();
        std::mem::swap(&mut votes, &mut self.view_change_votes);
        let ghost before = votes@;
        if !contains(&votes, new_view, sender) {
            votes.push((new_view, sender));
            proof {
                let vote = (new_view, sender);
                assert(votes@ =~= before.push(vote));
                assert forall|x: (ViewNumber, NodeId)| #[trigger]
                    votes@.contains(x) == (before.contains(x) || x == vote) by {
                    if before.contains(x) {
                        let i = choose|i: int| 0 <= i < before.len() && before[i] == x;
                        assert(votes@[i] == x);
                    }
                    assert(votes@[before.len() as int] == vote);
                }
                assert(votes@.to_set() =~= before.to_set().insert(vote));
            }
        } else {
            assert(before.to_set() =~= before.to_set().insert((new_view, sender)));
        }
        let n: usize = count(&votes, new_view);
        proof {
            lemma_tally(votes@, new_view);
        }
        self.view_change_votes = votes;
        n >= self.quorum_size
    }

    /// Changes to a new view.
    pub fn advance_view(&mut self, new_view: ViewNumber, now: u64)
        ensures
            final(self)@ == pace_advance(old(self)@, new_view, now),
    {
        proof {
            use_type_invariant(&*self);
        }
        let ghost before = self.view_change_votes@;
        let mut kept: Vec<(ViewNumber, NodeId)> = Vec::new();
        let mut i: usize = 0;
        while i < self.view_change_votes.len()
            invariant
                i <= before.len(),
                self == old(self),
                before == self.view_change_votes@,
                before.no_duplicates(),
                kept@.no_duplicates(),
                forall|x: (ViewNumber, NodeId)| #[trigger]
                    kept@.contains(x) == (before.take(i as int).contains(x) && x.0 > new_view),
            decreases before.len() - i,
        {
            let vote: (ViewNumber, NodeId) = self.view_change_votes[i];
            let ghost kept_before = kept@;
            proof {
                lemma_take_contains(before, i as int);
                if before.take(i as int).contains(vote) {
                    let j = choose|j: int|
                        0 <= j < i && before.take(i as int)[j] == vote;
                    assert(before[j] == before[i as int]);
                }
            }
            if vote.0 > new_view {
                kept.push(vote);
                proof {
                    assert(!kept_before.contains(vote));
                    assert(kept@ =~= kept_before.push(vote));
                    lemma_push_contains(kept_before, vote);
                    assert forall|a: int, b: int|
                        0 <= a < kept@.len() && 0 <= b < kept@.len() && a != b implies kept@[a]
                        != kept@[b] by {
                        if a == kept_before.len() {
                            assert(kept_before[b] == kept@[b]);
                        } else if b == kept_before.len() {
                            assert(kept_before[a] == kept@[a]);
                        }
                    }
                }
            }
            i = i + 1;
        }
        proof {
            assert(before.take(i as int) =~= before);
            assert(kept@.to_set() =~= before.to_set().filter(
                |vote: (ViewNumber, NodeId)| vote.0 > new_view,
            ));
        }
        self.current_view = new_view;
        self.view_change_votes = kept;
        self.state = PaceMakerState::WaitingForProposal;
        self.record_activity(now);
    }
}

proof fn lemma_push_contains(s: Seq<(ViewNumber, NodeId)>, x: (ViewNumber, NodeId))
    ensures
        forall|y: (ViewNumber, NodeId)| #[trigger] s.push(x).contains(y) == (s.contains(y) || y == x),
{
    assert forall|y: (ViewNumber, NodeId)| #[trigger]
        s.push(x).contains(y) == (s.contains(y) || y == x) by {
        if s.contains(y) {
            let i = choose|i: int| 0 <= i < s.len() && s[i] == y;
            assert(s.push(x)[i] == y);
        }
        assert(s.push(x)[s.len() as int] == x);
    }
}

proof fn lemma_take_contains(s: Seq<(ViewNumber, NodeId)>, n: int)
    requires
        0 <= n < s.len(),
    ensures
        forall|y: (ViewNumber, NodeId)| #[trigger]
            s.take(n + 1).contains(y) == (s.take(n).contains(y) || y == s[n]),
{
    assert(s.take(n + 1) =~= s.take(n).push(s[n]));
    lemma_push_contains(s.take(n), s[n]);
}

proof fn lemma_timeout_bound(base: u64, view: ViewNumber)
    ensures
        timeout_of(base, view) <= 0xffff_ffff_ffff_ffff * 1024,
{
    let times = if view < MAX_BACKOFF {
        view as nat
    } else {
        MAX_BACKOFF as nat
    };
    power2::lemma2_to64();
    assert(power2::pow2(times) <= 1024);
    let p = power2::pow2(times);
    assert(base * p <= 0xffff_ffff_ffff_ffff * 1024) by (nonlinear_arith)
        requires
            base <= 0xffff_ffff_ffff_ffff,
            p <= 1024,
    ;
}

} // verus!
