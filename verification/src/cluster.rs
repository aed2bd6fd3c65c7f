//! The cluster: how many nodes it needs, which quorums it has, who leads, and
//! the keys of a simulated one.
use vstd::prelude::*;

use crate::types;
use crate::types::NodeId;

verus! {

/// Whether `n` nodes are enough to tolerate `max_faults` faulty ones.
pub open spec fn enough_nodes(n: nat, max_faults: nat) -> bool {
    n >= 3 * max_faults + 1
}

/// The nodes are enough exactly where those that are left without the faulty ones
/// still make a quorum.
pub proof fn law_enough_nodes_leave_a_quorum(n: nat, max_faults: nat)
    ensures
        enough_nodes(n, max_faults) <==> n - max_faults >= 2 * max_faults + 1,
        enough_nodes(n, max_faults) <==> n - max_faults >= types::quorum_for(max_faults),
{
}

/// Whether a cluster of `n` nodes tolerates `max_faults` faulty ones.
pub fn tolerates(n: u64, max_faults: usize) -> (yes: bool)
    ensures
        yes == (n >= 3 * max_faults + 1),
        yes == enough_nodes(n as nat, max_faults as nat),
{
    n as u128 >= 3 * (max_faults as u128) + 1
}

/// The seed that a node's number makes: the two low bytes of the number and zeros.
pub open spec fn seed_of(id: NodeId) -> Seq<u8> {
    Seq::new(
        32,
        |i: int|
            if i == 0 {
                (id % 256) as u8
            } else if i == 1 {
                ((id / 256) % 256) as u8
            } else {
                0u8
            },
    )
}

/// Nodes with different numbers below 2^16 have different seeds, of 32 bytes each.
pub proof fn law_seeds_differ(a: NodeId, b: NodeId)
    requires
        a < 0x1_0000,
        b < 0x1_0000,
        a != b,
    ensures
        seed_of(a).len() == 32,
        seed_of(a) != seed_of(b),
        seed_of(a)[0] + 256 * seed_of(a)[1] == a,
{
    assert(seed_of(a)[0] + 256 * seed_of(a)[1] == a);
    assert(seed_of(b)[0] + 256 * seed_of(b)[1] == b);
}

/// The seed of a node's key in a simulated cluster: its number in the first two
/// bytes, least significant first.
pub fn node_seed(id: NodeId) -> (seed: [u8; 32])
    ensures
        seed@[0] == id % 256,
        seed@[1] == (id / 256) % 256,
        forall|i: int| 2 <= i < 32 ==> seed@[i] == 0,
        seed@ == seed_of(id),
{
    let mut seed: [u8; 32] = [0u8;32];
    seed[0] = (id % 256) as u8;
    seed[1] = ((id / 256) % 256) as u8;
    assert(seed@ =~= seed_of(id));
    seed
}

/// Any two quorums of a cluster of at most three nodes for each tolerated fault
/// and one more have more nodes in common than may be faulty.
pub proof fn law_quorums_intersect(
    nodes: Set<NodeId>,
    a: Set<NodeId>,
    b: Set<NodeId>,
    max_faults: nat,
)
    requires
        nodes.finite(),
        nodes.len() <= 3 * max_faults + 1,
        a.subset_of(nodes),
        b.subset_of(nodes),
        a.len() >= types::quorum_for(max_faults),
        b.len() >= types::quorum_for(max_faults),
    ensures
        a.intersect(b).len() > max_faults,
{
    vstd::set_lib::lemma_set_subset_finite(nodes, a);
    vstd::set_lib::lemma_set_subset_finite(nodes, b);
    vstd::set_lib::lemma_set_intersect_union_lens(a, b);
    vstd::set_lib::lemma_len_subset(a.union(b), nodes);
}

/// Any two quorums have a node in common that is not faulty.
pub proof fn law_quorums_share_honest_node(
    nodes: Set<NodeId>,
    a: Set<NodeId>,
    b: Set<NodeId>,
    faulty: Set<NodeId>,
    max_faults: nat,
)
    requires
        nodes.finite(),
        nodes.len() <= 3 * max_faults + 1,
        a.subset_of(nodes),
        b.subset_of(nodes),
        a.len() >= types::quorum_for(max_faults),
        b.len() >= types::quorum_for(max_faults),
        faulty.finite(),
        faulty.len() <= max_faults,
    ensures
        exists|node: NodeId| #[trigger] a.contains(node) && b.contains(node) && !faulty.contains(node),
{
    law_quorums_intersect(nodes, a, b, max_faults);
    let common = a.intersect(b);
    vstd::set_lib::lemma_set_subset_finite(nodes, common);
    if common.subset_of(faulty) {
        vstd::set_lib::lemma_len_subset(common, faulty);
    }
    let node = choose|node: NodeId| common.contains(node) && !faulty.contains(node);
    assert(a.contains(node) && b.contains(node) && !faulty.contains(node));
}

/// A quorum can be had while no more nodes than tolerated are faulty.
pub proof fn law_quorum_without_faulty(nodes: Set<NodeId>, faulty: Set<NodeId>, max_faults: nat)
    requires
        nodes.finite(),
        nodes.len() >= 3 * max_faults + 1,
        faulty.finite(),
        faulty.len() <= max_faults,
    ensures
        nodes.difference(faulty).len() >= types::quorum_for(max_faults),
{
    let rest = nodes.difference(faulty);
    vstd::set_lib::lemma_set_subset_finite(nodes, rest);
    vstd::set_lib::lemma_set_intersect_union_lens(rest, faulty);
    assert(rest.intersect(faulty) =~= Set::empty());
    assert(nodes.subset_of(rest.union(faulty)));
    vstd::set_lib::lemma_len_subset(nodes, rest.union(faulty));
}

/// The nodes take turns: after as many views as there are nodes the same node
/// leads again, and in between every node has led.
pub proof fn law_leaders_take_turns(ids: Seq<NodeId>, view: nat, at: nat)
    requires
        ids.len() > 0,
        at < ids.len(),
    ensures
        types::leader_of(ids, view + ids.len()) == types::leader_of(ids, view),
        exists|later: nat|
            view <= later < view + ids.len() && #[trigger] types::leader_of(ids, later)
                == ids[at as int],
{
    let n = ids.len();
    vstd::arithmetic::div_mod::lemma_mod_add_multiples_vanish(view as int, n as int);
    let turn = view % n;
    let later = if at >= turn {
        (view + (at - turn)) as nat
    } else {
        (view + (at + n - turn)) as nat
    };
    vstd::arithmetic::div_mod::lemma_fundamental_div_mod(view as int, n as int);
    let q = view / n;
    assert(n * q == q * n) by (nonlinear_arith);
    if at >= turn {
        vstd::arithmetic::div_mod::lemma_fundamental_div_mod_converse(
            later as int,
            n as int,
            q as int,
            at as int,
        );
    } else {
        assert((q + 1) * n == n * q + n) by (nonlinear_arith);
        vstd::arithmetic::div_mod::lemma_fundamental_div_mod_converse(
            later as int,
            n as int,
            q as int + 1,
            at as int,
        );
    }
    assert(types::leader_of(ids, later) == ids[at as int]);
}

/// Where the nodes are numbered from 0 on, the leader of a view is the view
/// modulo the number of nodes.
pub proof fn law_leader_is_view_modulo_size(ids: Seq<NodeId>, view: nat)
    requires
        ids.len() > 0,
        forall|i: int| 0 <= i < ids.len() ==> #[trigger] ids[i] == i,
    ensures
        types::leader_of(ids, view) == view % ids.len(),
{
}

} // verus!
