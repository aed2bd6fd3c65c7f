use std::collections::BTreeSet;

use bft_engine::cluster::{node_seed, tolerates};
use bft_engine::types::NodeConfig;

fn config(n: u64, max_faults: usize) -> NodeConfig {
    NodeConfig {
        id: 0,
        cluster_size: n as usize,
        max_faults,
        peers: (0..n).map(|i| (i, format!("127.0.0.1:{}", 9000 + i))).collect(),
        data_dir: String::new(),
        consensus_timeout_ms: 1000,
        chain_id: "test-chain".into(),
    }
}

#[test]
fn a_cluster_needs_three_nodes_for_each_fault_and_one_more() {
    assert!(tolerates(4, 1));
    assert!(!tolerates(3, 1));
    assert!(tolerates(1, 0));
    assert!(!tolerates(0, 0));
    assert!(tolerates(7, 2));
    assert!(!tolerates(6, 2));
    assert!(!tolerates(u64::MAX, usize::MAX));
}

#[test]
fn any_two_quorums_share_more_nodes_than_may_be_faulty() {
    let quorum = config(4, 1).quorum_size();
    let sets: Vec<BTreeSet<u32>> = (0u32..16)
        .map(|bits| (0..4).filter(|i| bits & (1 << i) != 0).collect())
        .filter(|set: &BTreeSet<u32>| set.len() >= quorum)
        .collect();
    assert_eq!(sets.len(), 5);
    for a in &sets {
        for b in &sets {
            assert!(a.intersection(b).count() > 1);
        }
    }
}

#[test]
fn a_quorum_is_left_without_the_faulty_nodes() {
    for f in 0..5usize {
        let n = 3 * f as u64 + 1;
        assert!(n as usize - f >= config(n, f).quorum_size());
    }
}

#[test]
fn leaders_take_turns() {
    let cfg = config(4, 1);
    let first: Vec<u64> = (0..4).map(|view| cfg.leader_for_view(view)).collect();
    assert_eq!(first, vec![0, 1, 2, 3]);
    for view in 0..20 {
        assert_eq!(cfg.leader_for_view(view), view % 4);
        assert_eq!(cfg.leader_for_view(view + 4), cfg.leader_for_view(view));
    }
    assert_eq!(cfg.leader_for_view(u64::MAX), u64::MAX % 4);
}

#[test]
fn listed_order_decides_who_leads() {
    let mut cfg = config(3, 0);
    cfg.peers = vec![(7, String::new()), (5, String::new())];
    assert_eq!(cfg.leader_for_view(0), 7);
    assert_eq!(cfg.leader_for_view(1), 5);
    assert_eq!(cfg.leader_for_view(2), 7);
    assert_eq!(cfg.quorum_size(), 1);
}

#[test]
fn seeds_spell_the_node() {
    let seed = node_seed(0x1234);
    assert_eq!(seed[0], 0x34);
    assert_eq!(seed[1], 0x12);
    assert!(seed[2..].iter().all(|b| *b == 0));
    assert_eq!(node_seed(0x51234), seed);
}
