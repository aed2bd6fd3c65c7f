use bft_engine::votes::VoteCollector;

#[test]
fn test_vote_collector_quorum() {
    let mut collector = VoteCollector::new(3); // quorum = 3

    assert!(!collector.add_vote(0, 0, 0, vec![1]));
    assert!(!collector.add_vote(0, 0, 1, vec![2]));
    assert!(collector.add_vote(0, 0, 2, vec![3])); // quorum!

    let sigs = collector.get_signatures(0, 0);
    assert_eq!(sigs.len(), 3);
}

#[test]
fn test_vote_collector_dedup() {
    let mut collector = VoteCollector::new(3);

    assert!(!collector.add_vote(0, 0, 0, vec![1]));
    assert!(!collector.add_vote(0, 0, 0, vec![1])); // duplicate!
    assert!(!collector.add_vote(0, 0, 1, vec![2]));

    let sigs = collector.get_signatures(0, 0);
    assert_eq!(sigs.len(), 2); // not 3, because one was deduped
}

#[test]
fn votes_keep_their_order_and_signatures() {
    let mut collector = VoteCollector::new(2);
    assert!(!collector.add_vote(1, 5, 7, vec![1, 2]));
    assert!(collector.add_vote(1, 5, 3, vec![9]));
    // A further vote beyond the quorum reports it again.
    assert!(collector.add_vote(1, 5, 4, vec![]));
    // A second vote of a node reports nothing and keeps the first signature.
    assert!(!collector.add_vote(1, 5, 3, vec![8]));
    assert_eq!(
        collector.get_signatures(1, 5),
        vec![(7, vec![1, 2]), (3, vec![9]), (4, vec![])]
    );
}

#[test]
fn slots_are_counted_apart() {
    let mut collector = VoteCollector::new(2);
    assert!(!collector.add_vote(0, 0, 1, vec![1]));
    assert!(!collector.add_vote(0, 1, 2, vec![2]));
    assert!(!collector.add_vote(1, 0, 2, vec![3]));
    assert!(collector.add_vote(0, 0, 2, vec![4]));
    assert_eq!(collector.get_signatures(0, 1), vec![(2, vec![2])]);
    assert!(collector.get_signatures(5, 5).is_empty());
}

#[test]
fn old_views_are_forgotten() {
    let mut collector = VoteCollector::new(1);
    assert!(collector.add_vote(1, 0, 1, vec![1]));
    assert!(collector.add_vote(2, 0, 1, vec![2]));
    assert!(collector.add_vote(3, 4, 1, vec![3]));
    collector.gc_before_view(2);
    assert!(collector.get_signatures(1, 0).is_empty());
    assert_eq!(collector.get_signatures(2, 0), vec![(1, vec![2])]);
    assert_eq!(collector.get_signatures(3, 4), vec![(1, vec![3])]);
    // A forgotten slot can be voted for again.
    assert!(collector.add_vote(1, 0, 1, vec![5]));
}

#[test]
fn an_empty_quorum_is_met_by_the_first_vote() {
    let mut collector = VoteCollector::new(0);
    assert!(collector.add_vote(0, 0, 0, vec![]));
    assert!(!collector.add_vote(0, 0, 0, vec![]));
}
