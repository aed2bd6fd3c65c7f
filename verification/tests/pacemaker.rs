use bft_engine::pacemaker::{PaceMaker, PaceMakerState};

#[test]
fn test_pacemaker_initial_state() {
    let pm = PaceMaker::new(3, 1000, 0);
    assert_eq!(pm.state(), PaceMakerState::WaitingForProposal);
    assert_eq!(pm.current_view(), 0);
    assert_eq!(pm.current_timeout(), 1000);
}

#[test]
fn test_pacemaker_state_transitions() {
    let mut pm = PaceMaker::new(3, 1000, 0);

    pm.transition(PaceMakerState::WaitingForVotes, 0);
    assert_eq!(pm.state(), PaceMakerState::WaitingForVotes);

    pm.transition(PaceMakerState::Committed, 0);
    assert_eq!(pm.state(), PaceMakerState::Committed);

    pm.transition(PaceMakerState::ViewChanging, 0);
    assert_eq!(pm.state(), PaceMakerState::ViewChanging);
}

#[test]
fn test_pacemaker_exponential_backoff() {
    let mut pm = PaceMaker::new(3, 1000, 0);
    assert_eq!(pm.current_timeout(), 1000); // 2^0

    pm.advance_view(1, 0);
    assert_eq!(pm.current_timeout(), 2000); // 2^1

    pm.advance_view(2, 0);
    assert_eq!(pm.current_timeout(), 4000); // 2^2
}

#[test]
fn test_pacemaker_view_change_quorum() {
    let mut pm = PaceMaker::new(3, 1000, 0);

    assert!(!pm.add_view_change(1, 0));
    assert!(!pm.add_view_change(1, 1));
    assert!(pm.add_view_change(1, 2)); // quorum!
}

#[test]
fn test_pacemaker_rejects_stale_view_change() {
    let mut pm = PaceMaker::new(3, 1000, 0);
    pm.advance_view(5, 0);

    // View change for view 3 should be rejected (stale)
    assert!(!pm.add_view_change(3, 0));
    // View change for view 5 should also be rejected (current, not newer)
    assert!(!pm.add_view_change(5, 0));
    // View change for view 6 should be accepted
    assert!(!pm.add_view_change(6, 0));
}

#[test]
fn the_backoff_is_capped() {
    let mut pm = PaceMaker::new(3, 1000, 0);
    pm.advance_view(10, 0);
    assert_eq!(pm.current_timeout(), 1_024_000);
    pm.advance_view(11, 0);
    assert_eq!(pm.current_timeout(), 1_024_000);
    pm.advance_view(u64::MAX, 0);
    assert_eq!(pm.current_timeout(), 1_024_000);
}

#[test]
fn huge_timeouts_do_not_overflow() {
    let mut pm = PaceMaker::new(3, u64::MAX, u64::MAX);
    assert_eq!(pm.deadline(), 2 * (u64::MAX as u128));
    pm.advance_view(10, u64::MAX);
    assert_eq!(pm.current_timeout(), 1024 * (u64::MAX as u128));
    assert_eq!(pm.deadline(), 1025 * (u64::MAX as u128));
}

#[test]
fn the_deadline_follows_activity() {
    let mut pm = PaceMaker::new(3, 100, 50);
    assert_eq!(pm.deadline(), 150);
    assert!(!pm.is_timed_out(149));
    assert!(pm.is_timed_out(150));

    pm.record_activity(120);
    assert_eq!(pm.deadline(), 220);
    assert!(!pm.is_timed_out(150));

    pm.transition(PaceMakerState::Committed, 300);
    assert_eq!(pm.deadline(), 400);

    // The new view's timeout counts.
    pm.advance_view(3, 1000);
    assert_eq!(pm.deadline(), 1800);
    assert_eq!(pm.state(), PaceMakerState::WaitingForProposal);
    assert_eq!(pm.current_view(), 3);
}

#[test]
fn a_node_is_counted_once_for_a_view() {
    let mut pm = PaceMaker::new(2, 1000, 0);
    assert!(!pm.add_view_change(1, 7));
    assert!(!pm.add_view_change(1, 7));
    assert!(!pm.add_view_change(2, 8));
    assert!(pm.add_view_change(1, 8));
    // Repeating a vote reports the quorum again.
    assert!(pm.add_view_change(1, 8));
}

#[test]
fn votes_for_later_views_survive_a_view_change() {
    let mut pm = PaceMaker::new(2, 1000, 0);
    assert!(!pm.add_view_change(3, 1));
    assert!(!pm.add_view_change(4, 1));
    pm.advance_view(3, 0);
    assert!(pm.add_view_change(4, 2));
}
