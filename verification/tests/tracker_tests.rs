use offline_tracker::AuthorityId;
use offline_tracker::Observed;
use offline_tracker::OfflineTracker;
use offline_tracker::REPORT_TIME;

#[test]
fn validator_offline() {
    let mut tracker = OfflineTracker::new();
    let v = AuthorityId::from_raw([0; 32]);
    let v2 = AuthorityId::from_raw([1; 32]);
    let v3 = AuthorityId::from_raw([2; 32]);
    let t0: u64 = 1_000;
    tracker.note_round_end(v.clone(), true, t0);
    tracker.note_round_end(v2.clone(), true, t0);
    tracker.note_round_end(v3.clone(), true, t0);

    // v and v2 keep missing rounds until their inactivity passes the window.
    let slash_time: u64 = REPORT_TIME + 5;
    tracker.note_round_end(v.clone(), false, t0 + slash_time);
    tracker.note_round_end(v2.clone(), false, t0 + slash_time);

    assert_eq!(tracker.reports(&[v.clone(), v2.clone(), v3.clone()]), vec![0, 1]);

    tracker.note_new_block(&[v.clone(), v3.clone()]);
    assert_eq!(tracker.reports(&[v, v2, v3]), vec![0]);
}

#[test]
fn untracked_validator_is_active() {
    let tracker = OfflineTracker::new();
    let v = AuthorityId::from_raw([9; 32]);
    assert!(tracker.is_online(&v));
    assert_eq!(tracker.reports(&[v]), Vec::<u32>::new());
}

#[test]
fn online_round_keeps_active_within_window() {
    let mut tracker = OfflineTracker::new();
    let v = AuthorityId::from_raw([4; 32]);
    let t0: u64 = 50_000;
    tracker.note_round_end(v.clone(), true, t0);
    assert!(tracker.is_online(&v));

    // Rounds keep being missed, but the last online sighting is still within
    // the window at each boundary.
    tracker.note_round_end(v.clone(), false, t0 + 100);
    assert!(tracker.is_online(&v));
    tracker.note_round_end(v.clone(), false, t0 + REPORT_TIME - 1);
    assert!(tracker.is_online(&v));
    assert_eq!(tracker.reports(&[v]), Vec::<u32>::new());
}

#[test]
fn stale_validator_is_reported() {
    let mut tracker = OfflineTracker::new();
    let v = AuthorityId::from_raw([5; 32]);
    let t0: u64 = 7_000;
    tracker.note_round_end(v.clone(), true, t0);
    // Exactly the window length elapsed: no longer within it.
    tracker.note_round_end(v.clone(), false, t0 + REPORT_TIME);
    assert!(!tracker.is_online(&v));
    assert_eq!(tracker.reports(&[v]), vec![0]);
}

#[test]
fn reset_drops_history_and_restarts_fresh() {
    let mut tracker = OfflineTracker::new();
    let v = AuthorityId::from_raw([6; 32]);
    let t0: u64 = 100;
    tracker.note_round_end(v.clone(), true, t0);
    tracker.note_round_end(v.clone(), false, t0 + REPORT_TIME + 1);
    assert_eq!(tracker.reports(&[v.clone()]), vec![0]);

    // The new tracked set omits v: its offline history is gone.
    tracker.note_new_block(&[]);
    assert_eq!(tracker.reports(&[v.clone()]), Vec::<u32>::new());

    // Re-appearing later, v starts over with a fresh record, even when its
    // first scored round is an offline one.
    tracker.note_round_end(v.clone(), false, t0 + 2 * REPORT_TIME);
    assert!(tracker.is_online(&v));
    assert_eq!(tracker.reports(&[v]), Vec::<u32>::new());
}

#[test]
fn report_indices_are_increasing_and_in_bounds() {
    let mut tracker = OfflineTracker::new();
    let ids: Vec<AuthorityId> = (0..4u8).map(|b| AuthorityId::from_raw([b; 32])).collect();
    let t0: u64 = 10;
    for id in ids.iter() {
        tracker.note_round_end(id.clone(), true, t0);
    }
    let late: u64 = t0 + REPORT_TIME + 30;
    tracker.note_round_end(ids[1].clone(), false, late);
    tracker.note_round_end(ids[3].clone(), false, late);

    let report = tracker.reports(&ids);
    assert_eq!(report, vec![1, 3]);
    for k in 1..report.len() {
        assert!(report[k - 1] < report[k]);
    }
    for idx in report.iter() {
        assert!((*idx as usize) < ids.len());
    }
}

#[test]
fn consistency_rejects_out_of_bounds_indices() {
    let mut tracker = OfflineTracker::new();
    let v = AuthorityId::from_raw([7; 32]);
    tracker.note_round_end(v.clone(), true, 0);
    tracker.note_round_end(v.clone(), false, REPORT_TIME + 1);
    assert!(!tracker.is_online(&v));

    assert!(!tracker.check_consistency(&[v.clone()], &[1]));
    assert!(!tracker.check_consistency(&[v.clone()], &[u32::MAX]));
    // The offending index poisons the whole report, sound entries or not.
    assert!(!tracker.check_consistency(&[v], &[0, 3]));
}

#[test]
fn consistency_accepts_exactly_the_subsets_of_the_local_report() {
    let mut tracker = OfflineTracker::new();
    let v0 = AuthorityId::from_raw([0; 32]);
    let v1 = AuthorityId::from_raw([1; 32]);
    let v2 = AuthorityId::from_raw([2; 32]);
    let t0: u64 = 400;
    tracker.note_round_end(v0.clone(), true, t0);
    tracker.note_round_end(v1.clone(), true, t0);
    tracker.note_round_end(v2.clone(), true, t0);
    let late: u64 = t0 + REPORT_TIME + 9;
    tracker.note_round_end(v0.clone(), false, late);
    tracker.note_round_end(v1.clone(), false, late);

    let vals = [v0, v1, v2];
    assert_eq!(tracker.reports(&vals), vec![0, 1]);

    // Every subset of the local report passes: completeness is not required.
    assert!(tracker.check_consistency(&vals, &[]));
    assert!(tracker.check_consistency(&vals, &[0]));
    assert!(tracker.check_consistency(&vals, &[1]));
    assert!(tracker.check_consistency(&vals, &[0, 1]));
    assert!(tracker.check_consistency(&vals, &[1, 0]));

    // Any claim against a validator believed online fails.
    assert!(!tracker.check_consistency(&vals, &[2]));
    assert!(!tracker.check_consistency(&vals, &[0, 2]));
}

#[test]
fn clock_skew_fails_open() {
    let mut record = Observed::new(1_000);
    // The clock ran backwards: the next round boundary lies before the last
    // online sighting.  The record must read as active.
    record.note_round_end(false, 100);
    assert!(record.is_active());

    let mut tracker = OfflineTracker::new();
    let v = AuthorityId::from_raw([8; 32]);
    tracker.note_round_end(v.clone(), true, 1_000);
    tracker.note_round_end(v.clone(), false, 100);
    assert!(tracker.is_online(&v));
    assert_eq!(tracker.reports(&[v]), Vec::<u32>::new());
}

#[test]
fn equal_key_bytes_reach_the_same_record() {
    let mut tracker = OfflineTracker::new();
    let v = AuthorityId::from_raw([7; 32]);
    tracker.note_round_end(v, true, 0);
    tracker.note_round_end(AuthorityId::from_raw([7; 32]), false, REPORT_TIME + 1);
    // A separately built identity with the same bytes finds the same entry.
    assert_eq!(tracker.reports(&[AuthorityId::from_raw([7; 32])]), vec![0]);
    assert!(AuthorityId::from_raw([7; 32]) == AuthorityId::from_raw([7; 32]));
    assert!(AuthorityId::from_raw([7; 32]) != AuthorityId::from_raw([6; 32]));
}

#[test]
fn window_boundary_is_exact() {
    let mut just_inside = Observed::new(0);
    just_inside.note_round_end(false, REPORT_TIME - 1);
    assert!(just_inside.is_active());

    let mut on_the_line = Observed::new(0);
    on_the_line.note_round_end(false, REPORT_TIME);
    assert!(!on_the_line.is_active());
}

#[test]
fn three_validators_then_reset() {
    // Three validators all online at a round boundary; two of them then sit
    // out rounds past the window, the third stays untouched.
    let mut tracker = OfflineTracker::new();
    let v0 = AuthorityId::from_raw([10; 32]);
    let v1 = AuthorityId::from_raw([11; 32]);
    let v2 = AuthorityId::from_raw([12; 32]);
    let t0: u64 = 2_000;
    tracker.note_round_end(v0.clone(), true, t0);
    tracker.note_round_end(v1.clone(), true, t0);
    tracker.note_round_end(v2.clone(), true, t0);

    let late: u64 = t0 + REPORT_TIME + 5;
    tracker.note_round_end(v0.clone(), false, late);
    tracker.note_round_end(v1.clone(), false, late);

    assert_eq!(tracker.reports(&[v0.clone(), v1.clone(), v2.clone()]), vec![0, 1]);

    // v1 leaves the tracked set: its history is discarded; v0 is still
    // offline, v2 still active.
    tracker.note_new_block(&[v0.clone(), v2.clone()]);
    assert_eq!(tracker.reports(&[v0, v2]), vec![0]);
}
