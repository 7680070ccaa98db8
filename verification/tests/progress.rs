//! Phases, counters and estimates.
use autobahn::progress::{estimate_remaining, Phase, Progress};

const SECOND: u128 = 1_000_000_000;

#[test]
fn an_estimate_needs_a_rate_worth_extrapolating() {
    // Too early in the phase to have a rate.
    assert_eq!(estimate_remaining(1_000, 10_000, 500), None);
    // Too little done to have measured one.
    assert_eq!(estimate_remaining(10, 10_000, 30_000), None);
    // No total to measure against, or one already overshot: the total was
    // wrong, not the work nearly done.
    assert_eq!(estimate_remaining(1_000, 0, 30_000), None);
    assert_eq!(estimate_remaining(10_000, 9_000, 30_000), None);
}

#[test]
fn an_estimate_extrapolates_the_rate_observed_so_far() {
    // A quarter done in ten seconds: thirty seconds left.
    let remaining = estimate_remaining(2_500, 10_000, 10_000).expect("a measured rate estimates");
    assert_eq!(remaining / SECOND, 30);
    // Half done in the same ten: ten seconds left.
    let remaining = estimate_remaining(5_000, 10_000, 10_000).expect("a measured rate estimates");
    assert_eq!(remaining / SECOND, 10);
}

#[test]
fn a_phase_lasts_from_when_it_was_entered_not_from_when_it_was_repeated() {
    let mut progress = Progress::new_at(0);
    progress.enter_at(Phase::Scanning, 1_000);
    // Re-announcing the same phase must not restart its clock: the worker
    // announces on every pass through the cycle.
    progress.enter_at(Phase::Scanning, 6_000);
    assert!(progress.snapshot_at(6_000).seconds >= 5);
    // A different phase does restart it.
    progress.enter_at(Phase::Staging, 6_000);
    assert!(progress.snapshot_at(6_000).seconds < 5);
}

#[test]
fn a_side_without_a_history_borrows_its_peers_total() {
    let mut progress = Progress::new();
    // Beta has finished a full scan before; alpha never has.
    progress.beta.end(Some(1_000));
    progress.alpha.begin(true);
    let snapshot = progress.snapshot();
    assert_eq!(snapshot.alpha.expected, Some(1_000));
    // Once alpha has its own history, that is what it uses.
    progress.alpha.end(Some(4_000));
    progress.alpha.begin(true);
    assert_eq!(progress.snapshot().alpha.expected, Some(4_000));
}

#[test]
fn an_incremental_scan_is_never_given_an_estimate() {
    // An incremental scan visits only what changed, so its counter cannot be
    // measured against a whole-tree total.
    let mut progress = Progress::new_at(0);
    progress.alpha.end(Some(1_000_000));
    progress.alpha.begin_at(false, 1_000);
    progress.alpha.advance(1_000, 0);
    let snapshot = progress.snapshot_at(11_000);
    assert_eq!(snapshot.alpha.remaining_seconds, None);
    // The same counters from a full scan do estimate.
    progress.alpha.begin_at(true, 1_000);
    progress.alpha.advance(1_000, 0);
    assert!(progress.snapshot_at(11_000).alpha.remaining_seconds.is_some());
}

#[test]
fn a_total_a_running_scan_has_passed_is_not_reported() {
    let mut progress = Progress::new();
    // Beta has only ever scanned an empty tree; alpha, scanning a real one,
    // would otherwise be shown as "30,000 of ~1 entries".
    progress.beta.end(Some(1));
    progress.alpha.begin(true);
    progress.alpha.advance(30_000, 0);
    assert_eq!(progress.snapshot().alpha.expected, None);

    // A scan that has finished reaches its total exactly, and that total is
    // what the next scan is measured against.
    progress.alpha.end(Some(30_000));
    let snapshot = progress.snapshot();
    assert_eq!(snapshot.alpha.expected, Some(30_000));
    assert!(!snapshot.alpha.active);
}

#[test]
fn scanning_finishes_with_the_slower_side() {
    let mut progress = Progress::new_at(0);
    progress.enter_at(Phase::Scanning, 0);
    for side in [&mut progress.alpha, &mut progress.beta] {
        side.end(Some(10_000));
        side.begin_at(true, 0);
    }
    // Alpha is half done (10s left); beta a quarter (30s left).
    progress.alpha.advance(5_000, 0);
    progress.beta.advance(2_500, 0);
    let snapshot = progress.snapshot_at(10_000);
    assert_eq!(snapshot.alpha.remaining_seconds, Some(10));
    assert_eq!(snapshot.beta.remaining_seconds, Some(30));
    assert_eq!(snapshot.remaining_seconds, Some(30));

    // A side that cannot be estimated makes the phase unknowable rather than
    // shorter.
    progress.beta.begin_at(false, 0);
    assert_eq!(progress.snapshot_at(10_000).remaining_seconds, None);
}

#[test]
fn the_clock_is_the_time_of_day() {
    let mut progress = Progress::new();
    progress.enter(Phase::Scanning);
    assert!(progress.snapshot().seconds < 5);
    // Had the clock stood at zero, nothing entered at zero would be old.
    let mut old = Progress::new_at(0);
    old.enter_at(Phase::Scanning, 0);
    assert!(old.snapshot().seconds > 1_000_000_000);
}

#[test]
fn counters_are_kept_while_a_phase_runs() {
    let mut progress = Progress::new_at(0);
    progress.begin_staging_at(400, 4_000, 1_000);
    progress.staged(100, 1_000);
    let snapshot = progress.snapshot_at(11_000);
    assert_eq!(progress.phase(), Phase::Staging);
    assert_eq!((snapshot.staged, snapshot.staged_total), (100, 400));
    assert_eq!((snapshot.staged_bytes, snapshot.staged_bytes_total), (1_000, 4_000));
    assert_eq!(snapshot.remaining_seconds, Some(30));
    progress.begin_applying_at(200, 20_000);
    progress.applied_reached(100);
    let snapshot = progress.snapshot_at(30_000);
    assert_eq!((snapshot.applied, snapshot.applied_total), (100, 200));
    assert_eq!(snapshot.remaining_seconds, Some(10));
    progress.rest_at(Phase::Waiting, 30_000);
    assert_eq!(progress.phase(), Phase::Waiting);
    let snapshot = progress.snapshot_at(30_000);
    assert_eq!((snapshot.staged, snapshot.staged_bytes, snapshot.applied), (0, 0, 0));
    assert!(!Phase::Waiting.is_working());
    assert!(Phase::Applying.is_working());
    assert_eq!(Phase::Scanning.label(), "scanning");
}

#[test]
fn counters_follow_the_phase_they_belong_to() {
    let mut progress = Progress::new();
    progress.alpha.seed_expected(40);
    assert_eq!(progress.alpha.expected_total(), 40);
    assert_eq!(progress.beta.expected_total(), 0);
    progress.begin_staging(3, 300);
    assert_eq!(progress.phase(), Phase::Staging);
    progress.staged(2, 200);
    progress.begin_applying(5);
    assert_eq!(progress.phase(), Phase::Applying);
    progress.beta.change_applied();
    progress.beta.change_applied();
    let now = progress.snapshot_at(0);
    assert_eq!(now.applied, 2);
    assert_eq!(now.applied_total, 5);
    assert_eq!((now.staged, now.staged_total), (2, 3));
}

#[test]
fn a_cycle_that_rests_leaves_nothing_behind() {
    let mut progress = Progress::new();
    progress.begin_staging(3, 30);
    progress.staged(3, 30);
    progress.begin_applying(3);
    for _ in 0..3 {
        progress.beta.change_applied();
    }
    assert_eq!(progress.snapshot().applied, 3);
    // What both sides are reported to have done stands in for what they did.
    progress.applied_reached(2);
    progress.applied_reached(3);
    assert_eq!(progress.snapshot().applied, 3);
    progress.applied_reached(5);
    assert_eq!(progress.snapshot().applied, 5);
    progress.rest(Phase::Waiting);
    let resting = progress.snapshot();
    assert_eq!((resting.staged, resting.staged_total), (0, 0));
    assert_eq!((resting.staged_bytes, resting.staged_bytes_total), (0, 0));
    assert_eq!((resting.applied, resting.applied_total), (0, 0));
}
