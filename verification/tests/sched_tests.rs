use m3u8dl::progress::Progress;
use m3u8dl::sched::run_schedule;
use m3u8dl::sched::FailureKind;
use m3u8dl::sched::Scheduler;
use m3u8dl::sched::UnitOutcome;
use m3u8dl::store::SegmentStore;

#[test]
fn in_flight_fetches_never_exceed_the_bound() {
    let n: usize = 100;
    let k: usize = 10;
    let mut sched = Scheduler::new(n, k);
    let mut in_flight: Vec<usize> = Vec::new();
    let mut peak: usize = 0;
    while !sched.is_done() {
        while sched.can_dispatch() {
            let ord = sched.dispatch();
            in_flight.push(ord);
            if sched.in_flight > peak {
                peak = sched.in_flight;
            }
        }
        let ord = in_flight.pop().unwrap();
        sched.settle(ord, UnitOutcome::Success);
    }
    assert!(peak <= k);
    assert_eq!(peak, k);
    assert_eq!(sched.settled, n);
    assert_eq!(sched.succeeded, n);
    assert!(sched.result().is_ok());
}

#[test]
fn single_unit_with_large_bound_issues_exactly_one_fetch() {
    let mut sched = Scheduler::new(1, 10);
    assert!(sched.can_dispatch());
    let ord = sched.dispatch();
    assert_eq!(ord, 0);
    assert!(!sched.can_dispatch());
    sched.settle(0, UnitOutcome::Success);
    assert!(sched.is_done());
    assert!(sched.result().is_ok());
}

#[test]
fn single_failure_names_its_ordinal_and_counts_only_successes() {
    let outcomes = vec![
        UnitOutcome::Success,
        UnitOutcome::Success,
        UnitOutcome::Failure(FailureKind::Fetch),
        UnitOutcome::Success,
        UnitOutcome::Success,
    ];
    let mut reporter = Progress::new(5);
    let result = run_schedule(5, 10, &outcomes, &mut reporter);
    let failure = result.unwrap_err();
    assert_eq!(failure.ordinal, 2);
    assert_eq!(failure.kind, FailureKind::Fetch);
    assert_eq!(reporter.completed, 4);
}

#[test]
fn all_successes_complete_the_run() {
    let outcomes = vec![UnitOutcome::Success; 100];
    let mut reporter = Progress::new(100);
    let result = run_schedule(100, 10, &outcomes, &mut reporter);
    assert!(result.is_ok());
    assert_eq!(reporter.completed, 100);
}

#[test]
fn first_failure_in_settlement_order_wins() {
    let outcomes = vec![
        UnitOutcome::Failure(FailureKind::Timeout),
        UnitOutcome::Failure(FailureKind::Write),
        UnitOutcome::Success,
    ];
    let mut reporter = Progress::new(3);
    let failure = run_schedule(3, 2, &outcomes, &mut reporter).unwrap_err();
    assert_eq!(failure.ordinal, 0);
    assert_eq!(failure.kind, FailureKind::Timeout);
    assert_eq!(reporter.completed, 1);
}

#[test]
fn reordered_completion_still_yields_ordinal_order() {
    let mut sched = Scheduler::new(3, 3);
    let mut store = SegmentStore::new(b"output".to_vec(), 3);
    let o0 = sched.dispatch();
    let o1 = sched.dispatch();
    let o2 = sched.dispatch();
    // Unit 2 settles first, the delayed units 0 and 1 afterwards.
    store.put(o2, b"c".to_vec());
    sched.settle(o2, UnitOutcome::Success);
    store.put(o0, b"a".to_vec());
    sched.settle(o0, UnitOutcome::Success);
    store.put(o1, b"b".to_vec());
    sched.settle(o1, UnitOutcome::Success);
    assert!(sched.is_done());
    assert!(sched.result().is_ok());
    let paths = store.enumerate();
    assert_eq!(paths.len(), 3);
    assert!(paths[0] < paths[1] && paths[1] < paths[2]);
    assert_eq!(store.concat_contents(), b"abc".to_vec());
}
