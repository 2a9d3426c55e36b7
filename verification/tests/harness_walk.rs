use dirtybench::frac::DirtyFraction;
use dirtybench::harness::{
    run_all, run_discard_advise, run_full_zero, run_heuristic, run_scan_and_zero, BenchArgs,
    BenchResult,
};
use dirtybench::scanner::PageRange;
use dirtybench::strategy::Strategy;
use dirtybench::walk::ScanState;
use dirtybench::BenchError;

const PS: usize = 4096;

fn args(total_size: usize, threads: usize) -> BenchArgs {
    BenchArgs {
        total_size,
        dirty_fraction: DirtyFraction::new(1, 10).unwrap(),
        threads,
        processes: 1,
    }
}

#[test]
fn result_record_carries_labels() {
    let a = args(16384, 2);
    let r = BenchResult::new(&a, Strategy::FullZero, 12345);
    assert_eq!(r.strategy, Strategy::FullZero);
    assert_eq!(r.total_size, 16384);
    assert_eq!(r.dirty_fraction, DirtyFraction::new(1, 10).unwrap());
    assert_eq!(r.duration_nanos, 12345);
    assert_eq!(r.threads, 2);
    assert_eq!(r.processes, 1);
}

#[test]
fn single_runs_carry_their_tags() {
    let a = args(16384, 1);
    assert_eq!(run_full_zero(&a).strategy, Strategy::FullZero);
    assert_eq!(run_discard_advise(&a).strategy, Strategy::DiscardAdvise);
    assert_eq!(run_scan_and_zero(&a).strategy, Strategy::ScanAndZero);
    assert_eq!(run_heuristic(&a, true).strategy, Strategy::Heuristic);
    assert_eq!(run_heuristic(&a, false).strategy, Strategy::Heuristic);
}

#[test]
fn four_threads_ten_iterations_give_160_records() {
    let a = args(16384, 4);
    let results = run_all(&a, 10, true);
    assert_eq!(results.len(), 160);
    let mut counts = [0usize; 4];
    for r in &results {
        assert_eq!(r.total_size, 16384);
        assert_eq!(r.threads, 4);
        assert_eq!(r.processes, 1);
        match r.strategy {
            Strategy::FullZero => counts[0] += 1,
            Strategy::DiscardAdvise => counts[1] += 1,
            Strategy::ScanAndZero => counts[2] += 1,
            Strategy::Heuristic => counts[3] += 1,
        }
    }
    assert_eq!(counts, [40, 40, 40, 40]);
}

#[test]
fn repeated_stress_runs() {
    for _ in 0..5 {
        let a = args(8192, 2);
        let results = run_all(&a, 3, true);
        assert_eq!(results.len(), 24);
    }
}

#[test]
fn walk_rejects_unaligned_window() {
    assert!(matches!(
        ScanState::new(PS + 1, PS),
        Err(BenchError::UnalignedRegion)
    ));
}

#[test]
fn walk_protocol_continuation_and_merge() {
    // Four pages; the first walk stops after three, the second finishes.
    let mut st = ScanState::new(4 * PS, PS).unwrap();
    assert!(!st.is_complete());
    assert_eq!(st.next_walk(), Some((0, 4 * PS)));

    let first = vec![
        PageRange { start: 0, end: PS },
        PageRange { start: 2 * PS, end: 3 * PS },
    ];
    st.absorb(&first, 3 * PS).unwrap();
    assert!(!st.is_complete());
    assert_eq!(st.next_walk(), Some((3 * PS, 4 * PS)));

    // The run reported by the second walk is adjacent to the last one found
    // and must be coalesced with it.
    let second = vec![PageRange { start: 3 * PS, end: 4 * PS }];
    st.absorb(&second, 4 * PS).unwrap();
    assert!(st.is_complete());
    assert_eq!(st.next_walk(), None);

    let set = st.finish();
    assert_eq!(set.window, 4 * PS);
    assert_eq!(set.ranges.len(), 2);
    assert_eq!(set.ranges[0], PageRange { start: 0, end: PS });
    assert_eq!(set.ranges[1], PageRange { start: 2 * PS, end: 4 * PS });
    assert_eq!(set.total_len_bytes(PS), 3 * PS);
}

#[test]
fn walk_empty_reports_give_empty_set() {
    let mut st = ScanState::new(2 * PS, PS).unwrap();
    let empty: Vec<PageRange> = Vec::new();
    st.absorb(&empty, 2 * PS).unwrap();
    assert!(st.is_complete());
    let set = st.finish();
    assert_eq!(set.ranges.len(), 0);
    assert_eq!(set.total_len_bytes(PS), 0);
}

#[test]
fn walk_rejects_malformed_reports() {
    let mut st = ScanState::new(4 * PS, PS).unwrap();
    // A walk that does not advance.
    let empty: Vec<PageRange> = Vec::new();
    assert_eq!(st.absorb(&empty, 0), Err(BenchError::MalformedScan));
    // An unaligned run.
    let bad = vec![PageRange { start: 1, end: PS }];
    assert_eq!(st.absorb(&bad, 2 * PS), Err(BenchError::MalformedScan));
    // A run outside the walked stretch.
    let outside = vec![PageRange { start: 2 * PS, end: 3 * PS }];
    assert_eq!(st.absorb(&outside, 2 * PS), Err(BenchError::MalformedScan));
    // Runs out of order.
    let unordered = vec![
        PageRange { start: PS, end: 2 * PS },
        PageRange { start: 0, end: PS },
    ];
    assert_eq!(
        st.absorb(&unordered, 2 * PS),
        Err(BenchError::MalformedScan)
    );
    // The state is untouched: a valid walk still starts at zero.
    assert_eq!(st.next_walk(), Some((0, 4 * PS)));
}
