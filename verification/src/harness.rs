//! The benchmark harness: one timed run per strategy on a freshly mapped,
//! freshly dirtied region, and the loops that drive iterations and workers.
//!
//! Regions are never reused or shared across strategies, iterations or
//! workers: every measurement starts from an identically prepared region,
//! so earlier reclamation never biases a later measurement. Only the
//! reclamation step is timed; mapping and dirtying happen outside the
//! clock. Scan windows are derived by rounding the region size down to a
//! page multiple, so an unaligned scan can never arise here.

use vstd::prelude::*;

use std::time::Instant;

use crate::frac::DirtyFraction;
use crate::region::MemoryRegion;
use crate::strategy::{
    choose_strategy, discard_advise, effective_strategy, full_zero, scan_and_zero, Strategy,
};
use crate::scanner::PageRange;
use crate::sys::host_page_size;

verus! {

/// The validated configuration a run works under.
#[derive(Clone, Copy, Debug, PartialEq, Eq, Structural)]
pub struct BenchArgs {
    /// Region size in bytes; positive.
    pub total_size: usize,
    /// Fraction of the region dirtied before each measurement.
    pub dirty_fraction: DirtyFraction,
    /// Number of parallel workers; positive.
    pub threads: usize,
    /// Number of parallel processes; an informational label only.
    pub processes: usize,
}

impl BenchArgs {
    /// Valid arguments: a positive region size, a fraction within bounds
    /// and at least one worker.
    pub open spec fn wf(&self) -> bool {
        &&& self.total_size > 0
        &&& self.dirty_fraction.wf()
        &&& self.threads >= 1
    }
}

/// One timed measurement, immutable once produced.
#[derive(Clone, Copy, Debug, PartialEq, Eq, Structural)]
pub struct BenchResult {
    /// Which algorithm produced the result.
    pub strategy: Strategy,
    /// Region size in bytes.
    pub total_size: usize,
    /// Fraction of the region that was dirtied.
    pub dirty_fraction: DirtyFraction,
    /// Time the reclamation step took, in nanoseconds.
    pub duration_nanos: u128,
    /// Worker-count label carried through from the configuration.
    pub threads: usize,
    /// Process-count label carried through from the configuration.
    pub processes: usize,
}

/// Whether a result carries the labels of `args`.
pub open spec fn result_matches(r: BenchResult, args: BenchArgs) -> bool {
    &&& r.total_size == args.total_size
    &&& r.dirty_fraction == args.dirty_fraction
    &&& r.threads == args.threads
    &&& r.processes == args.processes
}

impl BenchResult {
    /// Assembles a result from the run's configuration, the strategy that
    /// was timed and the measured nanoseconds.
    pub fn new(args: &BenchArgs, strategy: Strategy, duration_nanos: u128) -> (r: BenchResult)
        ensures
            r.strategy == strategy,
            r.duration_nanos == duration_nanos,
            result_matches(r, *args),
    {
        let BenchArgs { total_size, dirty_fraction, threads, processes } = *args;
        BenchResult { strategy, total_size, dirty_fraction, duration_nanos, threads, processes }
    }
}

/// Maps and dirties a fresh region for one measurement.
fn prepare_region(args: &BenchArgs, force_resident: bool) -> (r: MemoryRegion)
    requires
        args.wf(),
    ensures
        r.wf(),
        r@.len() == args.total_size,
        r.spec_dirty_fraction() == args.dirty_fraction,
{
    let region = match MemoryRegion::new(args.total_size, args.dirty_fraction, force_resident) {
        Ok(region) => region,
        Err(_) => vstd::pervasive::unreached(),
    };
    let mut region = region;
    region.make_dirty();
    region
}

/// Times `FullZero` on a fresh region: the whole region is written to zero.
pub fn run_full_zero(args: &BenchArgs) -> (r: BenchResult)
    requires
        args.wf(),
    ensures
        r.strategy == Strategy::FullZero,
        result_matches(r, *args),
{
    let mut region = prepare_region(args, true);
    let start = Instant::now();
    full_zero(&mut region);
    let elapsed = start.elapsed();
    BenchResult::new(args, Strategy::FullZero, elapsed.as_nanos())
}

/// Times `DiscardAdvise` on a fresh region: one advisory call drops the
/// region's backing.
pub fn run_discard_advise(args: &BenchArgs) -> (r: BenchResult)
    requires
        args.wf(),
    ensures
        r.strategy == Strategy::DiscardAdvise,
        result_matches(r, *args),
{
    let mut region = prepare_region(args, false);
    let start = Instant::now();
    discard_advise(&mut region);
    let elapsed = start.elapsed();
    BenchResult::new(args, Strategy::DiscardAdvise, elapsed.as_nanos())
}

/// Times `ScanAndZero` on a fresh region: the dirty pages of the scan
/// window are found and only they are written to zero. The window is the
/// region size rounded down to a page multiple, so the scan cannot be
/// refused.
pub fn run_scan_and_zero(args: &BenchArgs) -> (r: BenchResult)
    requires
        args.wf(),
    ensures
        r.strategy == Strategy::ScanAndZero,
        result_matches(r, *args),
{
    let mut region = prepare_region(args, false);
    let page_size = host_page_size();
    let pages: usize = args.total_size / page_size;
    proof {
        lemma_scan_window_fits(args.total_size as int, page_size as int);
    }
    let window: usize = pages * page_size;
    let mut buf: Vec<PageRange> = vec![PageRange { start: 0, end: 0 };pages];
    let start = Instant::now();
    let scan_outcome = scan_and_zero(&mut region, window, page_size, &mut buf);
    let elapsed = start.elapsed();
    proof {
        assert(scan_outcome is Ok);
    }
    BenchResult::new(args, Strategy::ScanAndZero, elapsed.as_nanos())
}

/// Times the heuristic on a fresh region: the strategy is chosen from the
/// region size, degraded to `DiscardAdvise` if scanning is unsupported, and
/// the result is re-tagged `Heuristic` whatever branch ran.
pub fn run_heuristic(args: &BenchArgs, scan_supported: bool) -> (r: BenchResult)
    requires
        args.wf(),
    ensures
        r.strategy == Strategy::Heuristic,
        result_matches(r, *args),
{
    let chosen = choose_strategy(args.total_size);
    let effective = effective_strategy(chosen, scan_supported);
    let nanos: u128 = match effective {
        Strategy::FullZero => {
            let mut region = prepare_region(args, true);
            let start = Instant::now();
            full_zero(&mut region);
            start.elapsed().as_nanos()
        },
        Strategy::DiscardAdvise => {
            let mut region = prepare_region(args, false);
            let start = Instant::now();
            discard_advise(&mut region);
            start.elapsed().as_nanos()
        },
        Strategy::ScanAndZero => {
            let mut region = prepare_region(args, false);
            let page_size = host_page_size();
            let pages: usize = args.total_size / page_size;
            proof {
                lemma_scan_window_fits(args.total_size as int, page_size as int);
            }
            let window: usize = pages * page_size;
            let mut buf: Vec<PageRange> = vec![PageRange { start: 0, end: 0 };pages];
            let start = Instant::now();
            let scan_outcome = scan_and_zero(&mut region, window, page_size, &mut buf);
            let elapsed = start.elapsed();
            proof {
                assert(scan_outcome is Ok);
            }
            elapsed.as_nanos()
        },
        Strategy::Heuristic => {
            proof {
                assert(false);
            }
            0
        },
    };
    BenchResult::new(args, Strategy::Heuristic, nanos)
}

/// A scan window rounded down to a page multiple stays within the region,
/// is page-aligned, and needs no more buffer slots than there are pages.
proof fn lemma_scan_window_fits(size: int, ps: int)
    requires
        0 < ps,
        0 <= size,
    ensures
        (size / ps) * ps <= size,
        ((size / ps) * ps) % ps == 0,
        ((size / ps) * ps) / ps == size / ps,
        0 <= (size / ps) * ps,
{
    let pages = size / ps;
    vstd::arithmetic::div_mod::lemma_fundamental_div_mod(size, ps);
    vstd::arithmetic::div_mod::lemma_mod_pos_bound(size, ps);
    assert(ps * pages == pages * ps) by (nonlinear_arith);
    vstd::arithmetic::div_mod::lemma_mod_multiples_basic(pages, ps);
    vstd::arithmetic::div_mod::lemma_div_multiples_vanish(pages, ps);
    vstd::arithmetic::div_mod::lemma_div_pos_is_pos(size, ps);
    vstd::arithmetic::mul::lemma_mul_nonnegative(pages, ps);
}

/// The strategy the harness schedules at position `i` of the result
/// sequence: the four strategies under test, cycling in a fixed order.
pub open spec fn scheduled_strategy(i: int) -> Strategy {
    if i % 4 == 0 {
        Strategy::FullZero
    } else if i % 4 == 1 {
        Strategy::DiscardAdvise
    } else if i % 4 == 2 {
        Strategy::ScanAndZero
    } else {
        Strategy::Heuristic
    }
}

/// Runs every strategy under test once, in a fixed order, on its own fresh
/// region, and appends the four results to `results`.
pub fn run_iteration(args: &BenchArgs, scan_supported: bool, results: &mut Vec<BenchResult>)
    requires
        args.wf(),
    ensures
        final(results)@.len() == old(results)@.len() + 4,
        forall|i: int|
            0 <= i < old(results)@.len() ==> final(results)@[i] == old(results)@[i],
        forall|i: int|
            old(results)@.len() <= i < final(results)@.len() ==> result_matches(
                #[trigger] final(results)@[i],
                *args,
            ),
        final(results)@[old(results)@.len() as int].strategy == Strategy::FullZero,
        final(results)@[old(results)@.len() as int + 1].strategy == Strategy::DiscardAdvise,
        final(results)@[old(results)@.len() as int + 2].strategy == Strategy::ScanAndZero,
        final(results)@[old(results)@.len() as int + 3].strategy == Strategy::Heuristic,
{
    let r0 = run_full_zero(args);
    let r1 = run_discard_advise(args);
    let r2 = run_scan_and_zero(args);
    let r3 = run_heuristic(args, scan_supported);
    results.push(r0);
    results.push(r1);
    results.push(r2);
    results.push(r3);
}

/// One worker's share: `iterations` iterations, four strategy runs each,
/// every run on a fresh region.
pub fn run_worker(args: &BenchArgs, iterations: u64, scan_supported: bool) -> (v: Vec<BenchResult>)
    requires
        args.wf(),
    ensures
        v@.len() == 4 * (iterations as int),
        forall|i: int| 0 <= i < v@.len() ==> result_matches(#[trigger] v@[i], *args),
        forall|i: int| 0 <= i < v@.len() ==> (#[trigger] v@[i]).strategy == scheduled_strategy(i),
{
    let mut results: Vec<BenchResult> = Vec::new();
    let mut it: u64 = 0;
    while it < iterations
        invariant
            args.wf(),
            it <= iterations,
            results@.len() == 4 * (it as int),
            forall|i: int| 0 <= i < results@.len() ==> result_matches(#[trigger] results@[i], *args),
            forall|i: int|
                0 <= i < results@.len() ==> (#[trigger] results@[i]).strategy
                    == scheduled_strategy(i),
        decreases iterations - it,
    {
        let ghost base = results@.len() as int;
        run_iteration(args, scan_supported, &mut results);
        proof {
            assert forall|i: int| 0 <= i < results@.len() implies (#[trigger] results@[i]).strategy
                == scheduled_strategy(i) by {
                if i >= base {
                    let j = i - base;
                    vstd::arithmetic::div_mod::lemma_fundamental_div_mod_converse(
                        i,
                        4,
                        it as int,
                        j,
                    );
                    assert(i % 4 == j);
                }
            }
        }
        it += 1;
    }
    results
}

/// The whole benchmark: every worker runs every iteration, and the results
/// are collected into one sequence of exactly
/// `threads * iterations * 4` records.
pub fn run_all(args: &BenchArgs, iterations: u64, scan_supported: bool) -> (v: Vec<BenchResult>)
    requires
        args.wf(),
    ensures
        v@.len() == (args.threads as int) * (iterations as int) * 4,
        forall|i: int| 0 <= i < v@.len() ==> result_matches(#[trigger] v@[i], *args),
        forall|i: int| 0 <= i < v@.len() ==> (#[trigger] v@[i]).strategy == scheduled_strategy(i),
{
    let mut results: Vec<BenchResult> = Vec::new();
    let mut t: usize = 0;
    while t < args.threads
        invariant
            args.wf(),
            t <= args.threads,
            results@.len() == (t as int) * (iterations as int) * 4,
            forall|i: int| 0 <= i < results@.len() ==> result_matches(#[trigger] results@[i], *args),
            forall|i: int|
                0 <= i < results@.len() ==> (#[trigger] results@[i]).strategy
                    == scheduled_strategy(i),
        decreases args.threads - t,
    {
        let ghost base = results@.len() as int;
        let mut worker_results = run_worker(args, iterations, scan_supported);
        let ghost wr = worker_results@;
        proof {
            assert((t as int + 1) * (iterations as int) * 4 == (t as int) * (iterations as int) * 4 + 4 * (
            iterations as int)) by (nonlinear_arith);
        }
        results.append(&mut worker_results);
        proof {
            assert(base % 4 == 0) by {
                vstd::arithmetic::div_mod::lemma_fundamental_div_mod_converse(
                    base,
                    4,
                    (t as int) * (iterations as int),
                    0,
                );
                assert(base == ((t as int) * (iterations as int)) * 4) by (nonlinear_arith)
                    requires
                        base == (t as int) * (iterations as int) * 4,
                ;
            }
            assert forall|i: int| 0 <= i < results@.len() implies (#[trigger] results@[i]).strategy
                == scheduled_strategy(i) by {
                if i >= base {
                    let j = i - base;
                    assert(results@[i] == wr[j]);
                    assert(wr[j].strategy == scheduled_strategy(j));
                    vstd::arithmetic::div_mod::lemma_add_mod_noop(base, j, 4);
                    vstd::arithmetic::div_mod::lemma_mod_twice(j, 4);
                    assert((base + j) % 4 == j % 4);
                }
            }
        }
        t += 1;
    }
    results
}

} // verus!
