use dirtybench::frac::DirtyFraction;
use dirtybench::region::MemoryRegion;
use dirtybench::scanner::{scan, PageRange};
use dirtybench::strategy::{
    choose_strategy, discard_advise, effective_strategy, full_zero, ranges_total_len,
    scan_and_zero, Strategy, DISCARD_MIN_BYTES, FULL_ZERO_MAX_BYTES,
};
use dirtybench::BenchError;

const PS: usize = 4096;

fn fresh_region(size: usize, num: u32, den: u32) -> MemoryRegion {
    let f = DirtyFraction::new(num, den).unwrap();
    MemoryRegion::new(size, f, false).unwrap()
}

fn range_buf(pages: usize) -> Vec<PageRange> {
    vec![PageRange { start: 0, end: 0 }; pages]
}

#[test]
fn region_creation() {
    let f = DirtyFraction::new(1, 2).unwrap();
    assert!(matches!(
        MemoryRegion::new(0, f, false),
        Err(BenchError::MapFailed)
    ));
    let region = MemoryRegion::new(8192, f, true).unwrap();
    assert_eq!(region.size(), 8192);
    for i in 0..8192 {
        assert_eq!(region.byte_at(i), 0);
    }
}

#[test]
fn make_dirty_writes_exact_prefix() {
    let mut region = fresh_region(1048576, 1, 10);
    region.make_dirty();
    assert_eq!(region.byte_at(0), 0xAA);
    assert_eq!(region.byte_at(104857), 0xAA);
    assert_eq!(region.byte_at(104858), 0);
    assert_eq!(region.byte_at(1048575), 0);
}

#[test]
fn clean_region_scans_empty() {
    // A fraction of zero dirties nothing, so the full window reports no range.
    let mut region = fresh_region(8 * PS, 0, 1);
    region.make_dirty();
    let mut buf = range_buf(8);
    let k = scan(&region, 8 * PS, PS, &mut buf).unwrap();
    assert_eq!(k, 0);
}

#[test]
fn full_region_scans_to_whole_window() {
    // A fraction of one dirties every page, so one range spans the window.
    let mut region = fresh_region(8 * PS, 1, 1);
    region.make_dirty();
    let mut buf = range_buf(8);
    let k = scan(&region, 8 * PS, PS, &mut buf).unwrap();
    assert_eq!(k, 1);
    assert_eq!(buf[0], PageRange { start: 0, end: 8 * PS });
    assert_eq!(ranges_total_len(&buf, k, 8 * PS, PS), 8 * PS);
}

#[test]
fn scan_coalesces_and_separates() {
    // Pages 0 and 1 dirty, page 2 clean, page 3 dirty, pages 4 and 5 clean:
    // two ranges, ascending, disjoint, with the adjacent pair merged.
    let mut region = fresh_region(6 * PS, 0, 1);
    region.fill_range(10, 11, 7);
    region.fill_range(PS + 100, PS + 200, 9);
    region.fill_range(3 * PS, 3 * PS + 1, 1);
    let mut buf = range_buf(6);
    let k = scan(&region, 6 * PS, PS, &mut buf).unwrap();
    assert_eq!(k, 2);
    assert_eq!(buf[0], PageRange { start: 0, end: 2 * PS });
    assert_eq!(buf[1], PageRange { start: 3 * PS, end: 4 * PS });
    assert!(buf[0].end < buf[1].start);
    assert_eq!(ranges_total_len(&buf, k, 6 * PS, PS), 3 * PS);
}

#[test]
fn scan_rejects_unaligned_window() {
    let region = fresh_region(2 * PS, 0, 1);
    let mut buf = range_buf(2);
    assert_eq!(
        scan(&region, PS + 1, PS, &mut buf),
        Err(BenchError::UnalignedRegion)
    );
}

#[test]
fn scan_window_shorter_than_region() {
    // Only the scanned window is reported; dirt past it is not.
    let mut region = fresh_region(4 * PS, 0, 1);
    region.fill_range(0, 1, 5);
    region.fill_range(3 * PS, 3 * PS + 1, 5);
    let mut buf = range_buf(4);
    let k = scan(&region, 2 * PS, PS, &mut buf).unwrap();
    assert_eq!(k, 1);
    assert_eq!(buf[0], PageRange { start: 0, end: PS });
}

#[test]
fn scan_and_zero_tenth_of_mebibyte() {
    // 1 MiB at fraction 1/10: the dirty prefix is 104858 bytes, and the
    // reported total, rounded up to the page boundary, lies within one page
    // of it: 26 pages of 4096 bytes.
    let mut region = fresh_region(1048576, 1, 10);
    region.make_dirty();
    let mut buf = range_buf(256);
    let k = scan_and_zero(&mut region, 1048576, PS, &mut buf).unwrap();
    let total = ranges_total_len(&buf, k, 1048576, PS);
    assert_eq!(total, 106496);
    assert!(total >= 104858 && total <= 104858 + PS - 1);
    for i in 0..1048576 {
        assert_eq!(region.byte_at(i), 0);
    }
}

#[test]
fn full_zero_and_scan_and_zero_agree() {
    // Identical inputs, both strategies: identical (all-zero) content over
    // the scanned window.
    let mut a = fresh_region(64 * PS, 3, 10);
    a.make_dirty();
    let mut b = fresh_region(64 * PS, 3, 10);
    b.make_dirty();
    full_zero(&mut a);
    let mut buf = range_buf(64);
    scan_and_zero(&mut b, 64 * PS, PS, &mut buf).unwrap();
    for i in 0..64 * PS {
        assert_eq!(a.byte_at(i), b.byte_at(i));
        assert_eq!(a.byte_at(i), 0);
    }
}

#[test]
fn discard_advise_reads_as_zero() {
    let mut region = fresh_region(2 * PS, 1, 1);
    region.make_dirty();
    discard_advise(&mut region);
    for i in 0..2 * PS {
        assert_eq!(region.byte_at(i), 0);
    }
}

#[test]
fn heuristic_thresholds() {
    assert_eq!(FULL_ZERO_MAX_BYTES, 128 * 1024);
    assert_eq!(DISCARD_MIN_BYTES, 1024 * 1024);
    assert_eq!(choose_strategy(4096), Strategy::FullZero);
    assert_eq!(choose_strategy(128 * 1024), Strategy::FullZero);
    assert_eq!(choose_strategy(128 * 1024 + 1), Strategy::ScanAndZero);
    assert_eq!(choose_strategy(1024 * 1024 - 1), Strategy::ScanAndZero);
    assert_eq!(choose_strategy(1024 * 1024), Strategy::DiscardAdvise);
    assert_eq!(choose_strategy(usize::MAX), Strategy::DiscardAdvise);
}

#[test]
fn degraded_strategy_without_scan_support() {
    assert_eq!(
        effective_strategy(Strategy::ScanAndZero, false),
        Strategy::DiscardAdvise
    );
    assert_eq!(
        effective_strategy(Strategy::ScanAndZero, true),
        Strategy::ScanAndZero
    );
    assert_eq!(
        effective_strategy(Strategy::FullZero, false),
        Strategy::FullZero
    );
}
