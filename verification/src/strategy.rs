//! Reclamation strategies over one already-dirtied region, and the
//! size-based heuristic that picks among them.

use vstd::prelude::*;

use crate::region::MemoryRegion;
use crate::scanner::{
    covers, lemma_covers_byte_iff_page, page_dirty, range_wf, ranges_wf, scan, scan_exact,
    total_len, PageRange,
};
use crate::BenchError;

verus! {

/// Which reclamation algorithm produced a result. Results of the heuristic
/// are re-tagged `Heuristic` regardless of the branch taken.
#[derive(Clone, Copy, Debug, PartialEq, Eq, Structural)]
pub enum Strategy {
    FullZero,
    DiscardAdvise,
    ScanAndZero,
    Heuristic,
}

/// Largest region size for which the heuristic picks `FullZero`: 128 KiB.
pub const FULL_ZERO_MAX_BYTES: usize = 128 * 1024;

/// Smallest region size for which the heuristic picks `DiscardAdvise`: 1 MiB.
pub const DISCARD_MIN_BYTES: usize = 1024 * 1024;

/// The strategy the heuristic picks for a region of `size` bytes, given the
/// two thresholds.
pub open spec fn chosen_strategy_with(size: int, full_zero_max: int, discard_min: int) -> Strategy {
    if size <= full_zero_max {
        Strategy::FullZero
    } else if size >= discard_min {
        Strategy::DiscardAdvise
    } else {
        Strategy::ScanAndZero
    }
}

/// The strategy the heuristic picks for a region of `size` bytes at the
/// fixed thresholds.
pub open spec fn chosen_strategy(size: int) -> Strategy {
    chosen_strategy_with(size, FULL_ZERO_MAX_BYTES as int, DISCARD_MIN_BYTES as int)
}

/// Size-based dispatch with caller-supplied thresholds: at most
/// `full_zero_max` bytes the syscall overhead dominates, so zero directly;
/// from `discard_min` bytes on, drop the backing instead of keeping the
/// region resident; in between, scan and zero selectively.
pub fn choose_strategy_with(size: usize, full_zero_max: usize, discard_min: usize) -> (s: Strategy)
    ensures
        s == chosen_strategy_with(size as int, full_zero_max as int, discard_min as int),
{
    if size <= full_zero_max {
        Strategy::FullZero
    } else if size >= discard_min {
        Strategy::DiscardAdvise
    } else {
        Strategy::ScanAndZero
    }
}

/// Size-based dispatch at the fixed thresholds: `FullZero` up to and
/// including 128 KiB, `DiscardAdvise` from 1 MiB on, `ScanAndZero` between.
pub fn choose_strategy(size: usize) -> (s: Strategy)
    ensures
        s == chosen_strategy(size as int),
{
    choose_strategy_with(size, FULL_ZERO_MAX_BYTES, DISCARD_MIN_BYTES)
}

/// The strategy actually run once the scan capability is known: without
/// kernel support for the dirty-page query, `ScanAndZero` degrades to
/// `DiscardAdvise` rather than aborting the benchmark.
pub fn effective_strategy(chosen: Strategy, scan_supported: bool) -> (s: Strategy)
    ensures
        s == if chosen is ScanAndZero && !scan_supported {
            Strategy::DiscardAdvise
        } else {
            chosen
        },
{
    match chosen {
        Strategy::ScanAndZero => if scan_supported {
            Strategy::ScanAndZero
        } else {
            Strategy::DiscardAdvise
        },
        _ => chosen,
    }
}

/// Writes zero across the entire region, regardless of which pages are
/// dirty: the baseline, with memory traffic proportional to the region size
/// and no kernel calls.
pub fn full_zero(region: &mut MemoryRegion)
    ensures
        final(region)@.len() == old(region)@.len(),
        forall|b: int| 0 <= b < old(region)@.len() ==> final(region)@[b] == 0,
        final(region).spec_dirty_fraction() == old(region).spec_dirty_fraction(),
{
    region.fill(0);
}

/// Asks the OS to drop the physical backing of the whole region at once;
/// later reads fault in fresh zero pages. The model records the content a
/// reader would observe afterwards: zero throughout. Physical reclamation
/// is asynchronous and not modelled.
pub fn discard_advise(region: &mut MemoryRegion)
    ensures
        final(region)@.len() == old(region)@.len(),
        forall|b: int| 0 <= b < old(region)@.len() ==> final(region)@[b] == 0,
        final(region).spec_dirty_fraction() == old(region).spec_dirty_fraction(),
{
    region.fill(0);
}

/// Writes zero across the first `k` ranges of `buf`, leaving every byte
/// outside them untouched.
pub fn zero_ranges(region: &mut MemoryRegion, buf: &Vec<PageRange>, k: usize)
    requires
        k <= buf.len(),
        forall|i: int|
            0 <= i < k ==> (#[trigger] buf@[i]).start <= buf@[i].end && buf@[i].end <= old(
                region,
            )@.len(),
    ensures
        final(region)@.len() == old(region)@.len(),
        forall|b: int|
            0 <= b < old(region)@.len() ==> final(region)@[b] == if covers(
                buf@.take(k as int),
                b,
            ) {
                0u8
            } else {
                old(region)@[b]
            },
        final(region).spec_dirty_fraction() == old(region).spec_dirty_fraction(),
{
    let mut i: usize = 0;
    while i < k
        invariant
            i <= k <= buf.len(),
            forall|j: int|
                0 <= j < k ==> (#[trigger] buf@[j]).start <= buf@[j].end && buf@[j].end <= old(
                    region,
                )@.len(),
            region@.len() == old(region)@.len(),
            forall|b: int|
                0 <= b < old(region)@.len() ==> region@[b] == if covers(buf@.take(i as int), b) {
                    0u8
                } else {
                    old(region)@[b]
                },
            region.spec_dirty_fraction() == old(region).spec_dirty_fraction(),
        decreases k - i,
    {
        let r = buf[i];
        let ghost before = region@;
        region.fill_range(r.start, r.end, 0);
        proof {
            assert(buf@.take(i as int + 1) =~= buf@.take(i as int).push(r));
            assert forall|b: int| 0 <= b < old(region)@.len() implies region@[b] == (if covers(
                buf@.take(i as int + 1),
                b,
            ) {
                0u8
            } else {
                old(region)@[b]
            }) by {
                let s = buf@.take(i as int);
                let s1 = buf@.take(i as int + 1);
                if r.start <= b < r.end {
                    assert(s1[i as int].start <= b < s1[i as int].end);
                    assert(covers(s1, b));
                } else {
                    assert(region@[b] == before[b]);
                    if covers(s, b) {
                        let w = choose|w: int|
                            0 <= w < s.len() && (#[trigger] s[w]).start <= b < s[w].end;
                        assert(s1[w].start <= b < s1[w].end);
                        assert(covers(s1, b));
                    } else if covers(s1, b) {
                        let w = choose|w: int|
                            0 <= w < s1.len() && (#[trigger] s1[w]).start <= b < s1[w].end;
                        assert(w < s.len() || s1[w] == r);
                        if w < s.len() {
                            assert(covers(s, b));
                            assert(false);
                        }
                        assert(false);
                    }
                }
            }
        }
        i += 1;
    }
}

/// Scans the window for dirty pages, then writes zero only across the
/// reported ranges. Every byte of the window reads as zero afterwards —
/// clean pages held nothing but zero already — and the rest of the region
/// is untouched. Returns how many leading slots of `buf` hold the report.
pub fn scan_and_zero(
    region: &mut MemoryRegion,
    length: usize,
    page_size: usize,
    buf: &mut Vec<PageRange>,
) -> (r: Result<usize, BenchError>)
    requires
        0 < page_size,
        length <= old(region)@.len(),
        old(buf).len() >= length as int / page_size as int,
    ensures
        final(region)@.len() == old(region)@.len(),
        final(region).spec_dirty_fraction() == old(region).spec_dirty_fraction(),
        final(buf).len() == old(buf).len(),
        r is Ok <==> length as int % page_size as int == 0,
        r is Err ==> r == Err::<usize, BenchError>(BenchError::UnalignedRegion) && final(region)@
            == old(region)@ && final(buf)@ == old(buf)@,
        r matches Ok(k) ==> {
            &&& k <= length as int / page_size as int
            &&& ranges_wf(final(buf)@.take(k as int), page_size as int, length as int)
            &&& scan_exact(
                final(buf)@.take(k as int),
                old(region)@,
                page_size as int,
                length as int / page_size as int,
            )
            &&& forall|b: int| 0 <= b < length ==> final(region)@[b] == 0
            &&& forall|b: int|
                length <= b < old(region)@.len() ==> final(region)@[b] == old(region)@[b]
        },
{
    let k = match scan(region, length, page_size, buf) {
        Ok(k) => k,
        Err(e) => {
            return Err(e);
        },
    };
    let ghost ps = page_size as int;
    let ghost pages = length as int / ps;
    let ghost rs = buf@.take(k as int);
    proof {
        vstd::arithmetic::div_mod::lemma_fundamental_div_mod(length as int, ps);
        assert(ps * pages == pages * ps) by (nonlinear_arith);
        assert(pages * ps == length);
        assert forall|i: int| 0 <= i < k implies (#[trigger] buf@[i]).start <= buf@[i].end
            && buf@[i].end <= region@.len() by {
            assert(rs[i] == buf@[i]);
            assert(range_wf(rs[i], ps));
            assert(rs[i].end <= length);
        }
    }
    zero_ranges(region, buf, k);
    proof {
        assert forall|b: int| 0 <= b < length implies region@[b] == 0 by {
            if !covers(rs, b) {
                let p = b / ps;
                vstd::arithmetic::div_mod::lemma_fundamental_div_mod(b, ps);
                vstd::arithmetic::div_mod::lemma_mod_pos_bound(b, ps);
                assert(ps * p <= b < ps * p + ps);
                assert(ps * p == p * ps) by (nonlinear_arith);
                assert(p >= 0) by {
                    vstd::arithmetic::div_mod::lemma_div_pos_is_pos(b, ps);
                }
                if p >= pages {
                    vstd::arithmetic::mul::lemma_mul_inequality(pages, p, ps);
                    assert(pages * ps <= p * ps);
                    assert(false);
                }
                lemma_covers_byte_iff_page(rs, ps, length as int, b);
                assert(!page_dirty(old(region)@, ps, p));
                assert(p * ps <= b < (p + 1) * ps && 0 <= b < old(region)@.len()) by {
                    assert(p * ps + ps == (p + 1) * ps) by (nonlinear_arith);
                }
                assert(old(region)@[b] == 0);
            }
        }
        assert forall|b: int| length <= b < old(region)@.len() implies region@[b] == old(
            region,
        )@[b] by {
            if covers(rs, b) {
                let w = choose|w: int| 0 <= w < rs.len() && (#[trigger] rs[w]).start <= b < rs[w].end;
                assert(rs[w].end <= length);
                assert(false);
            }
        }
    }
    Ok(k)
}

/// `FullZero` and `ScanAndZero` leave identical final content — zero on
/// every byte — over the scanned window, however their timings differ.
/// `a` is a final region view `full_zero` allows, `b` one `scan_and_zero`
/// allows for the same window; the two agree across the whole window.
pub proof fn lemma_full_zero_scan_and_zero_agree(a: Seq<u8>, b: Seq<u8>, window: int)
    requires
        0 <= window <= a.len(),
        window <= b.len(),
        forall|i: int| 0 <= i < a.len() ==> a[i] == 0,
        forall|i: int| 0 <= i < window ==> b[i] == 0,
    ensures
        a.subrange(0, window) =~= b.subrange(0, window),
        forall|i: int| 0 <= i < window ==> a[i] == b[i],
{
    assert forall|i: int| 0 <= i < window implies a[i] == b[i] by {}
}

/// The total length in bytes of the first `k` ranges of `buf`.
pub fn ranges_total_len(buf: &Vec<PageRange>, k: usize, window: usize, page_size: usize) -> (r:
    usize)
    requires
        k <= buf.len(),
        0 < page_size,
        ranges_wf(buf@.take(k as int), page_size as int, window as int),
    ensures
        r == total_len(buf@.take(k as int)),
        r <= window,
{
    proof {
        crate::scanner::lemma_total_len_bounded(
            buf@.take(k as int),
            page_size as int,
            window as int,
        );
    }
    let mut total: usize = 0;
    let mut i: usize = 0;
    while i < k
        invariant
            i <= k <= buf.len(),
            0 < page_size,
            ranges_wf(buf@.take(k as int), page_size as int, window as int),
            total == total_len(buf@.take(i as int)),
            total <= window,
        decreases k - i,
    {
        proof {
            let s = buf@.take(i as int + 1);
            let whole = buf@.take(k as int);
            assert(s.drop_last() =~= buf@.take(i as int));
            assert(s.last() == whole[i as int]);
            assert forall|a: int| 0 <= a < s.len() implies range_wf(#[trigger] s[a], page_size as int)
                && s[a].end <= window by {
                assert(s[a] == whole[a]);
            }
            assert forall|a: int| 0 <= a < s.len() - 1 implies (#[trigger] s[a]).end < s[a
                + 1].start by {
                assert(s[a] == whole[a] && s[a + 1] == whole[a + 1]);
            }
            assert(ranges_wf(s, page_size as int, window as int));
            crate::scanner::lemma_total_len_bounded(s, page_size as int, window as int);
        }
        let r = buf[i];
        total = total + (r.end - r.start);
        i += 1;
    }
    total
}

} // verus!
