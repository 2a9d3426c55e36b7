//! Dirty-page detection over a region's content.
//!
//! The scanner reports which pages of a scanned window hold modified data,
//! as a coalesced, ascending sequence of page-aligned byte ranges: pairwise
//! disjoint, non-adjacent (adjacent dirty runs are merged), and covering
//! exactly the dirty pages of the window.

use vstd::prelude::*;

use crate::region::MemoryRegion;
use crate::BenchError;

verus! {

/// A half-open, page-aligned byte interval `[start, end)` with `end > start`:
/// one maximal run of contiguous pages sharing dirty status.
#[derive(Clone, Copy, Debug, PartialEq, Eq, Structural)]
pub struct PageRange {
    pub start: usize,
    pub end: usize,
}

/// A single well-formed range: page-aligned on both ends and non-empty.
pub open spec fn range_wf(r: PageRange, ps: int) -> bool {
    &&& r.start as int % ps == 0
    &&& r.end as int % ps == 0
    &&& r.start < r.end
}

/// A well-formed dirty range sequence for a window of `window` bytes:
/// each range page-aligned and inside the window, and consecutive ranges
/// ascending, disjoint and non-adjacent (a strict gap between them).
pub open spec fn ranges_wf(rs: Seq<PageRange>, ps: int, window: int) -> bool {
    &&& forall|i: int| 0 <= i < rs.len() ==> range_wf(#[trigger] rs[i], ps)
    &&& forall|i: int| 0 <= i < rs.len() ==> (#[trigger] rs[i]).end <= window
    &&& forall|i: int| 0 <= i < rs.len() - 1 ==> (#[trigger] rs[i]).end < rs[i + 1].start
}

/// The sum of the lengths of the ranges.
pub open spec fn total_len(rs: Seq<PageRange>) -> int
    decreases rs.len(),
{
    if rs.len() == 0 {
        0
    } else {
        total_len(rs.drop_last()) + rs.last().end - rs.last().start
    }
}

/// Whether byte offset `b` lies inside one of the ranges.
pub open spec fn covers(rs: Seq<PageRange>, b: int) -> bool {
    exists|i: int| 0 <= i < rs.len() && (#[trigger] rs[i]).start <= b < rs[i].end
}

/// Whether page `p` lies inside one of the ranges.
pub open spec fn covers_page(rs: Seq<PageRange>, ps: int, p: int) -> bool {
    covers(rs, p * ps)
}

/// Whether page `p` of `content` is dirty: some byte of it is nonzero.
pub open spec fn page_dirty(content: Seq<u8>, ps: int, p: int) -> bool {
    exists|j: int| p * ps <= j < (p + 1) * ps && 0 <= j < content.len() && content[j] != 0
}

/// Whether `rs` reports exactly the dirty pages among the first `pages`
/// pages of `content`.
pub open spec fn scan_exact(rs: Seq<PageRange>, content: Seq<u8>, ps: int, pages: int) -> bool {
    forall|p: int| 0 <= p < pages ==> (page_dirty(content, ps, p) <==> covers_page(rs, ps, p))
}

/// In a well-formed sequence the ranges ascend: every earlier range ends
/// strictly before a later one starts.
pub proof fn lemma_ranges_ordered(rs: Seq<PageRange>, ps: int, window: int, i: int, j: int)
    requires
        ranges_wf(rs, ps, window),
        0 <= i < j < rs.len(),
    ensures
        rs[i].end < rs[j].start,
    decreases j - i,
{
    if j == i + 1 {
    } else {
        lemma_ranges_ordered(rs, ps, window, i, j - 1);
        assert(rs[j - 1].end < rs[j].start);
    }
}

/// The ranges of a well-formed sequence are pairwise disjoint, so their
/// total length never exceeds the window length.
pub proof fn lemma_total_len_bounded(rs: Seq<PageRange>, ps: int, window: int)
    requires
        ranges_wf(rs, ps, window),
        0 <= window,
    ensures
        0 <= total_len(rs) <= window,
    decreases rs.len(),
{
    if rs.len() == 0 {
    } else {
        let prefix = rs.drop_last();
        let last = rs.last();
        assert forall|i: int| 0 <= i < prefix.len() implies (#[trigger] prefix[i]).end
            <= last.start by {
            assert(prefix[i] == rs[i]);
            lemma_ranges_ordered(rs, ps, window, i, rs.len() - 1);
        }
        assert(ranges_wf(prefix, ps, last.start as int));
        lemma_total_len_bounded(prefix, ps, last.start as int);
    }
}

/// An aligned offset at most `b` is at most the start of `b`'s page.
proof fn lemma_aligned_le(a: int, b: int, ps: int)
    requires
        0 < ps,
        a % ps == 0,
        0 <= a <= b,
    ensures
        a <= (b / ps) * ps,
{
    vstd::arithmetic::div_mod::lemma_fundamental_div_mod(a, ps);
    assert(a == ps * (a / ps));
    vstd::arithmetic::div_mod::lemma_div_is_ordered(a, b, ps);
    assert(a / ps <= b / ps);
    vstd::arithmetic::mul::lemma_mul_inequality(a / ps, b / ps, ps);
    assert((a / ps) * ps <= (b / ps) * ps);
    assert(ps * (a / ps) == (a / ps) * ps) by (nonlinear_arith);
}

/// An aligned offset strictly past `b` is at least the end of `b`'s page.
proof fn lemma_aligned_gt(e: int, b: int, ps: int)
    requires
        0 < ps,
        e % ps == 0,
        0 <= b < e,
    ensures
        (b / ps) * ps + ps <= e,
{
    vstd::arithmetic::div_mod::lemma_fundamental_div_mod(e, ps);
    assert(e == ps * (e / ps));
    vstd::arithmetic::div_mod::lemma_fundamental_div_mod(b, ps);
    vstd::arithmetic::div_mod::lemma_mod_pos_bound(b, ps);
    assert(ps * (b / ps) <= b);
    if e / ps <= b / ps {
        vstd::arithmetic::mul::lemma_mul_inequality(e / ps, b / ps, ps);
        assert((e / ps) * ps <= (b / ps) * ps);
        assert(ps * (e / ps) == (e / ps) * ps) by (nonlinear_arith);
        assert(ps * (b / ps) == (b / ps) * ps) by (nonlinear_arith);
        assert(e <= b);
    }
    assert(b / ps + 1 <= e / ps);
    vstd::arithmetic::mul::lemma_mul_inequality(b / ps + 1, e / ps, ps);
    assert((b / ps + 1) * ps <= (e / ps) * ps);
    assert((b / ps + 1) * ps == (b / ps) * ps + ps) by (nonlinear_arith);
    assert(ps * (e / ps) == (e / ps) * ps) by (nonlinear_arith);
}

/// Whether some byte of page `p` of `region` is nonzero.
pub fn page_has_nonzero(region: &MemoryRegion, p: usize, page_size: usize) -> (r: bool)
    requires
        0 < page_size,
        (p as int + 1) * (page_size as int) <= region@.len(),
        (p as int + 1) * (page_size as int) <= usize::MAX,
    ensures
        r == page_dirty(region@, page_size as int, p as int),
{
    proof {
        assert((p as int) * (page_size as int) + page_size as int == (p as int + 1) * (
        page_size as int)) by (nonlinear_arith);
        assert((p as int) * (page_size as int) >= 0) by (nonlinear_arith)
            requires
                p >= 0 && page_size > 0,
        ;
    }
    let start: usize = p * page_size;
    let pend: usize = start + page_size;
    let mut j: usize = start;
    while j < pend
        invariant
            start <= j <= pend,
            pend <= region@.len(),
            start == (p as int) * (page_size as int),
            pend == (p as int + 1) * (page_size as int),
            forall|k: int| start <= k < j ==> region@[k] == 0,
        decreases pend - j,
    {
        if region.byte_at(j) != 0 {
            return true;
        }
        j += 1;
    }
    false
}

/// Scans the first `length` bytes of `region` for dirty pages, filling the
/// caller-supplied `buf` with coalesced dirty ranges and returning how many
/// of its leading slots are valid. The unfilled tail of `buf` is never
/// touched. `length` must be page-aligned, or `UnalignedRegion` is returned.
pub fn scan(
    region: &MemoryRegion,
    length: usize,
    page_size: usize,
    buf: &mut Vec<PageRange>,
) -> (r: Result<usize, BenchError>)
    requires
        0 < page_size,
        length <= region@.len(),
        old(buf).len() >= length as int / page_size as int,
    ensures
        final(buf).len() == old(buf).len(),
        r is Ok <==> length as int % page_size as int == 0,
        r is Err ==> r == Err::<usize, BenchError>(BenchError::UnalignedRegion) && final(buf)@
            == old(buf)@,
        r matches Ok(k) ==> {
            &&& k <= length as int / page_size as int
            &&& ranges_wf(final(buf)@.take(k as int), page_size as int, length as int)
            &&& scan_exact(
                final(buf)@.take(k as int),
                region@,
                page_size as int,
                length as int / page_size as int,
            )
            &&& forall|i: int| k <= i < final(buf).len() ==> final(buf)@[i] == old(buf)@[i]
        },
{
    if length % page_size != 0 {
        return Err(BenchError::UnalignedRegion);
    }
    let pages: usize = length / page_size;
    proof {
        vstd::arithmetic::div_mod::lemma_fundamental_div_mod(length as int, page_size as int);
        assert((page_size as int) * (pages as int) == (pages as int) * (page_size as int))
            by (nonlinear_arith);
    }
    let ghost ps = page_size as int;
    let mut k: usize = 0;
    let mut p: usize = 0;
    while p < pages
        invariant
            0 < page_size,
            ps == page_size as int,
            pages == length as int / ps,
            (pages as int) * ps == length,
            length <= region@.len(),
            buf.len() == old(buf).len(),
            buf.len() >= pages,
            k <= p <= pages,
            ranges_wf(buf@.take(k as int), ps, (p as int) * ps),
            scan_exact(buf@.take(k as int), region@, ps, p as int),
            forall|i: int| k <= i < buf.len() ==> buf@[i] == old(buf)@[i],
        decreases pages - p,
    {
        proof {
            vstd::arithmetic::mul::lemma_mul_inequality(p as int + 1, pages as int, ps);
            assert((p as int) * ps + ps == (p as int + 1) * ps) by (nonlinear_arith);
            assert((p as int) * ps >= 0) by (nonlinear_arith)
                requires
                    p >= 0 && ps > 0,
            ;
            vstd::arithmetic::div_mod::lemma_mod_multiples_basic(p as int, ps);
            vstd::arithmetic::div_mod::lemma_mod_multiples_basic(p as int + 1, ps);
            assert(((p as int) * ps) % ps == 0);
            assert(((p as int + 1) * ps) % ps == 0);
        }
        let page_start: usize = p * page_size;
        let page_end: usize = page_start + page_size;
        let dirty = page_has_nonzero(region, p, page_size);
        let ghost prev = buf@.take(k as int);
        proof {
            assert forall|q: int| 0 <= q < p implies #[trigger] (q * ps) < (p as int) * ps by {
                vstd::arithmetic::mul::lemma_mul_strict_inequality(q, p as int, ps);
            }
        }
        if dirty {
            let extend = k > 0 && buf[k - 1].end == page_start;
            if extend {
                let last = buf[k - 1];
                let merged = PageRange { start: last.start, end: page_end };
                buf[k - 1] = merged;
                proof {
                    let cur = buf@.take(k as int);
                    assert(cur =~= prev.update(k as int - 1, merged));
                    lemma_scan_step_extend(prev, cur, region@, ps, p as int, page_end as int);
                }
            } else {
                let fresh = PageRange { start: page_start, end: page_end };
                buf[k] = fresh;
                proof {
                    let cur = buf@.take(k as int + 1);
                    assert(cur =~= prev.push(fresh));
                    lemma_scan_step_push(prev, cur, region@, ps, p as int);
                }
                k += 1;
            }
        } else {
            proof {
                assert(!covers_page(prev, ps, p as int)) by {
                    assert forall|i: int| 0 <= i < prev.len() implies !((#[trigger] prev[i]).start
                        <= (p as int) * ps < prev[i].end) by {
                        assert(prev[i].end <= (p as int) * ps);
                    }
                }
            }
        }
        p += 1;
    }
    Ok(k)
}

/// One scan step over a dirty page adjacent to the last range found: the
/// last range is extended to the end of the page, keeping the range
/// sequence well-formed and exact.
proof fn lemma_scan_step_extend(
    prev: Seq<PageRange>,
    cur: Seq<PageRange>,
    content: Seq<u8>,
    ps: int,
    p: int,
    new_end: int,
)
    requires
        0 < ps,
        0 <= p,
        prev.len() >= 1,
        ranges_wf(prev, ps, p * ps),
        scan_exact(prev, content, ps, p),
        page_dirty(content, ps, p),
        prev.last().end == p * ps,
        new_end == (p + 1) * ps,
        cur.len() == prev.len(),
        forall|i: int| 0 <= i < prev.len() - 1 ==> cur[i] == prev[i],
        cur.last().start == prev.last().start,
        cur.last().end == new_end,
    ensures
        ranges_wf(cur, ps, (p + 1) * ps),
        scan_exact(cur, content, ps, p + 1),
{
    let li = prev.len() - 1;
    assert(p * ps + ps == (p + 1) * ps) by (nonlinear_arith);
    vstd::arithmetic::div_mod::lemma_mod_multiples_basic(p + 1, ps);
    assert(range_wf(cur[li], ps));
    assert(ranges_wf(cur, ps, (p + 1) * ps));
    assert forall|q: int| 0 <= q < p + 1 implies (page_dirty(content, ps, q) <==> covers_page(
        cur,
        ps,
        q,
    )) by {
        if q < p {
            vstd::arithmetic::mul::lemma_mul_strict_inequality(q, p, ps);
            assert(q * ps < p * ps);
            vstd::arithmetic::mul::lemma_mul_nonnegative(q, ps);
            if covers(prev, q * ps) {
                let i = choose|i: int|
                    0 <= i < prev.len() && (#[trigger] prev[i]).start <= q * ps < prev[i].end;
                assert(cur[i].start <= q * ps < cur[i].end);
            }
            if covers(cur, q * ps) {
                let i = choose|i: int|
                    0 <= i < cur.len() && (#[trigger] cur[i]).start <= q * ps < cur[i].end;
                assert(prev[i].start <= q * ps < prev[i].end);
            }
        } else {
            assert(cur[li].start <= p * ps < cur[li].end);
            assert(covers(cur, p * ps));
        }
    }
}

/// One scan step over a dirty page with a gap before it (or no range yet):
/// a fresh one-page range is appended, keeping the range sequence
/// well-formed and exact.
proof fn lemma_scan_step_push(
    prev: Seq<PageRange>,
    cur: Seq<PageRange>,
    content: Seq<u8>,
    ps: int,
    p: int,
)
    requires
        0 < ps,
        0 <= p,
        ranges_wf(prev, ps, p * ps),
        scan_exact(prev, content, ps, p),
        page_dirty(content, ps, p),
        prev.len() == 0 || prev.last().end != p * ps,
        cur.len() == prev.len() + 1,
        forall|i: int| 0 <= i < prev.len() ==> cur[i] == prev[i],
        cur.last().start == p * ps,
        cur.last().end == (p + 1) * ps,
    ensures
        ranges_wf(cur, ps, (p + 1) * ps),
        scan_exact(cur, content, ps, p + 1),
{
    let li = prev.len() as int;
    assert(p * ps + ps == (p + 1) * ps) by (nonlinear_arith);
    vstd::arithmetic::mul::lemma_mul_nonnegative(p, ps);
    vstd::arithmetic::div_mod::lemma_mod_multiples_basic(p, ps);
    vstd::arithmetic::div_mod::lemma_mod_multiples_basic(p + 1, ps);
    assert(range_wf(cur[li], ps));
    if prev.len() > 0 {
        assert(prev.last().end <= p * ps);
        assert(cur[li - 1].end < cur[li].start);
    }
    assert(ranges_wf(cur, ps, (p + 1) * ps));
    assert forall|q: int| 0 <= q < p + 1 implies (page_dirty(content, ps, q) <==> covers_page(
        cur,
        ps,
        q,
    )) by {
        if q < p {
            vstd::arithmetic::mul::lemma_mul_strict_inequality(q, p, ps);
            assert(q * ps < p * ps);
            vstd::arithmetic::mul::lemma_mul_nonnegative(q, ps);
            if covers(prev, q * ps) {
                let i = choose|i: int|
                    0 <= i < prev.len() && (#[trigger] prev[i]).start <= q * ps < prev[i].end;
                assert(cur[i].start <= q * ps < cur[i].end);
            }
            if covers(cur, q * ps) {
                let i = choose|i: int|
                    0 <= i < cur.len() && (#[trigger] cur[i]).start <= q * ps < cur[i].end;
                assert(i < li);
                assert(prev[i].start <= q * ps < prev[i].end);
            }
        } else {
            assert(cur[li].start <= p * ps < cur[li].end);
            assert(covers(cur, p * ps));
        }
    }
}

/// With page-aligned ranges, a byte is covered exactly when its page is.
pub proof fn lemma_covers_byte_iff_page(rs: Seq<PageRange>, ps: int, window: int, b: int)
    requires
        ranges_wf(rs, ps, window),
        0 < ps,
        0 <= b,
    ensures
        covers(rs, b) <==> covers_page(rs, ps, b / ps),
{
    let p = b / ps;
    vstd::arithmetic::div_mod::lemma_fundamental_div_mod(b, ps);
    vstd::arithmetic::div_mod::lemma_mod_pos_bound(b, ps);
    assert(p * ps <= b < p * ps + ps);
    if covers(rs, b) {
        let i = choose|i: int| 0 <= i < rs.len() && (#[trigger] rs[i]).start <= b < rs[i].end;
        lemma_aligned_le(rs[i].start as int, b, ps);
        assert(rs[i].start <= p * ps < rs[i].end);
    }
    if covers_page(rs, ps, p) {
        let i = choose|i: int| 0 <= i < rs.len() && (#[trigger] rs[i]).start <= p * ps < rs[i].end;
        lemma_aligned_gt(rs[i].end as int, p * ps, ps);
        vstd::arithmetic::div_mod::lemma_div_multiples_vanish(p, ps);
        assert((p * ps) / ps == p);
        assert(b < p * ps + ps <= rs[i].end);
        assert(rs[i].start <= b < rs[i].end);
    }
}

/// A window with no nonzero byte scans to an empty range sequence: an exact,
/// well-formed report over clean content holds no range at all.
pub proof fn lemma_clean_window_scan_empty(
    rs: Seq<PageRange>,
    content: Seq<u8>,
    ps: int,
    pages: int,
)
    requires
        0 < ps,
        0 <= pages,
        ranges_wf(rs, ps, pages * ps),
        scan_exact(rs, content, ps, pages),
        forall|j: int| 0 <= j < content.len() ==> content[j] == 0,
    ensures
        rs.len() == 0,
{
    if rs.len() > 0 {
        let r0 = rs[0];
        let p = r0.start as int / ps;
        vstd::arithmetic::div_mod::lemma_fundamental_div_mod(r0.start as int, ps);
        assert(r0.start as int == ps * p);
        assert(ps * p == p * ps) by (nonlinear_arith);
        assert(p >= 0) by {
            vstd::arithmetic::div_mod::lemma_div_pos_is_pos(r0.start as int, ps);
        }
        if p >= pages {
            vstd::arithmetic::mul::lemma_mul_inequality(pages, p, ps);
            assert(pages * ps <= p * ps);
            assert(r0.end <= pages * ps);
            assert(false);
        }
        assert(rs[0].start <= p * ps < rs[0].end);
        assert(covers_page(rs, ps, p));
        assert(page_dirty(content, ps, p));
        let j = choose|j: int|
            p * ps <= j < (p + 1) * ps && 0 <= j < content.len() && content[j] != 0;
        assert(content[j] == 0);
        assert(false);
    }
}

/// A window whose every page is dirty scans to a single range covering the
/// whole window, so the reported total length equals the window length.
pub proof fn lemma_full_window_scan_total(
    rs: Seq<PageRange>,
    content: Seq<u8>,
    ps: int,
    pages: int,
)
    requires
        0 < ps,
        0 < pages,
        ranges_wf(rs, ps, pages * ps),
        scan_exact(rs, content, ps, pages),
        forall|p: int| 0 <= p < pages ==> page_dirty(content, ps, p),
    ensures
        rs.len() == 1,
        rs[0].start == 0,
        rs[0].end == pages * ps,
        total_len(rs) == pages * ps,
{
    vstd::arithmetic::mul::lemma_mul_strictly_positive(pages, ps);
    assert(page_dirty(content, ps, 0));
    assert(covers_page(rs, ps, 0));
    assert(0 * ps == 0) by (nonlinear_arith);
    let i0 = choose|i: int| 0 <= i < rs.len() && (#[trigger] rs[i]).start <= 0 < rs[i].end;
    assert(rs[i0].start == 0);
    if i0 > 0 {
        lemma_ranges_ordered(rs, ps, pages * ps, 0, i0);
        assert(rs[0].end < rs[i0].start);
        assert(false);
    }
    assert(rs[0].start == 0);
    let e = rs[0].end as int;
    if e < pages * ps {
        let q = e / ps;
        vstd::arithmetic::div_mod::lemma_fundamental_div_mod(e, ps);
        assert(e == ps * q);
        assert(ps * q == q * ps) by (nonlinear_arith);
        assert(q >= 0) by {
            vstd::arithmetic::div_mod::lemma_div_pos_is_pos(e, ps);
        }
        if q >= pages {
            vstd::arithmetic::mul::lemma_mul_inequality(pages, q, ps);
            assert(false);
        }
        assert(page_dirty(content, ps, q));
        assert(covers_page(rs, ps, q));
        let i = choose|i: int| 0 <= i < rs.len() && (#[trigger] rs[i]).start <= q * ps < rs[i].end;
        if i == 0 {
            assert(q * ps < e);
            assert(false);
        } else {
            lemma_ranges_ordered(rs, ps, pages * ps, 0, i);
            assert(rs[i].start > e);
            assert(false);
        }
    }
    assert(rs[0].end == pages * ps);
    if rs.len() >= 2 {
        assert(rs[0].end < rs[1].start);
        assert(rs[1].end <= pages * ps);
        assert(false);
    }
    assert(rs.last() == rs[0]);
    assert(rs.drop_last() =~= Seq::<PageRange>::empty());
    assert(total_len(Seq::<PageRange>::empty()) == 0);
    assert(total_len(rs) == total_len(rs.drop_last()) + rs.last().end - rs.last().start);
}

} // verus!
