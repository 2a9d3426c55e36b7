//! Continuation protocol for the kernel dirty-page walk.
//!
//! The kernel reports dirty runs into a fixed-capacity buffer, so one walk
//! may stop before the end of the requested window. The state here tracks
//! how far the window has been covered, asks for the next walk, absorbs
//! each report — validating it and coalescing its runs with what was
//! already found — and hands out the finished `DirtyPageSet` once the
//! cursor has reached the end of the window. The caller only performs the
//! walks; every decision about continuation and coalescing is made here.

use vstd::prelude::*;

use crate::scanner::{covers, range_wf, ranges_wf, total_len, PageRange};
use crate::strategy::ranges_total_len;
use crate::BenchError;

verus! {

/// The coalesced result of a completed scan: dirty ranges, ascending,
/// pairwise disjoint and non-adjacent, within a window of `window` bytes.
pub struct DirtyPageSet {
    /// The coalesced dirty ranges.
    pub ranges: Vec<PageRange>,
    /// The length in bytes of the scanned window.
    pub window: usize,
}

impl DirtyPageSet {
    /// Well-formed for page size `ps`: the ranges hold the documented
    /// invariant within the window.
    pub open spec fn wf(&self, ps: int) -> bool {
        ranges_wf(self.ranges@, ps, self.window as int)
    }

    /// The summed length of the ranges, never more than the window.
    pub fn total_len_bytes(&self, page_size: usize) -> (r: usize)
        requires
            0 < page_size,
            self.wf(page_size as int),
        ensures
            r == total_len(self.ranges@),
            r <= self.window,
    {
        proof {
            assert(self.ranges@.take(self.ranges@.len() as int) =~= self.ranges@);
        }
        ranges_total_len(&self.ranges, self.ranges.len(), self.window, page_size)
    }
}

/// The scanner's progress through one window: how far the kernel walks
/// have covered it, and the dirty ranges coalesced so far.
pub struct ScanState {
    window: usize,
    page_size: usize,
    cursor: usize,
    ranges: Vec<PageRange>,
}

impl ScanState {
    /// The window being scanned, in bytes.
    pub closed spec fn spec_window(&self) -> usize {
        self.window
    }

    /// The page size the scan was started with.
    pub closed spec fn spec_page_size(&self) -> usize {
        self.page_size
    }

    /// How many leading bytes of the window the walks have covered.
    pub closed spec fn spec_cursor(&self) -> usize {
        self.cursor
    }

    /// The dirty ranges coalesced so far.
    pub closed spec fn spec_ranges(&self) -> Seq<PageRange> {
        self.ranges@
    }

    /// The state's invariant: aligned window and cursor, and well-formed
    /// coalesced ranges within the covered prefix.
    pub open spec fn wf(&self) -> bool {
        &&& 0 < self.spec_page_size()
        &&& self.spec_window() as int % self.spec_page_size() as int == 0
        &&& self.spec_cursor() as int % self.spec_page_size() as int == 0
        &&& self.spec_cursor() <= self.spec_window()
        &&& ranges_wf(
            self.spec_ranges(),
            self.spec_page_size() as int,
            self.spec_cursor() as int,
        )
    }

    /// A valid walk report: the walk advanced the cursor by whole pages
    /// without leaving the window, and the reported runs are page-aligned,
    /// non-empty, ascending without overlap, and lie in the walked stretch.
    pub open spec fn report_wf(&self, rep: Seq<PageRange>, walk_end: int) -> bool {
        &&& self.spec_cursor() < walk_end <= self.spec_window()
        &&& walk_end % (self.spec_page_size() as int) == 0
        &&& forall|i: int|
            0 <= i < rep.len() ==> range_wf(#[trigger] rep[i], self.spec_page_size() as int)
                && self.spec_cursor() <= rep[i].start && rep[i].end <= walk_end
        &&& forall|i: int| 0 <= i < rep.len() - 1 ==> (#[trigger] rep[i]).end <= rep[i + 1].start
    }

    /// Starts a scan over `window` bytes; the window must be page-aligned.
    pub fn new(window: usize, page_size: usize) -> (r: Result<ScanState, BenchError>)
        requires
            0 < page_size,
        ensures
            r is Ok <==> window as int % page_size as int == 0,
            r matches Ok(st) ==> {
                &&& st.wf()
                &&& st.spec_window() == window
                &&& st.spec_page_size() == page_size
                &&& st.spec_cursor() == 0
                &&& st.spec_ranges() =~= Seq::<PageRange>::empty()
            },
            r is Err ==> r == Err::<ScanState, BenchError>(BenchError::UnalignedRegion),
    {
        if window % page_size != 0 {
            return Err(BenchError::UnalignedRegion);
        }
        let st = ScanState { window, page_size, cursor: 0, ranges: Vec::new() };
        proof {
            vstd::arithmetic::div_mod::lemma_small_mod(0nat, page_size as nat);
            assert(st.spec_cursor() as int % st.spec_page_size() as int == 0);
            assert(ranges_wf(st.spec_ranges(), page_size as int, 0));
            assert(st.wf());
        }
        Ok(st)
    }

    /// The stretch the next kernel walk should cover, or `None` once the
    /// window is complete.
    pub fn next_walk(&self) -> (r: Option<(usize, usize)>)
        ensures
            r is Some <==> self.spec_cursor() < self.spec_window(),
            r matches Some(w) ==> w.0 == self.spec_cursor() && w.1 == self.spec_window(),
    {
        if self.cursor < self.window {
            Some((self.cursor, self.window))
        } else {
            None
        }
    }

    /// Whether the walks have covered the whole window.
    pub fn is_complete(&self) -> (r: bool)
        ensures
            r == (self.spec_cursor() == self.spec_window()),
    {
        self.cursor == self.window
    }

    /// Absorbs one kernel walk that covered `[cursor, walk_end)` and
    /// reported the dirty runs in `reported`. A malformed report leaves the
    /// state untouched and is refused. A valid one advances the cursor and
    /// coalesces the runs into the ranges found so far: afterwards a byte
    /// is covered exactly when it was covered before or lies in a reported
    /// run.
    pub fn absorb(&mut self, reported: &Vec<PageRange>, walk_end: usize) -> (r: Result<
        (),
        BenchError,
    >)
        requires
            old(self).wf(),
        ensures
            final(self).wf(),
            final(self).spec_window() == old(self).spec_window(),
            final(self).spec_page_size() == old(self).spec_page_size(),
            r is Ok <==> old(self).report_wf(reported@, walk_end as int),
            r is Err ==> r == Err::<(), BenchError>(BenchError::MalformedScan) && *final(self)
                == *old(self),
            r is Ok ==> {
                &&& final(self).spec_cursor() == walk_end
                &&& forall|b: int|
                    #[trigger] covers(final(self).spec_ranges(), b) <==> covers(
                        old(self).spec_ranges(),
                        b,
                    ) || covers(reported@, b)
            },
    {
        let ghost ps = self.page_size as int;
        let ghost rep = reported@;
        // Validation pass: read-only, so a refusal leaves the state as it was.
        if !(self.cursor < walk_end && walk_end <= self.window && walk_end % self.page_size == 0) {
            return Err(BenchError::MalformedScan);
        }
        let m = reported.len();
        let mut i: usize = 0;
        while i < m
            invariant
                *self == *old(self),
                old(self).wf(),
                m == rep.len(),
                rep == reported@,
                ps == self.page_size as int,
                0 < self.page_size,
                i <= m,
                self.cursor < walk_end <= self.window,
                walk_end as int % ps == 0,
                forall|j: int|
                    0 <= j < i ==> range_wf(#[trigger] rep[j], ps) && self.cursor <= rep[j].start
                        && rep[j].end <= walk_end,
                forall|j: int| 0 <= j < i - 1 ==> (#[trigger] rep[j]).end <= rep[j + 1].start,
            decreases m - i,
        {
            let rr = reported[i];
            if !(rr.start % self.page_size == 0 && rr.end % self.page_size == 0 && rr.start < rr.end
                && self.cursor <= rr.start && rr.end <= walk_end) {
                return Err(BenchError::MalformedScan);
            }
            if i > 0 {
                let prev_r = reported[i - 1];
                if !(prev_r.end <= rr.start) {
                    return Err(BenchError::MalformedScan);
                }
            }
            i += 1;
        }
        proof {
            assert(old(self).report_wf(rep, walk_end as int));
        }
        // Merge pass: coalesce each reported run into the ranges found so far.
        let ghost orig = self.ranges@;
        let mut j: usize = 0;
        while j < m
            invariant
                old(self).wf(),
                old(self).report_wf(rep, walk_end as int),
                m == rep.len(),
                rep == reported@,
                ps == self.page_size as int,
                walk_end as int % ps == 0,
                self.window == old(self).spec_window(),
                self.page_size == old(self).spec_page_size(),
                self.cursor == old(self).spec_cursor(),
                orig == old(self).spec_ranges(),
                0 < self.page_size,
                j <= m,
                self.cursor < walk_end <= self.window,
                forall|t: int|
                    0 <= t < m ==> range_wf(#[trigger] rep[t], ps) && self.cursor <= rep[t].start
                        && rep[t].end <= walk_end,
                forall|t: int| 0 <= t < m - 1 ==> (#[trigger] rep[t]).end <= rep[t + 1].start,
                ranges_wf(
                    self.ranges@,
                    ps,
                    if j == 0 {
                        self.cursor as int
                    } else {
                        rep[j - 1].end as int
                    },
                ),
                forall|b: int|
                    #[trigger] covers(self.ranges@, b) <==> covers(orig, b) || covers(
                        rep.take(j as int),
                        b,
                    ),
            decreases m - j,
        {
            let rr = reported[j];
            let ghost bound = if j == 0 {
                self.cursor as int
            } else {
                rep[j as int - 1].end as int
            };
            proof {
                assert(bound <= rr.start as int);
            }
            let ghost before = self.ranges@;
            let n = self.ranges.len();
            let mut extended = false;
            if n > 0 {
                let last = self.ranges[n - 1];
                if last.end == rr.start {
                    self.ranges[n - 1] = PageRange { start: last.start, end: rr.end };
                    extended = true;
                }
            }
            if !extended {
                self.ranges.push(rr);
            }
            proof {
                lemma_merge_step(before, self.ranges@, ps, bound, rr);
                assert(rep.take(j as int + 1) =~= rep.take(j as int).push(rr));
                assert forall|b: int| #[trigger] covers(self.ranges@, b) <==> covers(orig, b)
                    || covers(rep.take(j as int + 1), b) by {
                    lemma_covers_push(rep.take(j as int), rr, b);
                }
            }
            j += 1;
        }
        self.cursor = walk_end;
        proof {
            let w = if m == 0 {
                old(self).spec_cursor() as int
            } else {
                rep[m - 1].end as int
            };
            assert(w <= walk_end);
            assert forall|t: int| 0 <= t < self.ranges@.len() implies (#[trigger] self.ranges@[t]).end
                <= walk_end by {}
            assert(rep.take(m as int) =~= rep);
        }
        Ok(())
    }

    /// Hands out the finished set once the window is fully covered.
    pub fn finish(self) -> (r: DirtyPageSet)
        requires
            self.wf(),
            self.spec_cursor() == self.spec_window(),
        ensures
            r.wf(self.spec_page_size() as int),
            r.ranges@ == self.spec_ranges(),
            r.window == self.spec_window(),
    {
        DirtyPageSet { ranges: self.ranges, window: self.window }
    }
}

/// Coverage over a range sequence extended by one more range.
proof fn lemma_covers_push(s: Seq<PageRange>, r: PageRange, b: int)
    ensures
        covers(s.push(r), b) <==> covers(s, b) || (r.start <= b < r.end),
{
    let s1 = s.push(r);
    if covers(s1, b) {
        let i = choose|i: int| 0 <= i < s1.len() && (#[trigger] s1[i]).start <= b < s1[i].end;
        if i < s.len() {
            assert(covers(s, b));
        } else {
            assert(s1[i] == r);
        }
    }
    if covers(s, b) {
        let i = choose|i: int| 0 <= i < s.len() && (#[trigger] s[i]).start <= b < s[i].end;
        assert(s1[i].start <= b < s1[i].end);
    }
    if r.start <= b < r.end {
        assert(s1[s.len() as int].start <= b < s1[s.len() as int].end);
    }
}

/// One merge step: a run starting at or after the current bound is either
/// coalesced into the last range (when adjacent) or appended (when there
/// is a gap), and afterwards a byte is covered exactly when it was before
/// or lies in the run.
proof fn lemma_merge_step(before: Seq<PageRange>, after: Seq<PageRange>, ps: int, bound: int, rr: PageRange)
    requires
        0 < ps,
        ranges_wf(before, ps, bound),
        range_wf(rr, ps),
        bound <= rr.start,
        if before.len() > 0 && before.last().end == rr.start {
            after =~= before.update(before.len() - 1, PageRange { start: before.last().start, end: rr.end })
        } else {
            after =~= before.push(rr)
        },
    ensures
        ranges_wf(after, ps, rr.end as int),
        forall|b: int|
            #[trigger] covers(after, b) <==> covers(before, b) || (rr.start <= b < rr.end),
{
    if before.len() > 0 && before.last().end == rr.start {
        let li = before.len() - 1;
        assert(range_wf(after[li], ps));
        assert forall|t: int| 0 <= t < after.len() implies range_wf(#[trigger] after[t], ps)
            && after[t].end <= rr.end by {
            if t < li {
                assert(after[t] == before[t]);
                assert(before[t].end <= bound);
            }
        }
        assert forall|t: int| 0 <= t < after.len() - 1 implies (#[trigger] after[t]).end < after[t
            + 1].start by {
            assert(after[t] == before[t]);
            if t + 1 < li {
                assert(after[t + 1] == before[t + 1]);
            } else {
                assert(after[t + 1].start == before[t + 1].start);
            }
        }
        assert forall|b: int| #[trigger] covers(after, b) <==> covers(before, b) || (rr.start <= b
            < rr.end) by {
            if covers(after, b) {
                let i = choose|i: int|
                    0 <= i < after.len() && (#[trigger] after[i]).start <= b < after[i].end;
                if i < li {
                    assert(before[i].start <= b < before[i].end);
                    assert(covers(before, b));
                } else {
                    if b < rr.start {
                        assert(before[li].start <= b < before[li].end);
                        assert(covers(before, b));
                    }
                }
            }
            if covers(before, b) {
                let i = choose|i: int|
                    0 <= i < before.len() && (#[trigger] before[i]).start <= b < before[i].end;
                if i < li {
                    assert(after[i].start <= b < after[i].end);
                } else {
                    assert(after[li].start <= b < after[li].end);
                }
                assert(covers(after, b));
            }
            if rr.start <= b < rr.end {
                assert(after[li].start <= b < after[li].end);
                assert(covers(after, b));
            }
        }
    } else {
        let li = before.len() as int;
        if before.len() > 0 {
            assert(before.last().end <= bound);
            assert(before.last().end < rr.start);
        }
        assert forall|t: int| 0 <= t < after.len() implies range_wf(#[trigger] after[t], ps)
            && after[t].end <= rr.end by {
            if t < li {
                assert(after[t] == before[t]);
                assert(before[t].end <= bound);
            } else {
                assert(after[t] == rr);
            }
        }
        assert forall|t: int| 0 <= t < after.len() - 1 implies (#[trigger] after[t]).end < after[t
            + 1].start by {
            assert(after[t] == before[t]);
            if t + 1 < li {
                assert(after[t + 1] == before[t + 1]);
            } else {
                assert(after[t + 1] == rr);
            }
        }
        assert forall|b: int| #[trigger] covers(after, b) <==> covers(before, b) || (rr.start <= b
            < rr.end) by {
            lemma_covers_push(before, rr, b);
            assert(after =~= before.push(rr));
            assert(covers(after, b) == covers(before.push(rr), b));
        }
    }
}

} // verus!
