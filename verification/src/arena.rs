use vstd::prelude::*;
use vstd::arithmetic::power2::{pow2, lemma_pow2_pos};
use vstd::arithmetic::div_mod::{lemma_fundamental_div_mod, lemma_mod_multiples_basic};
use vstd::arithmetic::mul::lemma_mul_is_commutative;
use vstd::bits::{low_bits_mask, lemma_u64_low_bits_mask_is_mod};

verus! {

/// A run of `count` free elements from `start`.
#[derive(Debug, Clone, Copy, PartialEq, Eq)]
pub struct FreeSpan {
    pub start: u32,
    pub count: u32,
}

/// One past the last element of a span.
pub open spec fn span_end(s: FreeSpan) -> int {
    s.start + s.count
}

/// Spans ordered by start, apart from each other (touching allowed), and
/// ending within the 32-bit range.
pub open spec fn spans_wf(s: Seq<FreeSpan>) -> bool {
    &&& forall|k: int| 0 <= k < s.len() ==> span_end(#[trigger] s[k]) <= u32::MAX
    &&& forall|i: int, j: int|
        0 <= i < j < s.len() ==> (#[trigger] s[i]).start < (#[trigger] s[j]).start && span_end(s[i]) <= s[j].start
}

/// Whether element `e` lies in one of the spans.
pub open spec fn is_free(s: Seq<FreeSpan>, e: int) -> bool {
    exists|k: int| 0 <= k < s.len() && (#[trigger] s[k]).start <= e < span_end(s[k])
}

/// Number of elements in the spans.
pub open spec fn free_total(s: Seq<FreeSpan>) -> nat
    decreases s.len(),
{
    if s.len() == 0 {
        0
    } else {
        free_total(s.drop_last()) + s.last().count as nat
    }
}

/// Span `k` can hold `count` elements.
pub open spec fn fits_request(s: Seq<FreeSpan>, k: int, count: u32) -> bool {
    0 <= k < s.len() && s[k].count >= count
}

/// Span `k` is the first among those that hold `count` elements with the
/// least room to spare.
pub open spec fn is_best_fit(s: Seq<FreeSpan>, count: u32, k: int) -> bool {
    &&& fits_request(s, k, count)
    &&& forall|j: int| #[trigger] fits_request(s, j, count) ==> s[k].count <= s[j].count
    &&& forall|j: int| 0 <= j < k && #[trigger] fits_request(s, j, count) ==> s[k].count < s[j].count
}

/// Some span holds `count` elements.
pub open spec fn has_fit(s: Seq<FreeSpan>, count: u32) -> bool {
    exists|k: int| #[trigger] fits_request(s, k, count)
}

/// The spans after `count` elements are taken from the front of span `k`.
pub open spec fn claimed(s: Seq<FreeSpan>, k: int, count: u32) -> Seq<FreeSpan> {
    if s[k].count == count {
        s.remove(k)
    } else {
        s.update(k, FreeSpan { start: (s[k].start + count) as u32, count: (s[k].count - count) as u32 })
    }
}

/// Number of spans that start before `start`.
pub open spec fn starts_before(s: Seq<FreeSpan>, start: u32) -> nat
    decreases s.len(),
{
    if s.len() == 0 {
        0
    } else {
        starts_before(s.drop_last(), start) + if s.last().start < start {
            1nat
        } else {
            0nat
        }
    }
}

/// The spans after `count` elements from `start` are given back: the run
/// goes in after the spans that start before it and joins a neighbour that
/// it touches.
pub open spec fn recycled(s: Seq<FreeSpan>, start: u32, count: u32) -> Seq<FreeSpan> {
    if count == 0 {
        s
    } else {
        let k = starts_before(s, start) as int;
        let left = k > 0 && span_end(s[k - 1]) == start;
        let right = k < s.len() && start + count == s[k].start;
        if left && right {
            s.update(
                k - 1,
                FreeSpan { start: s[k - 1].start, count: (s[k - 1].count + count + s[k].count) as u32 },
            ).remove(k)
        } else if left {
            s.update(k - 1, FreeSpan { start: s[k - 1].start, count: (s[k - 1].count + count) as u32 })
        } else if right {
            s.update(k, FreeSpan { start, count: (s[k].count + count) as u32 })
        } else {
            s.insert(k, FreeSpan { start, count })
        }
    }
}

/// The run of `count` elements from `start` ends within the 32-bit range
/// and lies strictly apart from every free span: it is a run that was
/// handed out and not yet given back.
pub open spec fn recyclable(s: Seq<FreeSpan>, start: u32, count: u32) -> bool {
    &&& start + count <= u32::MAX
    &&& forall|k: int|
        0 <= k < s.len() ==> (span_end(#[trigger] s[k]) <= start && s[k].start < start) || start + count
            <= s[k].start
}

/// Every free span holds at least one element.
pub open spec fn spans_positive(s: Seq<FreeSpan>) -> bool {
    forall|k: int| 0 <= k < s.len() ==> (#[trigger] s[k]).count > 0
}

/// Hands out runs of consecutive elements of a fixed-size arena and takes
/// them back, keeping the free runs ordered and merged.
#[derive(Debug)]
pub struct ElementArenaAllocator {
    freeSpans: Vec<FreeSpan>,
}

impl ElementArenaAllocator {
    /// The free spans, ordered by start.
    pub closed spec fn spans(&self) -> Seq<FreeSpan> {
        self.freeSpans@
    }

    /// The free spans are ordered and apart.
    pub open spec fn wf(&self) -> bool {
        spans_wf(self.spans())
    }

    /// An arena of `capacity` elements, all free.
    pub fn new(capacity: u32) -> (a: ElementArenaAllocator)
        ensures
            a.wf(),
            a.spans() == seq![FreeSpan { start: 0, count: capacity }],
    {
        let mut spans: Vec<FreeSpan> = Vec::new();
        spans.push(FreeSpan { start: 0, count: capacity });
        proof {
            assert(spans@ =~= seq![FreeSpan { start: 0, count: capacity }]);
        }
        ElementArenaAllocator { freeSpans: spans }
    }

    /// Takes `count` elements from the front of the best-fitting free span
    /// (the first with the least room to spare) and returns where they
    /// start; `Some(0)` for an empty request, `None` when no span is large
    /// enough.
    pub fn claim(&mut self, count: u32) -> (res: Option<u32>)
        requires
            old(self).wf(),
        ensures
            final(self).wf(),
            count == 0 ==> res == Some(0u32) && final(self).spans() == old(self).spans(),
            count > 0 && !has_fit(old(self).spans(), count) ==> res is None && final(self).spans()
                == old(self).spans(),
            count > 0 && has_fit(old(self).spans(), count) ==> res is Some,
            count > 0 ==> (res matches Some(r) ==> exists|k: int|
                #![trigger old(self).spans()[k]]
                is_best_fit(old(self).spans(), count, k) && r == old(self).spans()[k].start
                    && final(self).spans() == claimed(old(self).spans(), k, count)),
            count > 0 ==> (res matches Some(r) ==> {
                &&& r + count <= u32::MAX
                &&& free_total(final(self).spans()) + count == free_total(old(self).spans())
                &&& forall|e: int| is_free(final(self).spans(), e)
                    <==> (is_free(old(self).spans(), e) && !(r <= e < r + count))
                &&& forall|e: int| r <= e < r + count ==> is_free(old(self).spans(), e)
            }),
    {
        if count == 0 {
            return Some(0);
        }
        let ghost s = self.spans();
        let mut best: usize = 0;
        let mut found = false;
        let mut i: usize = 0;
        while i < self.freeSpans.len()
            invariant
                self.spans() == s,
                i <= s.len(),
                found ==> best < i,
                found ==> fits_request(s, best as int, count),
                found ==> forall|j: int| 0 <= j < i && #[trigger] fits_request(s, j, count) ==> s[best as int].count
                    <= s[j].count,
                found ==> forall|j: int| 0 <= j < best && #[trigger] fits_request(s, j, count) ==> s[best as int].count
                    < s[j].count,
                !found ==> forall|j: int| 0 <= j < i ==> !#[trigger] fits_request(s, j, count),
            decreases s.len() - i,
        {
            let c = self.freeSpans[i].count;
            if c >= count && (!found || c < self.freeSpans[best].count) {
                best = i;
                found = true;
            }
            i = i + 1;
        }
        if !found {
            return None;
        }
        let k = best;
        let span = self.freeSpans[k];
        let r = span.start;
        proof {
            assert(is_best_fit(s, count, k as int));
            assert(span_end(s[k as int]) <= u32::MAX);
        }
        if span.count == count {
            self.freeSpans.remove(k);
        } else {
            self.freeSpans.set(k, FreeSpan { start: span.start + count, count: span.count - count });
        }
        proof {
            let n = self.spans();
            assert(n == claimed(s, k as int, count));
            lemma_claimed_wf(s, k as int, count);
            lemma_claimed_free(s, k as int, count);
            if span.count == count {
                lemma_total_remove(s, k as int);
            } else {
                lemma_total_update(s, k as int, n[k as int]);
            }
        }
        Some(r)
    }

    /// Gives back `count` elements from `start`: they join the free span
    /// that ends where they start and the one that starts where they end,
    /// or go in as a span of their own, in order.
    pub fn recycle(&mut self, start: u32, count: u32)
        requires
            old(self).wf(),
            count > 0 ==> recyclable(old(self).spans(), start, count),
        ensures
            final(self).wf(),
            final(self).spans() == recycled(old(self).spans(), start, count),
            free_total(final(self).spans()) == free_total(old(self).spans()) + count,
            forall|e: int|
                is_free(final(self).spans(), e) <==> (is_free(old(self).spans(), e) || (start <= e < start
                    + count)),
    {
        let ghost s = self.spans();
        if count == 0 {
            proof {
                assert forall|e: int|
                    is_free(self.spans(), e) <==> (is_free(s, e) || (start <= e < start + count)) by {}
            }
            return;
        }
        let end = start + count;
        let mut insertAt: usize = 0;
        while insertAt < self.freeSpans.len() && self.freeSpans[insertAt].start < start
            invariant
                self.spans() == s,
                spans_wf(s),
                insertAt <= s.len(),
                forall|j: int| 0 <= j < insertAt ==> (#[trigger] s[j]).start < start,
            decreases s.len() - insertAt,
        {
            insertAt = insertAt + 1;
        }
        proof {
            lemma_starts_before(s, start, insertAt as int);
        }
        let mergeLeft = insertAt > 0 && self.freeSpans[insertAt - 1].start + self.freeSpans[insertAt
            - 1].count == start;
        let mergeRight = insertAt < self.freeSpans.len() && end == self.freeSpans[insertAt].start;
        if mergeLeft && mergeRight {
            let left = self.freeSpans[insertAt - 1];
            let right = self.freeSpans[insertAt];
            proof {
                assert(span_end(s[insertAt as int]) <= u32::MAX);
            }
            self.freeSpans.set(insertAt - 1, FreeSpan { start: left.start, count: left.count + count + right.count });
            self.freeSpans.remove(insertAt);
        } else if mergeLeft {
            let left = self.freeSpans[insertAt - 1];
            self.freeSpans.set(insertAt - 1, FreeSpan { start: left.start, count: left.count + count });
        } else if mergeRight {
            let right = self.freeSpans[insertAt];
            proof {
                assert(span_end(s[insertAt as int]) <= u32::MAX);
            }
            self.freeSpans.set(insertAt, FreeSpan { start, count: right.count + count });
        } else {
            self.freeSpans.insert(insertAt, FreeSpan { start, count });
        }
        proof {
            assert(self.spans() == recycled(s, start, count));
            lemma_recycled(s, start, count);
            assert forall|e: int| is_free(self.spans(), e) <==> (is_free(s, e) || (start <= e < start + count)) by {
                assert(is_free(recycled(s, start, count), e) <==> (is_free(s, e) || (start <= e < start + count)));
            }
        }
    }

    /// Number of free elements.
    pub fn free_count(&self) -> (n: u64)
        requires
            self.wf(),
        ensures
            n == free_total(self.spans()),
    {
        let ghost s = self.spans();
        let mut total: u64 = 0;
        let mut i: usize = 0;
        while i < self.freeSpans.len()
            invariant
                self.spans() == s,
                spans_wf(s),
                i <= s.len(),
                total == free_total(s.take(i as int)),
            decreases s.len() - i,
        {
            proof {
                lemma_total_bound(s.take(i as int + 1));
                assert(s.take(i as int + 1).drop_last() =~= s.take(i as int));
            }
            total = total + self.freeSpans[i].count as u64;
            i = i + 1;
        }
        proof {
            assert(s.take(s.len() as int) =~= s);
        }
        total
    }
}

/// Counted from the front, the spans before `start` are those at indices
/// below `k`, when the spans are ordered and `k` is where the first span at
/// or after `start` sits.
proof fn lemma_starts_before(s: Seq<FreeSpan>, start: u32, k: int)
    requires
        spans_wf(s),
        0 <= k <= s.len(),
        forall|j: int| 0 <= j < k ==> (#[trigger] s[j]).start < start,
        k < s.len() ==> s[k].start >= start,
    ensures
        starts_before(s, start) == k,
    decreases s.len(),
{
    if s.len() > 0 {
        let t = s.drop_last();
        if k == s.len() {
            lemma_starts_before(t, start, k - 1);
        } else {
            assert(s.last().start >= start) by {
                if k < s.len() - 1 {
                    assert(s[k].start < s[s.len() - 1].start);
                }
            }
            lemma_starts_before(t, start, k);
        }
    }
}

/// The total of spans that are ordered and apart is at most where the last
/// one ends.
proof fn lemma_total_bound(s: Seq<FreeSpan>)
    requires
        spans_wf(s),
    ensures
        free_total(s) <= if s.len() == 0 {
            0
        } else {
            span_end(s.last())
        },
        free_total(s) <= u32::MAX,
    decreases s.len(),
{
    if s.len() > 0 {
        let t = s.drop_last();
        lemma_total_bound(t);
        if t.len() > 0 {
            assert(span_end(t.last()) <= s.last().start) by {
                assert(t.last() == s[s.len() - 2]);
            }
        }
        assert(span_end(s[s.len() - 1]) <= u32::MAX);
    }
}

/// Replacing a span changes the total by the difference of the counts.
pub proof fn lemma_total_update(s: Seq<FreeSpan>, k: int, x: FreeSpan)
    requires
        0 <= k < s.len(),
    ensures
        free_total(s.update(k, x)) + s[k].count == free_total(s) + x.count,
    decreases s.len(),
{
    let u = s.update(k, x);
    if k == s.len() - 1 {
        assert(u.drop_last() =~= s.drop_last());
    } else {
        assert(u.drop_last() =~= s.drop_last().update(k, x));
        lemma_total_update(s.drop_last(), k, x);
    }
}

/// Removing a span takes its count off the total.
pub proof fn lemma_total_remove(s: Seq<FreeSpan>, k: int)
    requires
        0 <= k < s.len(),
    ensures
        free_total(s.remove(k)) + s[k].count == free_total(s),
    decreases s.len(),
{
    let u = s.remove(k);
    if k == s.len() - 1 {
        assert(u =~= s.drop_last());
    } else {
        assert(u.drop_last() =~= s.drop_last().remove(k));
        lemma_total_remove(s.drop_last(), k);
    }
}

/// Inserting a span adds its count to the total.
pub proof fn lemma_total_insert(s: Seq<FreeSpan>, k: int, x: FreeSpan)
    requires
        0 <= k <= s.len(),
    ensures
        free_total(s.insert(k, x)) == free_total(s) + x.count,
    decreases s.len(),
{
    let u = s.insert(k, x);
    if k == s.len() {
        assert(u.drop_last() =~= s);
    } else {
        assert(u.drop_last() =~= s.drop_last().insert(k, x));
        lemma_total_insert(s.drop_last(), k, x);
    }
}

/// Taking from the front of a span keeps the spans ordered and apart.
proof fn lemma_claimed_wf(s: Seq<FreeSpan>, k: int, count: u32)
    requires
        spans_wf(s),
        fits_request(s, k, count),
        count > 0,
    ensures
        spans_wf(claimed(s, k, count)),
{
    let n = claimed(s, k, count);
    if s[k].count == count {
        assert forall|i: int, j: int| 0 <= i < j < n.len() implies (#[trigger] n[i]).start < (
        #[trigger] n[j]).start && span_end(n[i]) <= n[j].start by {
            let ii = if i < k { i } else { i + 1 };
            let jj = if j < k { j } else { j + 1 };
            assert(n[i] == s[ii] && n[j] == s[jj]);
            assert(s[ii].start < s[jj].start && span_end(s[ii]) <= s[jj].start);
        }
        assert forall|i: int| 0 <= i < n.len() implies span_end(#[trigger] n[i]) <= u32::MAX by {
            let ii = if i < k { i } else { i + 1 };
            assert(n[i] == s[ii]);
        }
    } else {
        assert forall|i: int, j: int| 0 <= i < j < n.len() implies (#[trigger] n[i]).start < (
        #[trigger] n[j]).start && span_end(n[i]) <= n[j].start by {
            assert(s[i].start < s[j].start && span_end(s[i]) <= s[j].start);
        }
        assert forall|i: int| 0 <= i < n.len() implies span_end(#[trigger] n[i]) <= u32::MAX by {
            assert(span_end(s[i]) <= u32::MAX);
        }
    }
}

/// Taking `count` elements from the front of span `k` frees exactly the
/// elements that were free, less those taken.
pub proof fn lemma_claimed_free(s: Seq<FreeSpan>, k: int, count: u32)
    requires
        spans_wf(s),
        fits_request(s, k, count),
        count > 0,
    ensures
        forall|e: int|
            is_free(claimed(s, k, count), e) <==> (is_free(s, e) && !(s[k].start <= e < s[k].start + count)),
        forall|e: int| s[k].start <= e < s[k].start + count ==> is_free(s, e),
{
    let n = claimed(s, k, count);
    let r = s[k].start as int;
    assert forall|e: int| r <= e < r + count implies is_free(s, e) by {
        assert(s[k].start <= e < span_end(s[k]));
    }
    assert forall|e: int| is_free(n, e) <==> (is_free(s, e) && !(r <= e < r + count)) by {
        if is_free(n, e) {
            let j = choose|j: int| 0 <= j < n.len() && (#[trigger] n[j]).start <= e < span_end(n[j]);
            if s[k].count == count {
                let jj = if j < k { j } else { j + 1 };
                assert(n[j] == s[jj]);
                assert(jj != k);
                if jj < k {
                    assert(span_end(s[jj]) <= s[k].start);
                } else {
                    assert(span_end(s[k]) <= s[jj].start);
                }
            } else {
                if j != k {
                    if j < k {
                        assert(span_end(s[j]) <= s[k].start);
                    } else {
                        assert(span_end(s[k]) <= s[j].start);
                    }
                }
                assert(s[j].start <= e < span_end(s[j]));
            }
        }
        if is_free(s, e) && !(r <= e < r + count) {
            let j = choose|j: int| 0 <= j < s.len() && (#[trigger] s[j]).start <= e < span_end(s[j]);
            if s[k].count == count {
                assert(j != k);
                let jn = if j < k { j } else { j - 1 };
                assert(n[jn] == s[j]);
            } else {
                assert(n[j].start <= e < span_end(n[j]));
            }
        }
    }
}

/// The place where a run from `start` of `count` elements goes back: the
/// spans below `k` end at or before it, the others start after its end.
pub open spec fn recycle_slot(s: Seq<FreeSpan>, start: u32, count: u32, k: int) -> bool {
    &&& spans_wf(s)
    &&& count > 0
    &&& start + count <= u32::MAX
    &&& 0 <= k <= s.len()
    &&& forall|j: int| 0 <= j < k ==> span_end(#[trigger] s[j]) <= start && s[j].start < start
    &&& forall|j: int| k <= j < s.len() ==> start + count <= (#[trigger] s[j]).start
}

/// Giving back a recyclable run keeps the spans ordered and apart, adds
/// its count to the total, and frees exactly its elements besides those
/// already free.
proof fn lemma_recycled(s: Seq<FreeSpan>, start: u32, count: u32)
    requires
        spans_wf(s),
        count > 0,
        recyclable(s, start, count),
    ensures
        spans_wf(recycled(s, start, count)),
        free_total(recycled(s, start, count)) == free_total(s) + count,
        forall|e: int| is_free(recycled(s, start, count), e) <==> (is_free(s, e) || (start <= e < start + count)),
{
    let k = starts_before(s, start) as int;
    lemma_starts_before_facts(s, start);
    assert(recycle_slot(s, start, count, k));
    let left = k > 0 && span_end(s[k - 1]) == start;
    let right = k < s.len() && start + count == s[k].start;
    if left && right {
        lemma_recycle_join_both(s, start, count, k);
    } else if left {
        lemma_recycle_join_left(s, start, count, k);
    } else if right {
        lemma_recycle_join_right(s, start, count, k);
    } else {
        lemma_recycle_apart(s, start, count, k);
    }
}
/// The run closes the gap between two spans.
proof fn lemma_recycle_join_both(s: Seq<FreeSpan>, start: u32, count: u32, k: int)
    requires
        recycle_slot(s, start, count, k),
        starts_before(s, start) == k,
        k > 0 && span_end(s[k - 1]) == start,
        k < s.len() && start + count == s[k].start,
    ensures
        spans_wf(recycled(s, start, count)),
        free_total(recycled(s, start, count)) == free_total(s) + count,
        forall|e: int| is_free(recycled(s, start, count), e) <==> (is_free(s, e) || (start <= e < start + count)),
{
    let n = recycled(s, start, count);
    let en = start + count;
    let l2 = FreeSpan { start: s[k - 1].start, count: (s[k - 1].count + count + s[k].count) as u32 };
    assert(span_end(s[k]) <= u32::MAX);
    let u = s.update(k - 1, l2);
    assert(n == u.remove(k));
    assert forall|i: int| 0 <= i < n.len() implies #[trigger] n[i] == if i < k - 1 {
        s[i]
    } else if i == k - 1 {
        l2
    } else {
        s[i + 1]
    } by {}
    assert forall|i: int, j: int| 0 <= i < j < n.len() implies (#[trigger] n[i]).start < (
    #[trigger] n[j]).start && span_end(n[i]) <= n[j].start by {
        let ii = if i < k - 1 { i } else if i == k - 1 { k - 1 } else { i + 1 };
        let jj = if j < k - 1 { j } else if j == k - 1 { k } else { j + 1 };
        assert(s[ii].start < s[jj].start && span_end(s[ii]) <= s[jj].start);
        if i == k - 1 {
            assert(s[k].start < s[jj].start || jj == k);
        }
        if j == k - 1 {
            assert(s[ii].start < s[k - 1].start && span_end(s[ii]) <= s[k - 1].start);
        }
    }
    assert forall|i: int| 0 <= i < n.len() implies span_end(#[trigger] n[i]) <= u32::MAX by {
        if i >= k {
            assert(span_end(s[i + 1]) <= u32::MAX);
        }
    }
    lemma_total_update(s, k - 1, l2);
    lemma_total_remove(u, k);
    assert forall|e: int| is_free(n, e) <==> (is_free(s, e) || (start <= e < en)) by {
        if is_free(n, e) {
            let j = choose|j: int| 0 <= j < n.len() && (#[trigger] n[j]).start <= e < span_end(n[j]);
            if j < k - 1 {
                assert(s[j].start <= e < span_end(s[j]));
            } else if j > k - 1 {
                assert(s[j + 1].start <= e < span_end(s[j + 1]));
            } else if e < start {
                assert(s[k - 1].start <= e < span_end(s[k - 1]));
            } else if e >= en {
                assert(s[k].start <= e < span_end(s[k]));
            }
        }
        if is_free(s, e) {
            let j = choose|j: int| 0 <= j < s.len() && (#[trigger] s[j]).start <= e < span_end(s[j]);
            if j < k - 1 {
                assert(n[j] == s[j]);
            } else if j > k {
                assert(n[j - 1] == s[j]);
            } else {
                assert(n[k - 1].start <= e < span_end(n[k - 1]));
            }
        }
        if start <= e < en {
            assert(n[k - 1].start <= e < span_end(n[k - 1]));
        }
    }
}

/// The run extends the span before it.
proof fn lemma_recycle_join_left(s: Seq<FreeSpan>, start: u32, count: u32, k: int)
    requires
        recycle_slot(s, start, count, k),
        starts_before(s, start) == k,
        k > 0 && span_end(s[k - 1]) == start,
        !(k < s.len() && start + count == s[k].start),
    ensures
        spans_wf(recycled(s, start, count)),
        free_total(recycled(s, start, count)) == free_total(s) + count,
        forall|e: int| is_free(recycled(s, start, count), e) <==> (is_free(s, e) || (start <= e < start + count)),
{
    let n = recycled(s, start, count);
    let en = start + count;
    let l2 = FreeSpan { start: s[k - 1].start, count: (s[k - 1].count + count) as u32 };
    assert(n == s.update(k - 1, l2));
    assert forall|i: int, j: int| 0 <= i < j < n.len() implies (#[trigger] n[i]).start < (
    #[trigger] n[j]).start && span_end(n[i]) <= n[j].start by {
        assert(s[i].start < s[j].start && span_end(s[i]) <= s[j].start);
    }
    assert forall|i: int| 0 <= i < n.len() implies span_end(#[trigger] n[i]) <= u32::MAX by {
        assert(span_end(s[i]) <= u32::MAX);
    }
    lemma_total_update(s, k - 1, l2);
    assert forall|e: int| is_free(n, e) <==> (is_free(s, e) || (start <= e < en)) by {
        if is_free(n, e) {
            let j = choose|j: int| 0 <= j < n.len() && (#[trigger] n[j]).start <= e < span_end(n[j]);
            if j != k - 1 || e < start {
                assert(s[j].start <= e < span_end(s[j]));
            }
        }
        if is_free(s, e) {
            let j = choose|j: int| 0 <= j < s.len() && (#[trigger] s[j]).start <= e < span_end(s[j]);
            assert(n[j].start <= e < span_end(n[j]));
        }
        if start <= e < en {
            assert(n[k - 1].start <= e < span_end(n[k - 1]));
        }
    }
}

/// The run extends the span after it backwards.
proof fn lemma_recycle_join_right(s: Seq<FreeSpan>, start: u32, count: u32, k: int)
    requires
        recycle_slot(s, start, count, k),
        starts_before(s, start) == k,
        !(k > 0 && span_end(s[k - 1]) == start),
        k < s.len() && start + count == s[k].start,
    ensures
        spans_wf(recycled(s, start, count)),
        free_total(recycled(s, start, count)) == free_total(s) + count,
        forall|e: int| is_free(recycled(s, start, count), e) <==> (is_free(s, e) || (start <= e < start + count)),
{
    let n = recycled(s, start, count);
    let en = start + count;
    let r2 = FreeSpan { start, count: (s[k].count + count) as u32 };
    assert(span_end(s[k]) <= u32::MAX);
    assert(n == s.update(k, r2));
    assert forall|i: int, j: int| 0 <= i < j < n.len() implies (#[trigger] n[i]).start < (
    #[trigger] n[j]).start && span_end(n[i]) <= n[j].start by {
        assert(s[i].start < s[j].start && span_end(s[i]) <= s[j].start);
    }
    assert forall|i: int| 0 <= i < n.len() implies span_end(#[trigger] n[i]) <= u32::MAX by {
        assert(span_end(s[i]) <= u32::MAX);
    }
    lemma_total_update(s, k, r2);
    assert forall|e: int| is_free(n, e) <==> (is_free(s, e) || (start <= e < en)) by {
        if is_free(n, e) {
            let j = choose|j: int| 0 <= j < n.len() && (#[trigger] n[j]).start <= e < span_end(n[j]);
            if j != k || e >= en {
                assert(s[j].start <= e < span_end(s[j]));
            }
        }
        if is_free(s, e) {
            let j = choose|j: int| 0 <= j < s.len() && (#[trigger] s[j]).start <= e < span_end(s[j]);
            assert(n[j].start <= e < span_end(n[j]));
        }
        if start <= e < en {
            assert(n[k].start <= e < span_end(n[k]));
        }
    }
}

/// The run touches no span and goes in as its own.
proof fn lemma_recycle_apart(s: Seq<FreeSpan>, start: u32, count: u32, k: int)
    requires
        recycle_slot(s, start, count, k),
        starts_before(s, start) == k,
        !(k > 0 && span_end(s[k - 1]) == start),
        !(k < s.len() && start + count == s[k].start),
    ensures
        spans_wf(recycled(s, start, count)),
        free_total(recycled(s, start, count)) == free_total(s) + count,
        forall|e: int| is_free(recycled(s, start, count), e) <==> (is_free(s, e) || (start <= e < start + count)),
{
    let n = recycled(s, start, count);
    let en = start + count;
    let x = FreeSpan { start, count };
    assert(n == s.insert(k, x));
    assert forall|i: int| 0 <= i < n.len() implies #[trigger] n[i] == if i < k {
        s[i]
    } else if i == k {
        x
    } else {
        s[i - 1]
    } by {}
    assert forall|i: int, j: int| 0 <= i < j < n.len() implies (#[trigger] n[i]).start < (
    #[trigger] n[j]).start && span_end(n[i]) <= n[j].start by {
        let ii = if i < k { i } else { i - 1 };
        let jj = if j <= k { j } else { j - 1 };
        if i != k && j != k {
            assert(s[ii].start < s[jj].start && span_end(s[ii]) <= s[jj].start);
        }
    }
    assert forall|i: int| 0 <= i < n.len() implies span_end(#[trigger] n[i]) <= u32::MAX by {
        if i < k {
            assert(span_end(s[i]) <= u32::MAX);
        } else if i > k {
            assert(span_end(s[i - 1]) <= u32::MAX);
        }
    }
    lemma_total_insert(s, k, x);
    assert forall|e: int| is_free(n, e) <==> (is_free(s, e) || (start <= e < en)) by {
        if is_free(n, e) {
            let j = choose|j: int| 0 <= j < n.len() && (#[trigger] n[j]).start <= e < span_end(n[j]);
            if j < k {
                assert(s[j].start <= e < span_end(s[j]));
            } else if j > k {
                assert(s[j - 1].start <= e < span_end(s[j - 1]));
            }
        }
        if is_free(s, e) {
            let j = choose|j: int| 0 <= j < s.len() && (#[trigger] s[j]).start <= e < span_end(s[j]);
            if j < k {
                assert(n[j] == s[j]);
            } else {
                assert(n[j + 1] == s[j]);
            }
        }
        if start <= e < en {
            assert(n[k].start <= e < span_end(n[k]));
        }
    }
}

/// For ordered spans, the spans counted by `starts_before` are exactly
/// those at the lower indices.
proof fn lemma_starts_before_facts(s: Seq<FreeSpan>, start: u32)
    requires
        spans_wf(s),
    ensures
        0 <= starts_before(s, start) <= s.len(),
        forall|j: int| 0 <= j < starts_before(s, start) ==> (#[trigger] s[j]).start < start,
        forall|j: int| starts_before(s, start) <= j < s.len() ==> (#[trigger] s[j]).start >= start,
    decreases s.len(),
{
    if s.len() > 0 {
        let t = s.drop_last();
        let last = s.len() - 1;
        lemma_starts_before_facts(t, start);
        let kt = starts_before(t, start) as int;
        assert forall|j: int| 0 <= j < t.len() implies #[trigger] t[j] == s[j] by {}
        if s[last].start < start {
            if kt < t.len() {
                assert(t[kt].start >= start);
                assert(s[kt].start < s[last].start);
            }
            assert(starts_before(s, start) == s.len());
            assert forall|j: int| 0 <= j < s.len() implies (#[trigger] s[j]).start < start by {
                if j < last {
                    assert(t[j].start < start);
                }
            }
        } else {
            assert(starts_before(s, start) == kt);
            assert forall|j: int| 0 <= j < kt implies (#[trigger] s[j]).start < start by {
                assert(t[j].start < start);
            }
            assert forall|j: int| kt <= j < s.len() implies (#[trigger] s[j]).start >= start by {
                if j < last {
                    assert(t[j].start >= start);
                }
            }
        }
    }
}

/// `n` is a power of two that fits 64 bits.
pub open spec fn is_pow2_u64(n: u64) -> bool {
    exists|k: nat| k < 64 && n == pow2(k)
}

/// `value` rounded up to a multiple of `alignment`, a power of two.
pub fn align_up(value: u64, alignment: u64) -> (r: u64)
    requires
        is_pow2_u64(alignment),
        value + alignment - 1 <= u64::MAX,
    ensures
        r == (value + alignment - 1) / (alignment as int) * alignment,
        r % alignment == 0,
        value <= r < value + alignment,
{
    let ghost k = choose|k: nat| k < 64 && alignment == pow2(k);
    proof {
        lemma_pow2_pos(k);
    }
    let m = alignment - 1;
    let v = value + m;
    proof {
        lemma_u64_low_bits_mask_is_mod(v, k);
        assert(low_bits_mask(k) == pow2(k) - 1);
        assert((v & !m) + (v & m) == v && (v & !m) <= v) by (bit_vector);
        let r = (v & !m) as int;
        assert(v & m == v % alignment);
        lemma_fundamental_div_mod(v as int, alignment as int);
        assert(r == alignment * (v / alignment));
        lemma_mod_multiples_basic((v / alignment) as int, alignment as int);
        assert(r % (alignment as int) == 0) by {
            lemma_mul_is_commutative(alignment as int, (v / alignment) as int);
        }
        lemma_mul_is_commutative(alignment as int, (v / alignment) as int);
    }
    v & !m
}

/// A run handed out by a claim can be given back, and giving it back
/// restores exactly the free elements and the free total from before the
/// claim.
pub proof fn lemma_claim_then_recycle(s: Seq<FreeSpan>, count: u32, k: int)
    requires
        spans_wf(s),
        count > 0,
        is_best_fit(s, count, k),
    ensures
        recyclable(claimed(s, k, count), s[k].start, count),
        free_total(recycled(claimed(s, k, count), s[k].start, count)) == free_total(s),
        forall|e: int| is_free(recycled(claimed(s, k, count), s[k].start, count), e) <==> is_free(s, e),
{
    let n = claimed(s, k, count);
    let r = s[k].start;
    lemma_claimed_wf(s, k, count);
    lemma_claimed_free(s, k, count);
    assert(span_end(s[k]) <= u32::MAX);
    assert forall|j: int| 0 <= j < n.len() implies (span_end(#[trigger] n[j]) <= r && n[j].start < r) || r + count
        <= n[j].start by {
        if s[k].count == count {
            let jj = if j < k { j } else { j + 1 };
            assert(n[j] == s[jj]);
            if jj < k {
                assert(s[jj].start < s[k].start && span_end(s[jj]) <= s[k].start);
            } else {
                assert(span_end(s[k]) <= s[jj].start);
            }
        } else if j < k {
            assert(s[j].start < s[k].start && span_end(s[j]) <= s[k].start);
        } else if j > k {
            assert(span_end(s[k]) <= s[j].start);
        }
    }
    lemma_recycled(n, r, count);
    if s[k].count == count {
        lemma_total_remove(s, k);
    } else {
        lemma_total_update(s, k, n[k]);
    }
}

/// Taking a run from the front of a span leaves no span empty.
pub proof fn lemma_claimed_positive(s: Seq<FreeSpan>, k: int, count: u32)
    requires
        spans_positive(s),
        fits_request(s, k, count),
        count > 0,
    ensures
        spans_positive(claimed(s, k, count)),
{
    let n = claimed(s, k, count);
    if s[k].count == count {
        assert forall|j: int| 0 <= j < n.len() implies (#[trigger] n[j]).count > 0 by {
            if j < k {
                assert(n[j] == s[j]);
            } else {
                assert(n[j] == s[j + 1]);
            }
        }
    } else {
        assert forall|j: int| 0 <= j < n.len() implies (#[trigger] n[j]).count > 0 by {
            if j != k {
                assert(n[j] == s[j]);
            }
        }
    }
}

/// Giving back a non-empty run leaves no span empty.
pub proof fn lemma_recycled_positive(s: Seq<FreeSpan>, start: u32, count: u32)
    requires
        spans_wf(s),
        spans_positive(s),
        count > 0,
        recyclable(s, start, count),
    ensures
        spans_positive(recycled(s, start, count)),
{
    let k = starts_before(s, start) as int;
    lemma_starts_before_facts(s, start);
    assert(recycle_slot(s, start, count, k));
    let n = recycled(s, start, count);
    let left = k > 0 && span_end(s[k - 1]) == start;
    let right = k < s.len() && start + count == s[k].start;
    if left && right {
        assert(span_end(s[k]) <= u32::MAX);
        assert forall|j: int| 0 <= j < n.len() implies (#[trigger] n[j]).count > 0 by {
            if j < k - 1 {
                assert(n[j] == s[j]);
            } else if j >= k {
                assert(n[j] == s[j + 1]);
            }
        }
    } else if left {
        assert forall|j: int| 0 <= j < n.len() implies (#[trigger] n[j]).count > 0 by {
            if j != k - 1 {
                assert(n[j] == s[j]);
            }
        }
    } else if right {
        assert(span_end(s[k]) <= u32::MAX);
        assert forall|j: int| 0 <= j < n.len() implies (#[trigger] n[j]).count > 0 by {
            if j != k {
                assert(n[j] == s[j]);
            }
        }
    } else {
        assert forall|j: int| 0 <= j < n.len() implies (#[trigger] n[j]).count > 0 by {
            if j < k {
                assert(n[j] == s[j]);
            } else if j > k {
                assert(n[j] == s[j - 1]);
            }
        }
    }
}

/// A run of which no element is free can be given back, when no span is
/// empty.
pub proof fn lemma_recyclable_when_taken(s: Seq<FreeSpan>, start: u32, count: u32)
    requires
        spans_wf(s),
        spans_positive(s),
        count > 0,
        start + count <= u32::MAX,
        forall|e: int| start <= e < start + count ==> !is_free(s, e),
    ensures
        recyclable(s, start, count),
{
    assert forall|k: int| 0 <= k < s.len() implies (span_end(#[trigger] s[k]) <= start && s[k].start < start) || start
        + count <= s[k].start by {
        if s[k].start < start {
            if span_end(s[k]) > start {
                assert(s[k].start <= start < span_end(s[k]));
                assert(is_free(s, start as int));
            }
        } else if s[k].start < start + count {
            assert(s[k].start <= s[k].start < span_end(s[k]));
            assert(is_free(s, s[k].start as int));
        }
    }
}

/// A draw command for indexed geometry, laid out as the GPU reads it.
#[derive(Debug, Clone, Copy, Default, PartialEq, Eq, Structural)]
pub struct ChunkIndirectCommand {
    pub index_count: u32,
    pub instance_count: u32,
    pub first_index: u32,
    pub vertex_offset: i32,
    pub first_instance: u32,
}

} // verus!
