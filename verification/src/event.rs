use vstd::prelude::*;

verus! {

pub open spec fn abs_int(x: int) -> int {
    if x < 0 {
        -x
    } else {
        x
    }
}

/// Whether the step from entry `i` to entry `i + 1` is a gap of more than
/// `threshold` seconds.
pub open spec fn is_time_gap(ts: Seq<i64>, threshold: i64, i: int) -> bool {
    abs_int(ts[i + 1] - ts[i]) > threshold
}

/// The gap positions among the first `n` steps, ascending.
pub open spec fn time_gaps(ts: Seq<i64>, threshold: i64, n: nat) -> Seq<usize>
    decreases n,
{
    if n == 0 {
        Seq::empty()
    } else {
        let before = time_gaps(ts, threshold, (n - 1) as nat);
        if is_time_gap(ts, threshold, n - 1) {
            before.push((n - 1) as usize)
        } else {
            before
        }
    }
}

/// The number of steps between consecutive entries.
pub open spec fn step_count(len: nat) -> nat {
    if len == 0 {
        0
    } else {
        (len - 1) as nat
    }
}

/// Every step's difference, and its magnitude, fits in an `i64`.
pub open spec fn steps_fit(ts: Seq<i64>) -> bool {
    forall|i: int|
        0 <= i < ts.len() - 1 ==> i64::MIN < #[trigger] ts[i + 1] - ts[i] <= i64::MAX
}

/// Positions `i` where the time from entry `i` to entry `i + 1` exceeds
/// `gap_threshold_secs` either way.
pub fn detect_time_gaps(timestamps: &[i64], gap_threshold_secs: i64) -> (gaps: Vec<usize>)
    requires
        steps_fit(timestamps@),
    ensures
        gaps@ == time_gaps(timestamps@, gap_threshold_secs, step_count(timestamps@.len())),
{
    let mut gaps: Vec<usize> = Vec::new();
    if timestamps.len() == 0 {
        return gaps;
    }
    let mut i: usize = 0;
    while i < timestamps.len() - 1
        invariant
            i + 1 <= timestamps@.len(),
            steps_fit(timestamps@),
            gaps@ == time_gaps(timestamps@, gap_threshold_secs, i as nat),
        decreases timestamps@.len() - i,
    {
        let d = timestamps[i + 1] - timestamps[i];
        let m = if d < 0 {
            -d
        } else {
            d
        };
        if m > gap_threshold_secs {
            gaps.push(i);
        }
        i = i + 1;
    }
    gaps
}

proof fn lemma_time_gaps_upto(ts: Seq<i64>, t: i64, n: nat)
    requires
        n + 1 <= ts.len() || n == 0,
        ts.len() <= usize::MAX,
    ensures
        forall|j: int|
            0 <= j < time_gaps(ts, t, n).len() ==> (#[trigger] time_gaps(ts, t, n)[j]) < n,
        forall|a: int, b: int|
            0 <= a < b < time_gaps(ts, t, n).len() ==> (#[trigger] time_gaps(ts, t, n)[a]) < (
            #[trigger] time_gaps(ts, t, n)[b]),
        forall|k: usize|
            #[trigger] time_gaps(ts, t, n).contains(k) <==> (k < n && (ts[k + 1] - ts[k as int] > t
                || ts[k as int] - ts[k + 1] > t)),
    decreases n,
{
    if n > 0 {
        lemma_time_gaps_upto(ts, t, (n - 1) as nat);
        let before = time_gaps(ts, t, (n - 1) as nat);
        let g = time_gaps(ts, t, n);
        let gap = is_time_gap(ts, t, n - 1);
        assert(gap <==> (ts[n - 1 + 1] - ts[n - 1] > t || ts[n - 1] - ts[n - 1 + 1] > t));
        if gap {
            assert(g == before.push((n - 1) as usize));
        } else {
            assert(g == before);
        }
        assert forall|a: int, b: int| 0 <= a < b < g.len() implies (#[trigger] g[a]) < (
        #[trigger] g[b]) by {
            assert(g[a] == before[a]);
            if b < before.len() {
                assert(g[b] == before[b]);
            }
        }
        assert forall|j: int| 0 <= j < g.len() implies (#[trigger] g[j]) < n by {
            if j < before.len() {
                assert(g[j] == before[j]);
            }
        }
        assert forall|k: usize| #[trigger] g.contains(k) <==> (k < n && (ts[k + 1] - ts[k as int] > t
            || ts[k as int] - ts[k + 1] > t)) by {
            if g.contains(k) {
                let j = choose|j: int| 0 <= j < g.len() && g[j] == k;
                if j < before.len() {
                    assert(g[j] == before[j]);
                    assert(before.contains(k));
                } else {
                    assert(k == n - 1);
                }
            }
            if k < n && (ts[k + 1] - ts[k as int] > t || ts[k as int] - ts[k + 1] > t) {
                if k < n - 1 {
                    assert(before.contains(k));
                    let j = choose|j: int| 0 <= j < before.len() && before[j] == k;
                    assert(g[j] == k);
                } else {
                    assert(k == n - 1);
                    assert(gap);
                    assert(g[g.len() - 1] == k);
                }
            }
        }
    }
}

/// Time gaps are exactly the steps whose size exceeds the threshold, either
/// way: `detect_time_gaps` reports position `k` if and only if the time from
/// entry `k` to entry `k + 1` is more than `threshold` seconds forwards or
/// backwards, so a larger jump is never less of a gap. The positions come in
/// strictly ascending order.
pub proof fn lemma_time_gaps_exact(ts: Seq<i64>, threshold: i64)
    requires
        ts.len() <= usize::MAX,
    ensures
        ({
            let g = time_gaps(ts, threshold, step_count(ts.len()));
            &&& forall|k: usize|
                #[trigger] g.contains(k) <==> (k + 1 < ts.len() && (ts[k + 1] - ts[k as int]
                    > threshold || ts[k as int] - ts[k + 1] > threshold))
            &&& forall|a: int, b: int| 0 <= a < b < g.len() ==> (#[trigger] g[a]) < (#[trigger] g[b])
        }),
{
    lemma_time_gaps_upto(ts, threshold, step_count(ts.len()));
}

/// The ends of the segments that the boundaries among the first `k` cut off,
/// ascending: a boundary after index `b` ends a segment at `b + 1` when that
/// lies past the previous end and within the `n` utterances.
pub open spec fn segment_cuts(boundaries: Seq<usize>, n: nat, k: nat) -> Seq<int>
    decreases k,
{
    if k == 0 {
        Seq::empty()
    } else {
        let cuts = segment_cuts(boundaries, n, (k - 1) as nat);
        let start = if cuts.len() == 0 {
            0
        } else {
            cuts.last()
        };
        let end = boundaries[k - 1] + 1;
        if start < end && end <= n {
            cuts.push(end)
        } else {
            cuts
        }
    }
}

/// Where segments start and end: 0, the cuts, and `n` unless the last cut is
/// `n` already.
pub open spec fn segment_points(boundaries: Seq<usize>, n: nat) -> Seq<int> {
    let cuts = segment_cuts(boundaries, n, boundaries.len());
    let pts = seq![0int] + cuts;
    if pts.last() < n {
        pts.push(n as int)
    } else {
        pts
    }
}

/// The indices `lo, lo + 1, ..., hi - 1`.
pub open spec fn index_range(lo: int, hi: int) -> Seq<usize> {
    Seq::new((hi - lo) as nat, |t: int| (lo + t) as usize)
}

/// The segments between consecutive points.
pub open spec fn segments_of(boundaries: Seq<usize>, n: nat) -> Seq<Seq<usize>> {
    let pts = segment_points(boundaries, n);
    Seq::new((pts.len() - 1) as nat, |j: int| index_range(pts[j], pts[j + 1]))
}

proof fn lemma_cuts_shape(boundaries: Seq<usize>, n: nat, k: nat)
    requires
        k <= boundaries.len(),
    ensures
        forall|a: int, b: int|
            0 <= a < b < segment_cuts(boundaries, n, k).len() ==> #[trigger] segment_cuts(boundaries, n, k)[a]
                < #[trigger] segment_cuts(boundaries, n, k)[b],
        forall|a: int|
            0 <= a < segment_cuts(boundaries, n, k).len() ==> 0 < #[trigger] segment_cuts(boundaries, n, k)[a]
                <= n,
    decreases k,
{
    if k > 0 {
        lemma_cuts_shape(boundaries, n, (k - 1) as nat);
        let cuts = segment_cuts(boundaries, n, (k - 1) as nat);
        let r = segment_cuts(boundaries, n, k);
        let start = if cuts.len() == 0 {
            0
        } else {
            cuts.last()
        };
        let end = boundaries[k - 1] + 1;
        if start < end && end <= n {
            assert(r == cuts.push(end));
            assert forall|a: int, b: int| 0 <= a < b < r.len() implies #[trigger] r[a] < #[trigger] r[b] by {
                if b == cuts.len() {
                    assert(r[b] == end);
                    assert(r[a] == cuts[a]);
                    if a < cuts.len() - 1 {
                        assert(cuts[a] < cuts[cuts.len() - 1]);
                    }
                } else {
                    assert(r[a] == cuts[a]);
                    assert(r[b] == cuts[b]);
                }
            }
            assert forall|a: int| 0 <= a < r.len() implies 0 < #[trigger] r[a] <= n by {
                if a < cuts.len() {
                    assert(r[a] == cuts[a]);
                }
            }
        } else {
            assert(r == cuts);
        }
    }
}

/// The boundaries are in strictly ascending order.
pub open spec fn strictly_ascending(b: Seq<usize>) -> bool {
    forall|i: int, j: int| 0 <= i < j < b.len() ==> b[i] < b[j]
}

proof fn lemma_cuts_follow_boundaries(bs: Seq<usize>, n: nat, k: nat)
    requires
        k <= bs.len(),
        strictly_ascending(bs),
        forall|i: int| 0 <= i < bs.len() ==> #[trigger] bs[i] + 1 <= n,
    ensures
        segment_cuts(bs, n, k).len() == k,
        forall|i: int| 0 <= i < k ==> #[trigger] segment_cuts(bs, n, k)[i] == bs[i] + 1,
    decreases k,
{
    if k > 0 {
        lemma_cuts_follow_boundaries(bs, n, (k - 1) as nat);
        let cuts = segment_cuts(bs, n, (k - 1) as nat);
        let start = if cuts.len() == 0 {
            0
        } else {
            cuts.last()
        };
        if k >= 2 {
            assert(start == bs[k - 2] + 1);
            assert(bs[k - 2] < bs[k - 1]);
        }
        assert(start < bs[k - 1] + 1);
        assert(bs[k - 1] + 1 <= n);
        assert(segment_cuts(bs, n, k) == cuts.push(bs[k - 1] + 1));
    }
}

/// Every boundary cuts. With boundaries in strictly ascending order, each
/// inside the `n` utterances, segment `i` runs from just after boundary
/// `i - 1` (from 0 for the first) to boundary `i` inclusive; one more segment
/// runs from just after the last boundary to the last utterance unless the
/// last boundary is that utterance.
pub proof fn lemma_every_boundary_cuts(bs: Seq<usize>, n: nat)
    requires
        0 < n <= usize::MAX,
        strictly_ascending(bs),
        forall|i: int| 0 <= i < bs.len() ==> #[trigger] bs[i] + 1 <= n,
    ensures
        segments_of(bs, n).len() == bs.len() + if bs.len() > 0 && bs.last() + 1 == n {
            0int
        } else {
            1int
        },
        forall|i: int|
            0 <= i < bs.len() ==> {
                &&& (#[trigger] segments_of(bs, n)[i]).len() > 0
                &&& segments_of(bs, n)[i].last() == bs[i]
                &&& segments_of(bs, n)[i][0] == if i == 0 {
                    0
                } else {
                    bs[i - 1] + 1
                }
            },
        segments_of(bs, n).last().len() > 0,
        segments_of(bs, n).last().last() == n - 1,
{
    lemma_cuts_follow_boundaries(bs, n, bs.len());
    let cuts = segment_cuts(bs, n, bs.len());
    let pts = seq![0int] + cuts;
    assert(forall|j: int| 1 <= j < pts.len() ==> pts[j] == #[trigger] cuts[j - 1]);
    if bs.len() > 0 && bs.last() + 1 == n {
        assert(pts.last() == n);
        assert(segment_points(bs, n) == pts);
    } else {
        if bs.len() > 0 {
            assert(pts.last() == bs.last() + 1);
        }
        assert(segment_points(bs, n) == pts.push(n as int));
    }
    let segs = segments_of(bs, n);
    assert forall|i: int| 0 <= i < bs.len() implies {
        &&& (#[trigger] segs[i]).len() > 0
        &&& segs[i].last() == bs[i]
        &&& segs[i][0] == if i == 0 {
            0
        } else {
            bs[i - 1] + 1
        }
    } by {
        assert(segment_points(bs, n)[i + 1] == bs[i] + 1);
        if i > 0 {
            assert(segment_points(bs, n)[i] == bs[i - 1] + 1);
            assert(bs[i - 1] < bs[i]);
        }
        assert(segs[i] == index_range(segment_points(bs, n)[i], segment_points(bs, n)[i + 1]));
    }
    let m = segs.len() - 1;
    assert(segment_points(bs, n)[m + 1] == n);
    if m > 0 {
        assert(segment_points(bs, n)[m] < n) by {
            if m <= bs.len() {
                assert(segment_points(bs, n)[m] == bs[m - 1] + 1);
                if m == bs.len() {
                } else {
                    assert(bs[m - 1] < bs[m]);
                }
            }
        }
    }
    assert(segs[m] == index_range(segment_points(bs, n)[m], segment_points(bs, n)[m + 1]));
}

proof fn lemma_cuts_are_boundaries(bs: Seq<usize>, n: nat, k: nat)
    requires
        k <= bs.len(),
    ensures
        forall|a: int|
            0 <= a < segment_cuts(bs, n, k).len() ==> exists|q: int|
                0 <= q < k && #[trigger] segment_cuts(bs, n, k)[a] == bs[q] + 1,
    decreases k,
{
    if k > 0 {
        lemma_cuts_are_boundaries(bs, n, (k - 1) as nat);
        let cuts = segment_cuts(bs, n, (k - 1) as nat);
        let r = segment_cuts(bs, n, k);
        assert forall|a: int| 0 <= a < r.len() implies exists|q: int|
            0 <= q < k && #[trigger] r[a] == bs[q] + 1 by {
            if a < cuts.len() {
                assert(r[a] == cuts[a]);
                let q = choose|q: int| 0 <= q < k - 1 && cuts[a] == bs[q] + 1;
                assert(0 <= q < k && r[a] == bs[q] + 1);
            } else {
                assert(r[a] == bs[k - 1] + 1);
            }
        }
    }
}

/// Whatever the boundaries, every segment of `n > 0` utterances but the last
/// ends at one of the boundaries: segments are only ever cut after a boundary.
pub proof fn lemma_segment_ends_are_boundaries(bs: Seq<usize>, n: nat)
    requires
        0 < n <= usize::MAX,
    ensures
        forall|j: int|
            0 <= j < segments_of(bs, n).len() - 1 ==> exists|q: int|
                0 <= q < bs.len() && (#[trigger] segments_of(bs, n)[j]).last() == bs[q],
{
    lemma_cuts_shape(bs, n, bs.len());
    lemma_cuts_are_boundaries(bs, n, bs.len());
    let cuts = segment_cuts(bs, n, bs.len());
    let pts0 = seq![0int] + cuts;
    let pts = segment_points(bs, n);
    assert(forall|j: int| 1 <= j < pts0.len() ==> pts0[j] == #[trigger] cuts[j - 1]);
    if pts0.last() < n {
        assert(pts == pts0.push(n as int));
    } else {
        assert(pts == pts0);
    }
    assert forall|a: int, b: int| 0 <= a < b < pts.len() implies #[trigger] pts[a] < #[trigger] pts[b] by {
        if a > 0 && b < pts0.len() {
            assert(cuts[a - 1] < cuts[b - 1]);
        } else if a == 0 && b < pts0.len() {
            assert(0 < cuts[b - 1]);
        } else if a > 0 {
            assert(cuts[a - 1] <= n);
            if a < pts0.len() {
                assert(pts[a] == cuts[a - 1]);
            }
        }
    }
    assert(pts.last() == n);
    assert(pts.len() >= 2);
    let segs = segments_of(bs, n);
    assert forall|j: int| 0 <= j < segs.len() - 1 implies exists|q: int|
        0 <= q < bs.len() && (#[trigger] segs[j]).last() == bs[q] by {
        assert(pts[j] < pts[j + 1] < pts[j + 2]);
        assert(segs[j] == index_range(pts[j], pts[j + 1]));
        assert(j + 1 < pts0.len());
        assert(pts[j + 1] == cuts[j]);
        let q = choose|q: int| 0 <= q < bs.len() && cuts[j] == bs[q] + 1;
        assert(segs[j].last() == bs[q]);
    }
}

fn push_range(segments: &mut Vec<Vec<usize>>, lo: usize, hi: usize)
    requires
        lo <= hi,
    ensures
        final(segments)@.len() == old(segments)@.len() + 1,
        forall|j: int| 0 <= j < old(segments)@.len() ==> final(segments)@[j]@ == old(segments)@[j]@,
        final(segments)@.last()@ == index_range(lo as int, hi as int),
{
    let mut seg: Vec<usize> = Vec::new();
    let mut x = lo;
    while x < hi
        invariant
            lo <= x <= hi,
            seg@ == index_range(lo as int, x as int),
        decreases hi - x,
    {
        seg.push(x);
        x = x + 1;
        assert(seg@ =~= index_range(lo as int, x as int));
    }
    segments.push(seg);
}

/// Splits utterances `0..num_utterances` into consecutive segments, cutting
/// after each boundary index that lies past the previous cut and before the
/// end. Boundaries are expected in ascending order; others are skipped.
pub fn segment_events(num_utterances: usize, boundaries: &[usize]) -> (segments: Vec<Vec<usize>>)
    requires
        num_utterances > 0 ==> forall|i: int|
            0 <= i < boundaries@.len() ==> #[trigger] boundaries@[i] < usize::MAX,
    ensures
        num_utterances == 0 ==> segments@.len() == 0,
        num_utterances > 0 ==> segments@.len() == segments_of(boundaries@, num_utterances as nat).len(),
        num_utterances > 0 ==> forall|j: int|
            0 <= j < segments@.len() ==> #[trigger] segments@[j]@ == segments_of(
                boundaries@,
                num_utterances as nat,
            )[j],
{
    let mut segments: Vec<Vec<usize>> = Vec::new();
    if num_utterances == 0 {
        return segments;
    }
    let ghost n = num_utterances as nat;
    let ghost bs = boundaries@;
    let mut start: usize = 0;
    let mut k: usize = 0;
    while k < boundaries.len()
        invariant
            k <= bs.len(),
            bs == boundaries@,
            n == num_utterances,
            n > 0,
            forall|i: int| 0 <= i < bs.len() ==> #[trigger] bs[i] < usize::MAX,
            segments@.len() == segment_cuts(bs, n, k as nat).len(),
            start == if segment_cuts(bs, n, k as nat).len() == 0 {
                0
            } else {
                segment_cuts(bs, n, k as nat).last()
            },
            forall|j: int|
                0 <= j < segments@.len() ==> #[trigger] segments@[j]@ == index_range(
                    (seq![0int] + segment_cuts(bs, n, k as nat))[j],
                    (seq![0int] + segment_cuts(bs, n, k as nat))[j + 1],
                ),
        decreases bs.len() - k,
    {
        proof {
            lemma_cuts_shape(bs, n, k as nat);
        }
        let end = boundaries[k] + 1;
        let ghost cuts = segment_cuts(bs, n, k as nat);
        if start < end && end <= num_utterances {
            push_range(&mut segments, start, end);
            start = end;
            proof {
                let nc = segment_cuts(bs, n, (k + 1) as nat);
                assert(nc == cuts.push(end as int));
                assert forall|j: int| 0 <= j < segments@.len() implies #[trigger] segments@[j]@
                    == index_range((seq![0int] + nc)[j], (seq![0int] + nc)[j + 1]) by {
                    if j < cuts.len() {
                        assert((seq![0int] + nc)[j] == (seq![0int] + cuts)[j]);
                        assert((seq![0int] + nc)[j + 1] == (seq![0int] + cuts)[j + 1]);
                    } else {
                        assert((seq![0int] + nc)[j + 1] == end);
                        if cuts.len() > 0 {
                            assert((seq![0int] + nc)[j] == cuts.last());
                        }
                    }
                }
            }
        }
        k = k + 1;
    }
    proof {
        lemma_cuts_shape(bs, n, bs.len());
    }
    let ghost cuts = segment_cuts(bs, n, bs.len());
    let ghost pts = seq![0int] + cuts;
    if start < num_utterances {
        push_range(&mut segments, start, num_utterances);
        proof {
            assert(segment_points(bs, n) == pts.push(n as int));
            assert forall|j: int| 0 <= j < segments@.len() implies #[trigger] segments@[j]@
                == segments_of(bs, n)[j] by {
                if j < cuts.len() {
                } else {
                    if cuts.len() > 0 {
                        assert(pts[j] == cuts.last());
                    }
                }
            }
        }
    } else {
        proof {
            assert(pts.last() == n);
            assert(segment_points(bs, n) == pts);
        }
    }
    segments
}

/// The value of the last semantic boundary at `index`, if any.
pub open spec fn last_semantic<T>(semantic: Seq<(usize, T)>, index: usize) -> Option<T>
    decreases semantic.len(),
{
    if semantic.len() == 0 {
        None
    } else if semantic.last().0 == index {
        Some(semantic.last().1)
    } else {
        last_semantic(semantic.drop_last(), index)
    }
}

/// Whether `index` is among the temporal boundaries.
pub open spec fn in_temporal(temporal: Seq<usize>, index: usize) -> bool {
    exists|i: int| 0 <= i < temporal.len() && temporal[i] == index
}

/// Indices strictly increasing.
pub open spec fn strictly_sorted<T>(s: Seq<(usize, T)>) -> bool {
    forall|a: int, b: int| 0 <= a < b < s.len() ==> (#[trigger] s[a]).0 < (#[trigger] s[b]).0
}

/// Position in the sorted `s` where `index` is or would go.
fn slot<T: Copy>(s: &Vec<(usize, T)>, index: usize) -> (p: usize)
    requires
        strictly_sorted(s@),
    ensures
        p <= s@.len(),
        forall|a: int| 0 <= a < p ==> s@[a].0 < index,
        forall|a: int| p < a < s@.len() ==> s@[a].0 > index,
        p < s@.len() ==> s@[p as int].0 >= index,
{
    let mut p: usize = 0;
    while p < s.len() && s[p].0 < index
        invariant
            p <= s@.len(),
            forall|a: int| 0 <= a < p ==> s@[a].0 < index,
        decreases s@.len() - p,
    {
        p = p + 1;
    }
    proof {
        if p < s@.len() {
            assert forall|a: int| p < a < s@.len() implies s@[a].0 > index by {
                assert(s@[p as int].0 < s@[a].0);
            }
        }
    }
    p
}

/// Merges semantic boundaries (index, value) with temporal boundary indices:
/// one entry per index, ascending; an index keeps the value of its last
/// semantic boundary, and a temporal-only index gets `fill`.
pub fn merge_boundaries<T: Copy>(semantic: &[(usize, T)], temporal_indices: &[usize], fill: T) -> (merged: Vec<(usize, T)>)
    ensures
        strictly_sorted(merged@),
        forall|i: int|
            0 <= i < merged@.len() ==> (last_semantic(semantic@, #[trigger] merged@[i].0) is Some
                || in_temporal(temporal_indices@, merged@[i].0)),
        forall|x: usize|
            #![trigger last_semantic(semantic@, x)]
            #![trigger in_temporal(temporal_indices@, x)]
            (last_semantic(semantic@, x) is Some || in_temporal(temporal_indices@, x)) ==> exists|
                i: int,
            | 0 <= i < merged@.len() && #[trigger] merged@[i].0 == x,
        forall|i: int|
            0 <= i < merged@.len() ==> #[trigger] merged@[i].1 == match last_semantic(
                semantic@,
                merged@[i].0,
            ) {
                Some(v) => v,
                None => fill,
            },
{
    let mut merged: Vec<(usize, T)> = Vec::new();
    let mut k: usize = 0;
    while k < semantic.len()
        invariant
            k <= semantic@.len(),
            strictly_sorted(merged@),
            forall|i: int|
                0 <= i < merged@.len() ==> last_semantic(semantic@.subrange(0, k as int), #[trigger] merged@[i].0)
                    == Some(merged@[i].1),
            forall|x: usize|
                #![trigger last_semantic(semantic@.subrange(0, k as int), x)]
                last_semantic(semantic@.subrange(0, k as int), x) is Some ==> exists|i: int|
                    0 <= i < merged@.len() && #[trigger] merged@[i].0 == x,
        decreases semantic@.len() - k,
    {
        let (index, value) = semantic[k];
        let ghost pre = semantic@.subrange(0, k as int);
        let ghost next = semantic@.subrange(0, k + 1);
        proof {
            assert(next.drop_last() =~= pre);
            assert(next.last() == (index, value));
            assert(last_semantic(next, index) == Some(value));
            assert forall|x: usize| x != index implies #[trigger] last_semantic(next, x)
                == last_semantic(pre, x) by {}
        }
        let ghost before = merged@;
        let p = slot(&merged, index);
        if p < merged.len() && merged[p].0 == index {
            merged.set(p, (index, value));
            proof {
                assert forall|a: int, b: int| 0 <= a < b < merged@.len() implies (
                #[trigger] merged@[a]).0 < (#[trigger] merged@[b]).0 by {
                    assert(before[a].0 < before[b].0);
                }
                assert forall|x: usize| last_semantic(next, x) is Some implies exists|i: int|
                    0 <= i < merged@.len() && #[trigger] merged@[i].0 == x by {
                    if x == index {
                        assert(merged@[p as int].0 == x);
                    } else {
                        let i = choose|i: int| 0 <= i < before.len() && #[trigger] before[i].0 == x;
                        assert(merged@[i].0 == x);
                    }
                }
            }
        } else {
            merged.insert(p, (index, value));
            proof {
                assert forall|a: int, b: int| 0 <= a < b < merged@.len() implies (
                #[trigger] merged@[a]).0 < (#[trigger] merged@[b]).0 by {
                    if b < p {
                        assert(merged@[a] == before[a]);
                        assert(merged@[b] == before[b]);
                        assert(before[a].0 < before[b].0);
                    } else if b == p {
                        assert(merged@[a] == before[a]);
                    } else if a < p {
                        assert(merged@[a] == before[a]);
                        assert(merged@[b] == before[b - 1]);
                    } else if a == p {
                        assert(merged@[b] == before[b - 1]);
                        if b - 1 > p {
                            assert(before[p as int].0 < before[b - 1].0);
                        }
                    } else {
                        assert(merged@[a] == before[a - 1]);
                        assert(merged@[b] == before[b - 1]);
                        assert(before[a - 1].0 < before[b - 1].0);
                    }
                }
                assert forall|i: int| 0 <= i < merged@.len() implies last_semantic(
                    next,
                    #[trigger] merged@[i].0,
                ) == Some(merged@[i].1) by {
                    if i < p {
                        assert(merged@[i] == before[i]);
                    } else if i > p {
                        assert(merged@[i] == before[i - 1]);
                    }
                }
                assert forall|x: usize| last_semantic(next, x) is Some implies exists|i: int|
                    0 <= i < merged@.len() && #[trigger] merged@[i].0 == x by {
                    if x == index {
                        assert(merged@[p as int].0 == x);
                    } else {
                        let i = choose|i: int| 0 <= i < before.len() && #[trigger] before[i].0 == x;
                        if i < p {
                            assert(merged@[i] == before[i]);
                        } else {
                            assert(merged@[i + 1] == before[i]);
                        }
                    }
                }
            }
        }
        k = k + 1;
    }
    assert(semantic@.subrange(0, semantic@.len() as int) =~= semantic@);
    let mut m: usize = 0;
    while m < temporal_indices.len()
        invariant
            m <= temporal_indices@.len(),
            strictly_sorted(merged@),
            forall|i: int|
                0 <= i < merged@.len() ==> (last_semantic(semantic@, #[trigger] merged@[i].0) is Some
                    || in_temporal(temporal_indices@.subrange(0, m as int), merged@[i].0)),
            forall|x: usize|
                #![trigger last_semantic(semantic@, x)]
                #![trigger in_temporal(temporal_indices@.subrange(0, m as int), x)]
                (last_semantic(semantic@, x) is Some || in_temporal(
                    temporal_indices@.subrange(0, m as int),
                    x,
                )) ==> exists|i: int| 0 <= i < merged@.len() && #[trigger] merged@[i].0 == x,
            forall|i: int|
                0 <= i < merged@.len() ==> #[trigger] merged@[i].1 == match last_semantic(
                    semantic@,
                    merged@[i].0,
                ) {
                    Some(v) => v,
                    None => fill,
                },
        decreases temporal_indices@.len() - m,
    {
        let index = temporal_indices[m];
        let ghost pre = temporal_indices@.subrange(0, m as int);
        let ghost next = temporal_indices@.subrange(0, m + 1);
        proof {
            assert forall|x: usize| in_temporal(next, x) implies (in_temporal(pre, x) || x == index) by {
                let i = choose|i: int| 0 <= i < next.len() && next[i] == x;
                if i < m {
                    assert(pre[i] == x);
                }
            }
            assert forall|x: usize| in_temporal(pre, x) implies in_temporal(next, x) by {
                let i = choose|i: int| 0 <= i < pre.len() && pre[i] == x;
                assert(next[i] == x);
            }
            assert(next[m as int] == index);
            assert(in_temporal(next, index));
        }
        let ghost before = merged@;
        let p = slot(&merged, index);
        if p < merged.len() && merged[p].0 == index {
            proof {
                assert forall|x: usize|
                    (last_semantic(semantic@, x) is Some || in_temporal(next, x)) implies exists|
                    i: int,
                | 0 <= i < merged@.len() && #[trigger] merged@[i].0 == x by {
                    if x == index {
                        assert(merged@[p as int].0 == x);
                    } else if in_temporal(next, x) {
                        assert(in_temporal(pre, x));
                    }
                }
                assert forall|i: int| 0 <= i < merged@.len() implies (last_semantic(
                    semantic@,
                    #[trigger] merged@[i].0,
                ) is Some || in_temporal(next, merged@[i].0)) by {
                    if in_temporal(pre, merged@[i].0) {
                        assert(in_temporal(next, merged@[i].0));
                    }
                }
            }
        } else {
            proof {
                if last_semantic(semantic@, index) is Some {
                    assert(exists|i: int| 0 <= i < before.len() && #[trigger] before[i].0 == index);
                    let i = choose|i: int| 0 <= i < before.len() && #[trigger] before[i].0 == index;
                    if i < p {
                        assert(before[i].0 < index);
                    } else if i > p {
                        assert(before[i].0 > index);
                    }
                    assert(false);
                }
            }
            merged.insert(p, (index, fill));
            proof {
                assert forall|a: int, b: int| 0 <= a < b < merged@.len() implies (
                #[trigger] merged@[a]).0 < (#[trigger] merged@[b]).0 by {
                    if b < p {
                        assert(merged@[a] == before[a]);
                        assert(merged@[b] == before[b]);
                        assert(before[a].0 < before[b].0);
                    } else if b == p {
                        assert(merged@[a] == before[a]);
                    } else if a < p {
                        assert(merged@[a] == before[a]);
                        assert(merged@[b] == before[b - 1]);
                    } else if a == p {
                        assert(merged@[b] == before[b - 1]);
                        if b - 1 > p {
                            assert(before[p as int].0 < before[b - 1].0);
                        }
                    } else {
                        assert(merged@[a] == before[a - 1]);
                        assert(merged@[b] == before[b - 1]);
                        assert(before[a - 1].0 < before[b - 1].0);
                    }
                }
                assert forall|i: int| 0 <= i < merged@.len() implies (last_semantic(
                    semantic@,
                    #[trigger] merged@[i].0,
                ) is Some || in_temporal(next, merged@[i].0)) by {
                    if i < p {
                        assert(merged@[i] == before[i]);
                    } else if i > p {
                        assert(merged@[i] == before[i - 1]);
                    }
                }
                assert forall|i: int| 0 <= i < merged@.len() implies #[trigger] merged@[i].1
                    == match last_semantic(semantic@, merged@[i].0) {
                    Some(v) => v,
                    None => fill,
                } by {
                    if i < p {
                        assert(merged@[i] == before[i]);
                    } else if i > p {
                        assert(merged@[i] == before[i - 1]);
                    }
                }
                assert forall|x: usize|
                    (last_semantic(semantic@, x) is Some || in_temporal(next, x)) implies exists|
                    i: int,
                | 0 <= i < merged@.len() && #[trigger] merged@[i].0 == x by {
                    if x == index {
                        assert(merged@[p as int].0 == x);
                    } else {
                        if in_temporal(next, x) {
                            assert(in_temporal(pre, x));
                        }
                        let i = choose|i: int| 0 <= i < before.len() && #[trigger] before[i].0 == x;
                        if i < p {
                            assert(merged@[i] == before[i]);
                        } else {
                            assert(merged@[i + 1] == before[i]);
                        }
                    }
                }
            }
        }
        proof {
            assert forall|x: usize|
                (last_semantic(semantic@, x) is Some || in_temporal(
                    temporal_indices@.subrange(0, m + 1),
                    x,
                )) implies exists|i: int| 0 <= i < merged@.len() && #[trigger] merged@[i].0 == x by {
                if in_temporal(temporal_indices@.subrange(0, m + 1), x) {
                    assert(in_temporal(next, x));
                }
            }
        }
        m = m + 1;
    }
    assert(temporal_indices@.subrange(0, temporal_indices@.len() as int) =~= temporal_indices@);
    merged
}

/// Whether a detected boundary and a true one lie within `tolerance`.
pub open spec fn within_tolerance(d: usize, g: usize, tolerance: usize) -> bool {
    abs_int(d - g) <= tolerance
}

/// Whether truth boundary `g` is free and close enough to `d`.
pub open spec fn can_match(
    truth: Seq<usize>,
    matched: Seq<bool>,
    d: usize,
    tolerance: usize,
    g: int,
) -> bool {
    0 <= g < truth.len() && !matched[g] && within_tolerance(d, truth[g], tolerance)
}

/// The first free truth boundary close enough to `d`, if any.
pub open spec fn first_free(
    truth: Seq<usize>,
    matched: Seq<bool>,
    d: usize,
    tolerance: usize,
) -> Option<int> {
    if exists|g: int| can_match(truth, matched, d, tolerance, g) {
        Some(
            choose|g: int|
                can_match(truth, matched, d, tolerance, g) && forall|h: int|
                    0 <= h < g ==> !can_match(truth, matched, d, tolerance, h),
        )
    } else {
        None
    }
}

/// Which truth boundaries the first `k` detections claimed, each detection
/// taking the first free truth boundary within tolerance.
pub open spec fn greedy_matched(
    detected: Seq<usize>,
    truth: Seq<usize>,
    tolerance: usize,
    k: nat,
) -> Seq<bool>
    decreases k,
{
    if k == 0 {
        Seq::new(truth.len(), |i: int| false)
    } else {
        let m = greedy_matched(detected, truth, tolerance, (k - 1) as nat);
        match first_free(truth, m, detected[k - 1], tolerance) {
            Some(g) => m.update(g, true),
            None => m,
        }
    }
}

/// How many of the first `k` detections found a truth boundary.
pub open spec fn true_positives(detected: Seq<usize>, truth: Seq<usize>, tolerance: usize, k: nat) -> nat
    decreases k,
{
    if k == 0 {
        0
    } else {
        true_positives(detected, truth, tolerance, (k - 1) as nat) + if first_free(
            truth,
            greedy_matched(detected, truth, tolerance, (k - 1) as nat),
            detected[k - 1],
            tolerance,
        ) is Some {
            1nat
        } else {
            0nat
        }
    }
}

/// Number of `true` flags.
pub open spec fn count_true(m: Seq<bool>) -> nat
    decreases m.len(),
{
    if m.len() == 0 {
        0
    } else {
        count_true(m.drop_last()) + if m.last() {
            1nat
        } else {
            0nat
        }
    }
}

proof fn lemma_count_true_update(m: Seq<bool>, g: int)
    requires
        0 <= g < m.len(),
        !m[g],
    ensures
        count_true(m.update(g, true)) == count_true(m) + 1,
    decreases m.len(),
{
    let u = m.update(g, true);
    if g == m.len() - 1 {
        assert(u.drop_last() =~= m.drop_last());
    } else {
        lemma_count_true_update(m.drop_last(), g);
        assert(u.drop_last() =~= m.drop_last().update(g, true));
    }
}

proof fn lemma_count_true_bound(m: Seq<bool>)
    ensures
        count_true(m) <= m.len(),
    decreases m.len(),
{
    if m.len() > 0 {
        lemma_count_true_bound(m.drop_last());
    }
}

proof fn lemma_count_true_none(n: nat)
    ensures
        count_true(Seq::new(n, |i: int| false)) == 0,
    decreases n,
{
    if n > 0 {
        lemma_count_true_none((n - 1) as nat);
        assert(Seq::new(n, |i: int| false).drop_last() =~= Seq::new((n - 1) as nat, |i: int| false));
    }
}

fn abs_diff(a: usize, b: usize) -> (d: usize)
    ensures
        d == abs_int(a - b),
{
    if a >= b {
        a - b
    } else {
        b - a
    }
}

/// How many detected boundaries match a ground-truth boundary: in order, each
/// detection claims the first unclaimed truth boundary within `tolerance`.
/// Precision is this count over the detections, recall over the truth.
pub fn boundary_true_positives(detected: &[usize], ground_truth: &[usize], tolerance: usize) -> (tp: usize)
    ensures
        tp == true_positives(detected@, ground_truth@, tolerance, detected@.len()),
        tp <= detected@.len(),
        tp <= ground_truth@.len(),
{
    let ghost det = detected@;
    let ghost truth = ground_truth@;
    let mut matched: Vec<bool> = Vec::new();
    let mut z: usize = 0;
    while z < ground_truth.len()
        invariant
            z <= truth.len(),
            truth == ground_truth@,
            matched@ == Seq::new(z as nat, |i: int| false),
        decreases truth.len() - z,
    {
        matched.push(false);
        z = z + 1;
        assert(matched@ =~= Seq::new(z as nat, |i: int| false));
    }
    proof {
        lemma_count_true_none(truth.len());
    }
    let mut tp: usize = 0;
    let mut k: usize = 0;
    while k < detected.len()
        invariant
            k <= det.len(),
            det == detected@,
            truth == ground_truth@,
            matched@ == greedy_matched(det, truth, tolerance, k as nat),
            matched@.len() == truth.len(),
            tp == true_positives(det, truth, tolerance, k as nat),
            tp == count_true(matched@),
            tp <= k,
        decreases det.len() - k,
    {
        let d = detected[k];
        let ghost m = matched@;
        let mut g: usize = 0;
        let mut found: Option<usize> = None;
        while g < ground_truth.len()
            invariant_except_break
                found is None,
            invariant
                g <= truth.len(),
                truth == ground_truth@,
                matched@ == m,
                m.len() == truth.len(),
                forall|h: int| 0 <= h < g ==> !can_match(truth, m, d, tolerance, h),
            ensures
                match found {
                    Some(f) => f < truth.len() && can_match(truth, m, d, tolerance, f as int)
                        && forall|h: int| 0 <= h < f ==> !can_match(truth, m, d, tolerance, h),
                    None => forall|h: int| 0 <= h < truth.len() ==> !can_match(truth, m, d, tolerance, h),
                },
            decreases truth.len() - g,
        {
            if !matched[g] && abs_diff(d, ground_truth[g]) <= tolerance {
                found = Some(g);
                break;
            }
            g = g + 1;
        }
        match found {
            Some(f) => {
                proof {
                    assert(can_match(truth, m, d, tolerance, f as int));
                    let c = first_free(truth, m, d, tolerance).unwrap();
                    if c < f {
                        assert(!can_match(truth, m, d, tolerance, c));
                    } else if c > f {
                    }
                    assert(first_free(truth, m, d, tolerance) == Some(f as int));
                    lemma_count_true_update(m, f as int);
                    lemma_count_true_bound(m.update(f as int, true));
                }
                matched.set(f, true);
                tp = tp + 1;
            },
            None => {
                assert(first_free(truth, m, d, tolerance) is None);
            },
        }
        k = k + 1;
    }
    proof {
        lemma_count_true_bound(matched@);
    }
    tp
}

/// The segments partition the utterances: they start at 0, end at the last
/// utterance, are non-empty runs of consecutive indices, and each begins where
/// the previous one ended.
pub proof fn lemma_segments_partition(boundaries: Seq<usize>, n: nat)
    requires
        0 < n <= usize::MAX,
    ensures
        segments_of(boundaries, n).len() >= 1,
        segments_of(boundaries, n)[0][0] == 0,
        segments_of(boundaries, n).last().last() == n - 1,
        forall|j: int|
            0 <= j < segments_of(boundaries, n).len() ==> #[trigger] segments_of(boundaries, n)[j].len()
                > 0,
        forall|j: int, t: int|
            0 <= j < segments_of(boundaries, n).len() && 0 <= t < segments_of(boundaries, n)[j].len()
                ==> #[trigger] segments_of(boundaries, n)[j][t] == segments_of(boundaries, n)[j][0] + t,
        forall|j: int|
            0 <= j < segments_of(boundaries, n).len() - 1 ==> #[trigger] segments_of(
                boundaries,
                n,
            )[j + 1][0] == segments_of(boundaries, n)[j].last() + 1,
{
    lemma_cuts_shape(boundaries, n, boundaries.len());
    let cuts = segment_cuts(boundaries, n, boundaries.len());
    let pts0 = seq![0int] + cuts;
    let pts = segment_points(boundaries, n);
    assert forall|a: int, b: int| 0 <= a < b < pts0.len() implies #[trigger] pts0[a] < #[trigger] pts0[b] by {
        if a == 0 {
            assert(pts0[b] == cuts[b - 1]);
        } else {
            assert(pts0[a] == cuts[a - 1]);
            assert(pts0[b] == cuts[b - 1]);
        }
    }
    assert(pts0.last() <= n) by {
        if cuts.len() > 0 {
            assert(pts0.last() == cuts[cuts.len() - 1]);
        }
    }
    assert(forall|a: int, b: int| 0 <= a < b < pts.len() ==> #[trigger] pts[a] < #[trigger] pts[b]);
    assert(pts[0] == 0);
    assert(pts.last() == n);
    assert(pts.len() >= 2);
    let segs = segments_of(boundaries, n);
    assert forall|j: int| 0 <= j < segs.len() implies #[trigger] segs[j].len() > 0 by {
        assert(pts[j] < pts[j + 1]);
    }
    assert forall|j: int, t: int| 0 <= j < segs.len() && 0 <= t < segs[j].len() implies #[trigger] segs[j][t]
        == segs[j][0] + t by {
        assert(0 <= pts[j] < pts[j + 1] <= n);
        assert(segs[j][t] == pts[j] + t);
        assert(segs[j][0] == pts[j]);
    }
    let last = pts.len() - 2;
    assert(segs.last() == index_range(pts[last], pts[last + 1]));
    assert(0 <= pts[last] < pts[last + 1]);
    assert(segs.last().last() == pts[last + 1] - 1);
}

} // verus!
