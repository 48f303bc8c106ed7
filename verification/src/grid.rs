use vstd::prelude::*;
use vstd::relations::{sorted_by, total_ordering};
use vstd::seq_lib::lemma_sorted_unique;

verus! {

broadcast use vstd::seq_lib::group_to_multiset_ensures;

/// Ascending order on cut positions.
pub open spec fn usize_leq() -> spec_fn(usize, usize) -> bool {
    |a: usize, b: usize| a <= b
}

/// Ascending (non-strict) order.
pub open spec fn sorted_asc(s: Seq<usize>) -> bool {
    forall|i: int, j: int| 0 <= i < j < s.len() ==> s[i] <= s[j]
}

/// Each element is smaller than the next.
pub open spec fn strictly_increasing(s: Seq<usize>) -> bool {
    forall|i: int, j: int| 0 <= i < j < s.len() ==> s[i] < s[j]
}

/// A cut position clamped into `[0, limit]`.
pub open spec fn clamp_cut(c: usize, limit: usize) -> usize {
    if c >= limit {
        limit
    } else {
        c
    }
}

/// `v` belongs to the sanitized cuts: it is `0`, `limit`, or a clamped input cut.
pub open spec fn is_sanitized_cut(cuts: Seq<usize>, limit: usize, v: usize) -> bool {
    ||| v == 0
    ||| v == limit
    ||| exists|i: int| 0 <= i < cuts.len() && clamp_cut(#[trigger] cuts[i], limit) == v
}

proof fn lemma_usize_leq_total()
    ensures
        total_ordering(usize_leq()),
{
}

/// Inserts `x` into a sorted vector at its place.
fn insert_sorted(v: &mut Vec<usize>, x: usize)
    requires
        sorted_asc(old(v)@),
    ensures
        sorted_asc(final(v)@),
        final(v)@.to_multiset() == old(v)@.to_multiset().insert(x),
{
    let mut pos = v.len();
    while pos > 0 && v[pos - 1] > x
        invariant
            pos <= v@.len(),
            v@ == old(v)@,
            forall|k: int| pos <= k < v@.len() ==> v@[k] > x,
        decreases pos,
    {
        pos = pos - 1;
    }
    let ghost before = v@;
    v.insert(pos, x);
    proof {
        vstd::seq_lib::to_multiset_insert(before, pos as int, x);
        assert forall|i: int, j: int| 0 <= i < j < v@.len() implies v@[i] <= v@[j] by {
            if j < pos {
            } else if j == pos {
                assert(v@[i] == before[i]);
                assert(before[i] <= before[pos - 1]);
            } else if i < pos {
                assert(v@[j] == before[j - 1]);
            } else if i == pos {
                assert(v@[j] == before[j - 1]);
            } else {
                assert(v@[i] == before[i - 1]);
                assert(v@[j] == before[j - 1]);
            }
        }
    }
}

/// A sorted copy of `v`.
pub fn sorted_copy(v: &[usize]) -> (s: Vec<usize>)
    ensures
        sorted_asc(s@),
        s@.to_multiset() == v@.to_multiset(),
{
    let mut s: Vec<usize> = Vec::with_capacity(v.len());
    let mut i: usize = 0;
    while i < v.len()
        invariant
            i <= v@.len(),
            sorted_asc(s@),
            s@.to_multiset() == v@.take(i as int).to_multiset(),
        decreases v@.len() - i,
    {
        insert_sorted(&mut s, v[i]);
        assert(v@.take(i + 1) == v@.take(i as int).push(v@[i as int]));
        i = i + 1;
    }
    assert(v@.take(v@.len() as int) == v@);
    s
}

/// Inserts `x` into a strictly increasing vector unless it is there already.
fn insert_unique(v: &mut Vec<usize>, x: usize)
    requires
        strictly_increasing(old(v)@),
    ensures
        strictly_increasing(final(v)@),
        forall|y: usize| final(v)@.contains(y) <==> (old(v)@.contains(y) || y == x),
{
    let mut pos = v.len();
    while pos > 0 && v[pos - 1] > x
        invariant
            pos <= v@.len(),
            v@ == old(v)@,
            forall|k: int| pos <= k < v@.len() ==> v@[k] > x,
        decreases pos,
    {
        pos = pos - 1;
    }
    if pos > 0 && v[pos - 1] == x {
        assert(v@.contains(x));
        return;
    }
    let ghost before = v@;
    assert(before == old(v)@);
    v.insert(pos, x);
    proof {
        assert forall|i: int, j: int| 0 <= i < j < v@.len() implies v@[i] < v@[j] by {
            if j < pos {
            } else if j == pos {
                assert(v@[i] == before[i]);
                assert(before[i] <= before[pos - 1]);
            } else if i < pos {
                assert(v@[j] == before[j - 1]);
            } else if i == pos {
                assert(v@[j] == before[j - 1]);
            } else {
                assert(v@[i] == before[i - 1]);
                assert(v@[j] == before[j - 1]);
            }
        }
        assert forall|y: usize| v@.contains(y) <==> (before.contains(y) || y == x) by {
            if v@.contains(y) {
                let k = choose|k: int| 0 <= k < v@.len() && v@[k] == y;
                if k < pos {
                    assert(before[k] == y);
                } else if k > pos {
                    assert(before[k - 1] == y);
                }
            }
            if before.contains(y) {
                let k = choose|k: int| 0 <= k < before.len() && before[k] == y;
                if k < pos {
                    assert(v@[k] == y);
                } else {
                    assert(v@[k + 1] == y);
                }
            }
            if y == x {
                assert(v@[pos as int] == x);
            }
        }
        assert(forall|y: usize| v@.contains(y) <==> (old(v)@.contains(y) || y == x));
    }
}

/// Clamps every cut into `[0, limit]`, adds `0` and `limit`, sorts and removes
/// duplicates.
pub fn sanitize_cuts(cuts: Vec<usize>, limit: usize) -> (res: Vec<usize>)
    ensures
        strictly_increasing(res@),
        forall|v: usize| res@.contains(v) <==> is_sanitized_cut(cuts@, limit, v),
{
    let mut res: Vec<usize> = Vec::with_capacity(cuts.len());
    if limit == 0 {
        res.push(0);
        proof {
            assert forall|v: usize| res@.contains(v) <==> is_sanitized_cut(cuts@, limit, v) by {
                if res@.contains(v) {
                    assert(res@[0] == 0);
                }
                if is_sanitized_cut(cuts@, limit, v) {
                    assert(res@[0] == v);
                }
            }
        }
        return res;
    }
    insert_unique(&mut res, 0);
    insert_unique(&mut res, limit);
    let mut i: usize = 0;
    while i < cuts.len()
        invariant
            i <= cuts@.len(),
            strictly_increasing(res@),
            forall|v: usize| res@.contains(v) <==> (v == 0 || v == limit || exists|k: int|
                0 <= k < i && clamp_cut(#[trigger] cuts@[k], limit) == v),
        decreases cuts@.len() - i,
    {
        let c = if cuts[i] >= limit { limit } else { cuts[i] };
        insert_unique(&mut res, c);
        proof {
            assert forall|v: usize| res@.contains(v) <==> (v == 0 || v == limit || exists|k: int|
                0 <= k < i + 1 && clamp_cut(#[trigger] cuts@[k], limit) == v) by {
                if v == c {
                    assert(clamp_cut(cuts@[i as int], limit) == v);
                }
            }
        }
        i = i + 1;
    }
    res
}

/// Sanitizing sanitized cuts changes nothing.
pub proof fn law_sanitize_cuts_idempotent(cuts: Seq<usize>, limit: usize, once: Seq<usize>, twice: Seq<usize>)
    requires
        strictly_increasing(once),
        forall|v: usize| once.contains(v) <==> is_sanitized_cut(cuts, limit, v),
        strictly_increasing(twice),
        forall|v: usize| twice.contains(v) <==> is_sanitized_cut(once, limit, v),
    ensures
        twice == once,
{
    assert forall|v: usize| twice.contains(v) <==> once.contains(v) by {
        if once.contains(v) {
            let k = choose|k: int| 0 <= k < once.len() && once[k] == v;
            assert(v <= limit) by {
                if v != 0 && v != limit {
                    let i = choose|i: int| 0 <= i < cuts.len() && clamp_cut(#[trigger] cuts[i], limit) == v;
                }
            }
            assert(clamp_cut(once[k], limit) == v);
        }
        if twice.contains(v) && v != 0 && v != limit {
            let k = choose|k: int| 0 <= k < once.len() && clamp_cut(#[trigger] once[k], limit) == v;
            assert(once[k] <= limit) by {
                if once[k] != 0 && once[k] != limit {
                    assert(once.contains(once[k]));
                    let i = choose|i: int| 0 <= i < cuts.len() && clamp_cut(#[trigger] cuts[i], limit) == once[k];
                }
            }
            assert(once.contains(once[k]));
        }
        if twice.contains(v) && (v == 0 || v == limit) {
            assert(is_sanitized_cut(cuts, limit, v));
        }
    }
    lemma_strictly_increasing_unique(once, twice);
}

/// Sanitizing keeps every cut that lies within `[0, limit]`, and adds no
/// value but `0`, `limit` and the input cuts (cuts beyond `limit` become
/// `limit`).
pub proof fn law_sanitize_keeps_cuts_in_range(cuts: Seq<usize>, limit: usize, res: Seq<usize>)
    requires
        forall|v: usize| res.contains(v) <==> is_sanitized_cut(cuts, limit, v),
    ensures
        res.contains(0),
        res.contains(limit),
        forall|k: int| 0 <= k < cuts.len() && cuts[k] <= limit ==> res.contains(#[trigger] cuts[k]),
        forall|v: usize| #[trigger] res.contains(v) ==> v == 0 || v == limit || cuts.contains(v),
{
    assert(is_sanitized_cut(cuts, limit, 0));
    assert(is_sanitized_cut(cuts, limit, limit));
    assert forall|k: int| 0 <= k < cuts.len() && cuts[k] <= limit implies res.contains(#[trigger] cuts[k]) by {
        if cuts[k] < limit {
            assert(clamp_cut(cuts[k], limit) == cuts[k]);
        }
        assert(is_sanitized_cut(cuts, limit, cuts[k]));
    }
    assert forall|v: usize| #[trigger] res.contains(v) implies v == 0 || v == limit || cuts.contains(v) by {
        if v != 0 && v != limit {
            let k = choose|k: int| 0 <= k < cuts.len() && clamp_cut(#[trigger] cuts[k], limit) == v;
            assert(cuts[k] == v);
        }
    }
}

/// Sanitized cuts run from `0` to `limit`: they start at `0`, end at `limit`,
/// stay within `[0, limit]`, and hold at least two cuts when `limit > 0`.
pub proof fn law_sanitized_cuts_span(cuts: Seq<usize>, limit: usize, res: Seq<usize>)
    requires
        strictly_increasing(res),
        forall|v: usize| res.contains(v) <==> is_sanitized_cut(cuts, limit, v),
    ensures
        res.len() >= 1,
        res[0] == 0,
        res.last() == limit,
        forall|i: int| 0 <= i < res.len() ==> #[trigger] res[i] <= limit,
        limit > 0 ==> res.len() >= 2,
{
    assert(is_sanitized_cut(cuts, limit, 0));
    assert(res.contains(0usize));
    assert(res.contains(limit));
    assert forall|i: int| 0 <= i < res.len() implies #[trigger] res[i] <= limit by {
        assert(res.contains(res[i]));
        if res[i] != 0 && res[i] != limit {
            let k = choose|k: int| 0 <= k < cuts.len() && clamp_cut(#[trigger] cuts[k], limit) == res[i];
        }
    }
    let z = choose|k: int| 0 <= k < res.len() && res[k] == 0;
    let l = choose|k: int| 0 <= k < res.len() && res[k] == limit;
    if z > 0 {
        assert(res[0] < res[z]);
    }
    if l < res.len() - 1 {
        assert(res[l] < res[res.len() - 1]);
    }
    if limit > 0 {
        assert(z != l);
    }
}

/// Two strictly increasing sequences with the same elements are equal.
pub proof fn lemma_strictly_increasing_unique(a: Seq<usize>, b: Seq<usize>)
    requires
        strictly_increasing(a),
        strictly_increasing(b),
        forall|v: usize| a.contains(v) <==> b.contains(v),
    ensures
        a == b,
    decreases a.len() + b.len(),
{
    if a.len() == 0 {
        if b.len() > 0 {
            assert(b.contains(b[0]));
        }
        assert(b.len() == 0);
    } else if b.len() == 0 {
        assert(a.contains(a[0]));
    } else {
        assert(a.contains(a[0]));
        assert(b.contains(b[0]));
        let ia = choose|k: int| 0 <= k < a.len() && a[k] == b[0];
        let ib = choose|k: int| 0 <= k < b.len() && b[k] == a[0];
        assert(a[0] == b[0]) by {
            if a[0] < b[0] {
                assert(b[ib] == a[0]);
                if ib > 0 {
                    assert(b[0] < b[ib]);
                }
            } else if b[0] < a[0] {
                if ia > 0 {
                    assert(a[0] < a[ia]);
                }
            }
        }
        let ta = a.drop_first();
        let tb = b.drop_first();
        assert forall|v: usize| ta.contains(v) <==> tb.contains(v) by {
            if ta.contains(v) {
                let k = choose|k: int| 0 <= k < ta.len() && ta[k] == v;
                assert(a[k + 1] == v);
                assert(a.contains(v));
                let m = choose|m: int| 0 <= m < b.len() && b[m] == v;
                assert(m != 0);
                assert(tb[m - 1] == v);
            }
            if tb.contains(v) {
                let k = choose|k: int| 0 <= k < tb.len() && tb[k] == v;
                assert(b[k + 1] == v);
                assert(b.contains(v));
                let m = choose|m: int| 0 <= m < a.len() && a[m] == v;
                assert(m != 0);
                assert(ta[m - 1] == v);
            }
        }
        lemma_strictly_increasing_unique(ta, tb);
        assert(a == seq![a[0]] + ta);
        assert(b == seq![b[0]] + tb);
    }
}

} // verus!

verus! {

/// Peaks kept by the distance filter: the first peak, then every peak at
/// least `filter` positions after the last kept one.
pub open spec fn cleaned_peaks(peaks: Seq<usize>, filter: usize) -> Seq<usize>
    decreases peaks.len(),
{
    if peaks.len() <= 1 {
        peaks
    } else {
        let kept = cleaned_peaks(peaks.drop_last(), filter);
        if peaks.last() - kept.last() > filter - 1 {
            kept.push(peaks.last())
        } else {
            kept
        }
    }
}

/// Distances between neighbouring positions.
pub open spec fn gaps(s: Seq<usize>) -> Seq<usize> {
    Seq::new((s.len() - 1) as nat, |i: int| (s[i + 1] - s[i]) as usize)
}

/// The element at position `len / 2` of `s` in ascending order.
pub open spec fn upper_median(s: Seq<usize>) -> usize {
    s.sort_by(usize_leq())[(s.len() / 2) as int]
}

/// The grid step that a list of peak positions suggests: the median gap
/// between the peaks kept by the distance filter, if at least two are kept.
pub open spec fn peak_spacing(peaks: Seq<usize>, filter: usize) -> Option<usize> {
    if peaks.len() < 2 || cleaned_peaks(peaks, filter).len() < 2 {
        None
    } else {
        Some(upper_median(gaps(cleaned_peaks(peaks, filter))))
    }
}

/// Median spacing of the peaks of an edge profile, after dropping peaks closer
/// than `peak_distance_filter` to the previously kept one.
pub fn median_peak_spacing(peaks: &[usize], peak_distance_filter: usize) -> (res: Option<usize>)
    requires
        strictly_increasing(peaks@),
        peak_distance_filter >= 1,
    ensures
        res == peak_spacing(peaks@, peak_distance_filter),
{
    if peaks.len() < 2 {
        return None;
    }
    let mut clean: Vec<usize> = Vec::with_capacity(peaks.len());
    clean.push(peaks[0]);
    assert(peaks@.take(1) == seq![peaks@[0]]);
    let mut i: usize = 1;
    while i < peaks.len()
        invariant
            1 <= i <= peaks@.len(),
            strictly_increasing(peaks@),
            peak_distance_filter >= 1,
            clean@ == cleaned_peaks(peaks@.take(i as int), peak_distance_filter),
            clean@.len() >= 1,
            clean@.last() <= peaks@[i - 1],
            strictly_increasing(clean@),
        decreases peaks@.len() - i,
    {
        let p = peaks[i];
        let last = clean[clean.len() - 1];
        assert(peaks@.take(i + 1).drop_last() == peaks@.take(i as int));
        if p - last > peak_distance_filter - 1 {
            clean.push(p);
        }
        i = i + 1;
    }
    assert(peaks@.take(peaks@.len() as int) == peaks@);
    if clean.len() < 2 {
        return None;
    }
    let mut diffs: Vec<usize> = Vec::with_capacity(clean.len() - 1);
    let mut j: usize = 0;
    while j < clean.len() - 1
        invariant
            clean@.len() >= 2,
            j + 1 <= clean@.len(),
            strictly_increasing(clean@),
            diffs@ == gaps(clean@).take(j as int),
        decreases clean@.len() - j,
    {
        diffs.push(clean[j + 1] - clean[j]);
        j = j + 1;
    }
    assert(diffs@ == gaps(clean@));
    let sorted = sorted_copy(&diffs);
    proof {
        assert(sorted@.to_multiset().len() == sorted@.len());
        assert(diffs@.to_multiset().len() == diffs@.len());
        assert forall|a: int, b: int| 0 <= a < b < sorted@.len() implies #[trigger] usize_leq()(sorted@[a], sorted@[b]) by {}
        lemma_usize_leq_total();
        diffs@.lemma_sort_by_ensures(usize_leq());
        lemma_sorted_unique(sorted@, diffs@.sort_by(usize_leq()), usize_leq());
    }
    Some(sorted[sorted.len() / 2])
}

/// The median of a list is an order statistic: whatever ascending
/// arrangement `t` of the same values is taken, the median is its element at
/// position `len / 2`.
pub proof fn law_upper_median_is_middle_of_sorted(s: Seq<usize>, t: Seq<usize>)
    requires
        s.len() > 0,
        t.to_multiset() == s.to_multiset(),
        sorted_asc(t),
    ensures
        t.len() == s.len(),
        upper_median(s) == t[(t.len() / 2) as int],
{
    broadcast use vstd::seq_lib::group_to_multiset_ensures;

    assert(t.to_multiset().len() == t.len());
    assert(s.to_multiset().len() == s.len());
    assert forall|a: int, b: int| 0 <= a < b < t.len() implies #[trigger] usize_leq()(t[a], t[b]) by {}
    lemma_usize_leq_total();
    s.lemma_sort_by_ensures(usize_leq());
    lemma_sorted_unique(t, s.sort_by(usize_leq()), usize_leq());
}

/// The median does not depend on the order of the values.
pub proof fn law_upper_median_ignores_order(s: Seq<usize>, s2: Seq<usize>)
    requires
        s.len() > 0,
        s2.to_multiset() == s.to_multiset(),
    ensures
        upper_median(s2) == upper_median(s),
{
    broadcast use vstd::seq_lib::group_to_multiset_ensures;

    lemma_usize_leq_total();
    s.lemma_sort_by_ensures(usize_leq());
    let t = s.sort_by(usize_leq());
    assert forall|i: int, j: int| 0 <= i < j < t.len() implies t[i] <= t[j] by {
        assert(usize_leq()(t[i], t[j]));
    }
    assert(s2.to_multiset().len() == s2.len());
    assert(s.to_multiset().len() == s.len());
    law_upper_median_is_middle_of_sorted(s, t);
    law_upper_median_is_middle_of_sorted(s2, t);
}

/// The grid step is the median gap between the kept peaks: the element at
/// position `len / 2` of the gaps in ascending order.
pub proof fn law_peak_spacing_is_median_gap(peaks: Seq<usize>, filter: usize, t: Seq<usize>)
    requires
        peaks.len() >= 2,
        cleaned_peaks(peaks, filter).len() >= 2,
        t.to_multiset() == gaps(cleaned_peaks(peaks, filter)).to_multiset(),
        sorted_asc(t),
    ensures
        t.len() == cleaned_peaks(peaks, filter).len() - 1,
        peak_spacing(peaks, filter) == Some(t[(t.len() / 2) as int]),
{
    law_upper_median_is_middle_of_sorted(gaps(cleaned_peaks(peaks, filter)), t);
}

/// The distance filter keeps the first peak, keeps every peak that lies at
/// least `filter` after the last kept one, and drops only peaks closer than
/// `filter` to a kept peak before them: kept peaks are peaks, in order, at
/// least `filter` apart.
pub proof fn law_kept_peaks_are_spread(peaks: Seq<usize>, filter: usize)
    requires
        strictly_increasing(peaks),
        filter >= 1,
        peaks.len() >= 1,
    ensures
        cleaned_peaks(peaks, filter).len() >= 1,
        cleaned_peaks(peaks, filter)[0] == peaks[0],
        forall|j: int| 0 <= j < cleaned_peaks(peaks, filter).len() ==> peaks.contains(#[trigger] cleaned_peaks(peaks, filter)[j]),
        forall|j: int|
            0 <= j < cleaned_peaks(peaks, filter).len() - 1 ==> #[trigger] cleaned_peaks(peaks, filter)[j + 1]
                >= cleaned_peaks(peaks, filter)[j] + filter,
        forall|i: int|
            0 <= i < peaks.len() ==> cleaned_peaks(peaks, filter).contains(#[trigger] peaks[i]) || exists|j: int|
                0 <= j < cleaned_peaks(peaks, filter).len() && #[trigger] cleaned_peaks(peaks, filter)[j] < peaks[i]
                    < cleaned_peaks(peaks, filter)[j] + filter,
    decreases peaks.len(),
{
    let kept = cleaned_peaks(peaks, filter);
    if peaks.len() > 1 {
        let prev = peaks.drop_last();
        law_kept_peaks_are_spread(prev, filter);
        let k = cleaned_peaks(prev, filter);
        let last = peaks.last();
        assert(prev.contains(k.last()));
        let m = choose|m: int| 0 <= m < prev.len() && prev[m] == k.last();
        assert(peaks[m] == k.last());
        assert(k.last() < last);
        assert forall|j: int| 0 <= j < kept.len() implies peaks.contains(#[trigger] kept[j]) by {
            if j < k.len() {
                assert(prev.contains(k[j]));
                let q = choose|q: int| 0 <= q < prev.len() && prev[q] == k[j];
                assert(peaks[q] == k[j]);
                assert(kept[j] == k[j]);
            } else {
                assert(kept[j] == last);
                assert(peaks[peaks.len() - 1] == last);
            }
        }
        assert forall|i: int| 0 <= i < peaks.len() implies kept.contains(#[trigger] peaks[i]) || exists|j: int|
            0 <= j < kept.len() && #[trigger] kept[j] < peaks[i] < kept[j] + filter by {
            if i < peaks.len() - 1 {
                assert(prev[i] == peaks[i]);
                if k.contains(prev[i]) {
                    let q = choose|q: int| 0 <= q < k.len() && k[q] == prev[i];
                    assert(kept[q] == k[q]);
                } else {
                    let q = choose|q: int| 0 <= q < k.len() && #[trigger] k[q] < prev[i] < k[q] + filter;
                    assert(kept[q] == k[q]);
                }
            } else if kept.len() > k.len() {
                assert(kept[kept.len() - 1] == last);
            } else {
                assert(kept[k.len() - 1] == k.last());
            }
        }
        assert forall|j: int| 0 <= j < kept.len() - 1 implies #[trigger] kept[j + 1] >= kept[j] + filter by {
            if j + 1 < k.len() {
                assert(kept[j + 1] == k[j + 1] && kept[j] == k[j]);
            }
        }
    } else {
        assert(peaks.contains(peaks[0]));
        assert(kept.contains(kept[0]));
    }
}

} // verus!
