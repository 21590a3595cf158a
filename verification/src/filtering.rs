//! Timeframe filtering and duplicate removal.
//!
//! The filter restricts a result to one named window; it is applied only
//! when the client asked for a window, and an unknown name yields an empty
//! result rather than an error. The deduplicator collapses series with
//! identical label maps, keeping the first occurrence in place.

use vstd::prelude::*;
use crate::model::{LabelMap, Series, SeriesView};
use crate::signature::{all_shaped, all_wf, tf_key, tf_label, views_of};

verus! {

// ----------------------------------------------------------------------------
// Timeframe filter
// ----------------------------------------------------------------------------

/// Whether a series carries the timeframe label with exactly this value.
pub open spec fn has_tf(sv: SeriesView, tf: Seq<char>) -> bool {
    sv.metric.contains_key(tf_key()) && sv.metric[tf_key()] == tf
}

pub open spec fn tf_filter(ss: Seq<SeriesView>, tf: Seq<char>) -> Seq<SeriesView> {
    ss.filter(|sv: SeriesView| has_tf(sv, tf))
}

/// Keeps the series whose timeframe label equals `timeframe`.
pub fn filter_by_timeframe(series: Vec<Series>, timeframe: &str) -> (r: Vec<Series>)
    requires
        all_wf(series@),
    ensures
        views_of(r@) == tf_filter(views_of(series@), timeframe@),
        all_wf(r@),
        forall|b: bool| all_shaped(series@, b) ==> all_shaped(r@, b),
{
    let ghost whole = views_of(series@);
    let ghost pred = |sv: SeriesView| has_tf(sv, timeframe@);
    let n = series.len();
    let mut out: Vec<Series> = Vec::new();
    let mut i: usize = 0;
    proof {
        reveal(Seq::filter);
        assert(whole.take(0) =~= Seq::<SeriesView>::empty());
        assert(views_of(out@) =~= whole.take(0).filter(pred));
    }
    while i < n
        invariant
            i <= n == series@.len(),
            all_wf(series@),
            whole == views_of(series@),
            pred == (|sv: SeriesView| has_tf(sv, timeframe@)),
            views_of(out@) == whole.take(i as int).filter(pred),
            all_wf(out@),
            forall|b: bool| all_shaped(series@, b) ==> all_shaped(out@, b),
        decreases n - i,
    {
        proof {
            reveal(Seq::filter);
            assert(whole.take(i as int + 1).drop_last() =~= whole.take(i as int));
            assert(whole.take(i as int + 1).last() == whole[i as int]);
        }
        let s = &series[i];
        let keep = s.metric.has_label(tf_label(), timeframe);
        if keep {
            let ghost before = views_of(out@);
            let d = s.duplicate();
            let ghost dd = d@;
            out.push(d);
            proof {
                reveal(Seq::filter);
                let cur = views_of(out@);
                assert forall|j: int| 0 <= j < cur.len() implies cur[j] == before.push(dd)[j] by {
                    if j < before.len() {
                        assert(cur[j] == before[j]);
                    }
                }
                assert(cur =~= before.push(dd));
                assert(dd == whole[i as int]);
                assert(pred(whole[i as int]));
                assert(views_of(out@) =~= whole.take(i as int + 1).filter(pred));
            }
        } else {
            proof {
                reveal(Seq::filter);
                assert(!pred(whole[i as int]));
                assert(views_of(out@) =~= whole.take(i as int + 1).filter(pred));
            }
        }
        i = i + 1;
    }
    proof {
        assert(whole.take(n as int) =~= whole);
    }
    out
}

/// Filtering by a window name no series carries leaves nothing.
pub proof fn lemma_filter_no_match(ss: Seq<SeriesView>, tf: Seq<char>)
    requires
        forall|i: int| 0 <= i < ss.len() ==> !has_tf(#[trigger] ss[i], tf),
    ensures
        tf_filter(ss, tf).len() == 0,
    decreases ss.len(),
{
    reveal(Seq::filter);
    if ss.len() > 0 {
        assert forall|i: int| 0 <= i < ss.drop_last().len() implies !has_tf(
            #[trigger] ss.drop_last()[i],
            tf,
        ) by {
            assert(ss.drop_last()[i] == ss[i]);
        }
        lemma_filter_no_match(ss.drop_last(), tf);
        assert(!has_tf(ss.last(), tf));
    }
}

/// Whether a window name stands in the configured timeframe list.
pub fn is_raw_tf(tf: &str, timeframes: &Vec<String>) -> (r: bool)
    ensures
        r == (tf@.len() > 0 && exists|i: int|
            0 <= i < timeframes@.len() && (#[trigger] timeframes@[i])@ == tf@),
{
    if tf.is_empty() {
        return false;
    }
    let n = timeframes.len();
    let mut i: usize = 0;
    while i < n
        invariant
            i <= n == timeframes@.len(),
            tf@.len() > 0,
            forall|j: int| 0 <= j < i ==> (#[trigger] timeframes@[j])@ != tf@,
        decreases n - i,
    {
        if crate::model::str_eq(timeframes[i].as_str(), tf) {
            proof {
                assert(0 <= i < timeframes@.len() && timeframes@[i as int]@ == tf@);
            }
            return true;
        }
        i = i + 1;
    }
    false
}

// ----------------------------------------------------------------------------
// Deduplicator
// ----------------------------------------------------------------------------

/// Duplicate removal over a run of series: a series whose label map was
/// already seen is dropped, the first occurrence stays in place.
pub open spec fn dedup_from(ss: Seq<SeriesView>, seen: Set<Map<Seq<char>, Seq<char>>>) -> Seq<
    SeriesView,
>
    decreases ss.len(),
{
    if ss.len() == 0 {
        Seq::empty()
    } else if seen.contains(ss[0].metric) {
        dedup_from(ss.drop_first(), seen)
    } else {
        seq![ss[0]] + dedup_from(ss.drop_first(), seen.insert(ss[0].metric))
    }
}

pub open spec fn dedup_views(ss: Seq<SeriesView>) -> Seq<SeriesView> {
    dedup_from(ss, Set::empty())
}

fn metric_seen(out: &Vec<Series>, metric: &LabelMap) -> (r: bool)
    requires
        all_wf(out@),
        metric.wf(),
    ensures
        r == exists|j: int| 0 <= j < out@.len() && (#[trigger] out@[j])@.metric == metric@,
{
    let n = out.len();
    let mut i: usize = 0;
    while i < n
        invariant
            i <= n == out@.len(),
            all_wf(out@),
            metric.wf(),
            forall|j: int| 0 <= j < i ==> (#[trigger] out@[j])@.metric != metric@,
        decreases n - i,
    {
        if out[i].metric.map_eq(metric) {
            return true;
        }
        i = i + 1;
    }
    false
}

/// Removes exact duplicate label maps, keeping each first occurrence and its
/// position.
pub fn dedupe_series(series: Vec<Series>) -> (r: Vec<Series>)
    requires
        all_wf(series@),
    ensures
        views_of(r@) == dedup_views(views_of(series@)),
        all_wf(r@),
        forall|b: bool| all_shaped(series@, b) ==> all_shaped(r@, b),
{
    let ghost whole = views_of(series@);
    let n = series.len();
    let mut out: Vec<Series> = Vec::new();
    let ghost mut seen = Set::<Map<Seq<char>, Seq<char>>>::empty();
    let mut i: usize = 0;
    proof {
        assert(whole.skip(0) =~= whole);
    }
    while i < n
        invariant
            i <= n == series@.len(),
            all_wf(series@),
            whole == views_of(series@),
            dedup_views(whole) == views_of(out@) + dedup_from(whole.skip(i as int), seen),
            forall|j: int| 0 <= j < out@.len() ==> seen.contains((#[trigger] out@[j])@.metric),
            forall|m: Map<Seq<char>, Seq<char>>| #[trigger]
                seen.contains(m) ==> exists|j: int|
                    0 <= j < out@.len() && (#[trigger] out@[j])@.metric == m,
            all_wf(out@),
            forall|b: bool| all_shaped(series@, b) ==> all_shaped(out@, b),
        decreases n - i,
    {
        proof {
            assert(whole.skip(i as int)[0] == whole[i as int]);
            assert(whole.skip(i as int).drop_first() =~= whole.skip(i as int + 1));
        }
        let s = &series[i];
        let dup = metric_seen(&out, &s.metric);
        proof {
            assert(dup == seen.contains(whole[i as int].metric));
        }
        if !dup {
            let ghost before = views_of(out@);
            proof {
                assert forall|m: Map<Seq<char>, Seq<char>>| #[trigger]
                    seen.contains(m) implies exists|j: int|
                    0 <= j < before.len() && (#[trigger] before[j]).metric == m by {
                    let j0 = choose|j: int|
                        0 <= j < out@.len() && (#[trigger] out@[j])@.metric == m;
                    assert(before[j0] == out@[j0]@);
                }
            }
            let d = s.duplicate();
            let ghost dd = d@;
            out.push(d);
            proof {
                let cur = views_of(out@);
                assert forall|j: int| 0 <= j < cur.len() implies cur[j] == before.push(dd)[j] by {
                    if j < before.len() {
                        assert(cur[j] == before[j]);
                    }
                }
                assert(cur =~= before.push(dd));
                assert(dd == whole[i as int]);
                assert(dedup_from(whole.skip(i as int), seen) == seq![whole[i as int]]
                    + dedup_from(whole.skip(i as int + 1), seen.insert(whole[i as int].metric)));
                assert(before + (seq![whole[i as int]] + dedup_from(
                    whole.skip(i as int + 1),
                    seen.insert(whole[i as int].metric),
                )) =~= cur + dedup_from(
                    whole.skip(i as int + 1),
                    seen.insert(whole[i as int].metric),
                ));
                seen = seen.insert(whole[i as int].metric);
                assert forall|m: Map<Seq<char>, Seq<char>>| #[trigger]
                    seen.contains(m) implies exists|j: int|
                    0 <= j < out@.len() && (#[trigger] out@[j])@.metric == m by {
                    if m == dd.metric {
                        assert(out@[out@.len() - 1]@.metric == m);
                    } else {
                        let j0 = choose|j: int|
                            0 <= j < before.len() && (#[trigger] before[j]).metric == m;
                        assert(cur[j0] == before[j0]);
                        assert(out@[j0]@.metric == m);
                    }
                }
            }
        }
        i = i + 1;
    }
    proof {
        assert(whole.skip(n as int) =~= Seq::<SeriesView>::empty());
        assert(views_of(out@) + Seq::<SeriesView>::empty() =~= views_of(out@));
    }
    out
}

/// Deduplicating twice is deduplicating once.
pub proof fn lemma_dedup_idempotent(ss: Seq<SeriesView>)
    ensures
        dedup_views(dedup_views(ss)) == dedup_views(ss),
{
    lemma_dedup_from_idempotent(ss, Set::empty());
}

proof fn lemma_dedup_from_idempotent(ss: Seq<SeriesView>, seen: Set<Map<Seq<char>, Seq<char>>>)
    ensures
        dedup_from(dedup_from(ss, seen), seen) == dedup_from(ss, seen),
    decreases ss.len(),
{
    if ss.len() == 0 {
    } else if seen.contains(ss[0].metric) {
        lemma_dedup_from_idempotent(ss.drop_first(), seen);
    } else {
        let h = ss[0];
        let rest = dedup_from(ss.drop_first(), seen.insert(h.metric));
        lemma_dedup_from_idempotent(ss.drop_first(), seen.insert(h.metric));
        let d = seq![h] + rest;
        assert(d[0] == h);
        assert(d.drop_first() =~= rest);
        assert(dedup_from(d, seen) == seq![h] + dedup_from(rest, seen.insert(h.metric)));
    }
}

/// What the deduplicator keeps, it keeps in order: any two output series
/// stand in the input in the same order.
pub proof fn lemma_dedup_preserves_order(ss: Seq<SeriesView>, p: int, q: int)
    requires
        0 <= p < q < dedup_views(ss).len(),
    ensures
        exists|a: int, b: int|
            0 <= a < b < ss.len() && ss[a] == dedup_views(ss)[p] && ss[b] == dedup_views(ss)[q],
{
    lemma_dedup_from_order(ss, Set::empty(), p, q);
}

proof fn lemma_dedup_from_order(
    ss: Seq<SeriesView>,
    seen: Set<Map<Seq<char>, Seq<char>>>,
    p: int,
    q: int,
)
    requires
        0 <= p < q < dedup_from(ss, seen).len(),
    ensures
        exists|a: int, b: int|
            0 <= a < b < ss.len() && ss[a] == dedup_from(ss, seen)[p] && ss[b] == dedup_from(
                ss,
                seen,
            )[q],
    decreases ss.len(),
{
    let d = dedup_from(ss, seen);
    let t = ss.drop_first();
    if seen.contains(ss[0].metric) {
        assert(d == dedup_from(t, seen));
        lemma_dedup_from_order(t, seen, p, q);
        let (a0, b0) = choose|a: int, b: int|
            0 <= a < b < t.len() && t[a] == dedup_from(t, seen)[p] && t[b] == dedup_from(
                t,
                seen,
            )[q];
        assert(ss[a0 + 1] == t[a0]);
        assert(ss[b0 + 1] == t[b0]);
        assert(0 <= a0 + 1 < b0 + 1 < ss.len() && ss[a0 + 1] == d[p] && ss[b0 + 1] == d[q]);
    } else {
        let h = ss[0];
        let s2 = seen.insert(h.metric);
        assert(d == seq![h] + dedup_from(t, s2));
        if p == 0 {
            assert(dedup_from(t, s2)[q - 1] == d[q]);
            lemma_dedup_from_elements(t, s2, q - 1);
            let bq = choose|b: int| 0 <= b < t.len() && t[b] == dedup_from(t, s2)[q - 1];
            assert(ss[0] == d[0]);
            assert(ss[bq + 1] == t[bq]);
            assert(0 <= 0 < bq + 1 < ss.len() && ss[0] == d[p] && ss[bq + 1] == d[q]);
        } else {
            assert(dedup_from(t, s2)[p - 1] == d[p]);
            assert(dedup_from(t, s2)[q - 1] == d[q]);
            lemma_dedup_from_order(t, s2, p - 1, q - 1);
            let (a0, b0) = choose|a: int, b: int|
                0 <= a < b < t.len() && t[a] == dedup_from(t, s2)[p - 1] && t[b] == dedup_from(
                    t,
                    s2,
                )[q - 1];
            assert(ss[a0 + 1] == t[a0]);
            assert(ss[b0 + 1] == t[b0]);
            assert(0 <= a0 + 1 < b0 + 1 < ss.len() && ss[a0 + 1] == d[p] && ss[b0 + 1] == d[q]);
        }
    }
}

/// Every series the deduplicator emits stood in its input.
proof fn lemma_dedup_from_elements(
    ss: Seq<SeriesView>,
    seen: Set<Map<Seq<char>, Seq<char>>>,
    p: int,
)
    requires
        0 <= p < dedup_from(ss, seen).len(),
    ensures
        exists|a: int| 0 <= a < ss.len() && ss[a] == dedup_from(ss, seen)[p],
    decreases ss.len(),
{
    let d = dedup_from(ss, seen);
    let t = ss.drop_first();
    if seen.contains(ss[0].metric) {
        assert(d == dedup_from(t, seen));
        lemma_dedup_from_elements(t, seen, p);
        let a0 = choose|a: int| 0 <= a < t.len() && t[a] == dedup_from(t, seen)[p];
        assert(ss[a0 + 1] == t[a0]);
        assert(0 <= a0 + 1 < ss.len() && ss[a0 + 1] == d[p]);
    } else {
        let h = ss[0];
        let s2 = seen.insert(h.metric);
        assert(d == seq![h] + dedup_from(t, s2));
        if p == 0 {
            assert(ss[0] == d[0]);
        } else {
            assert(dedup_from(t, s2)[p - 1] == d[p]);
            lemma_dedup_from_elements(t, s2, p - 1);
            let a0 = choose|a: int| 0 <= a < t.len() && t[a] == dedup_from(t, s2)[p - 1];
            assert(ss[a0 + 1] == t[a0]);
            assert(0 <= a0 + 1 < ss.len() && ss[a0 + 1] == d[p]);
        }
    }
}

} // verus!
