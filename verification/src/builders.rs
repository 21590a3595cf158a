//! Derived-series builders.
//!
//! The average builder relabels every fetched series to the
//! `lastMonthAverage` window and reformats its values to three decimal
//! places. The compare and percent builders join the current table against
//! the average table by signature and append one derived series per
//! signature present in both; a signature present in only one table
//! contributes nothing.

use vstd::prelude::*;
use crate::model::{shape_ok, LabelMap, Series, SeriesView};
use crate::numeric::{
    compare_val_spec, compare_value, fixed3, format_fixed3, percent_val_spec, percent_value,
};
use crate::signature::{
    all_shaped, all_wf, series_sig, table_entry_views, tf_key, tf_label, views_of, SigTable,
};

verus! {

pub open spec fn avg_name() -> Seq<char> {
    "lastMonthAverage"@
}

pub open spec fn cmd_compare() -> Seq<char> {
    "compareAgainstLast28"@
}

pub open spec fn cmd_percent() -> Seq<char> {
    "percentCompareAgainstLast28"@
}

pub fn avg_label() -> (r: &'static str)
    ensures
        r@ == avg_name(),
{
    "lastMonthAverage"
}

pub fn compare_cmd() -> (r: &'static str)
    ensures
        r@ == cmd_compare(),
{
    "compareAgainstLast28"
}

pub fn percent_cmd() -> (r: &'static str)
    ensures
        r@ == cmd_percent(),
{
    "percentCompareAgainstLast28"
}

// ----------------------------------------------------------------------------
// Average builder
// ----------------------------------------------------------------------------

/// The average builder's transform of one series: the timeframe label
/// rewritten to `lastMonthAverage`, every value reformatted to three decimal
/// places. A per-series relabel-and-reformat, not a mean across windows.
pub open spec fn avg_of(sv: SeriesView, is_range: bool) -> SeriesView {
    SeriesView {
        metric: sv.metric.insert(tf_key(), avg_name()),
        value: if is_range {
            None
        } else {
            match sv.value {
                Some(p) => Some((p.0, fixed3(p.1))),
                None => None,
            }
        },
        values: if is_range {
            match sv.values {
                Some(vs) => Some(vs.map_values(|p: (int, Seq<char>)| (p.0, fixed3(p.1)))),
                None => None,
            }
        } else {
            None
        },
    }
}

fn avg_samples(vs: &Vec<(i64, String)>) -> (r: Vec<(i64, String)>)
    ensures
        crate::model::sample_views(r@) == crate::model::sample_views(vs@).map_values(
            |p: (int, Seq<char>)| (p.0, fixed3(p.1)),
        ),
{
    let n = vs.len();
    let mut out: Vec<(i64, String)> = Vec::new();
    let mut i: usize = 0;
    while i < n
        invariant
            i <= n == vs@.len(),
            out@.len() == i,
            forall|j: int|
                0 <= j < i ==> (#[trigger] out@[j]).0 == vs@[j].0 && out@[j].1@ == fixed3(
                    vs@[j].1@,
                ),
        decreases n - i,
    {
        let t = vs[i].0;
        let v = format_fixed3(vs[i].1.as_str());
        out.push((t, v));
        i = i + 1;
    }
    proof {
        let goal = crate::model::sample_views(vs@).map_values(
            |p: (int, Seq<char>)| (p.0, fixed3(p.1)),
        );
        assert forall|j: int|
            0 <= j < n implies crate::model::sample_views(out@)[j] == goal[j] by {
            assert(crate::model::sample_views(vs@)[j] == (vs@[j].0 as int, vs@[j].1@));
            assert((out@[j]).0 == vs@[j].0 && out@[j].1@ == fixed3(vs@[j].1@));
        }
        assert(crate::model::sample_views(out@) =~= goal);
    }
    out
}

/// One derived series per input series: the same labels with the timeframe
/// rewritten to `lastMonthAverage`, values reformatted to three decimals.
pub fn build_last_month_average(series: &Vec<Series>, is_range: bool) -> (r: Vec<Series>)
    requires
        all_shaped(series@, is_range),
        all_wf(series@),
    ensures
        r@.len() == series@.len(),
        forall|i: int| 0 <= i < r@.len() ==> (#[trigger] r@[i])@ == avg_of(series@[i]@, is_range),
        all_shaped(r@, is_range),
        all_wf(r@),
{
    let n = series.len();
    let mut out: Vec<Series> = Vec::new();
    let mut i: usize = 0;
    while i < n
        invariant
            i <= n == series@.len(),
            all_shaped(series@, is_range),
            all_wf(series@),
            out@.len() == i,
            forall|j: int|
                0 <= j < i ==> (#[trigger] out@[j])@ == avg_of(series@[j]@, is_range),
            all_shaped(out@, is_range),
            all_wf(out@),
        decreases n - i,
    {
        let s = &series[i];
        let metric = s.metric.with_label(tf_label(), avg_label());
        let derived: Series = if is_range {
            let vs = s.values.as_ref().unwrap();
            Series { metric, value: None, values: Some(avg_samples(vs)) }
        } else {
            let p = s.value.as_ref().unwrap();
            let v = format_fixed3(p.1.as_str());
            Series { metric, value: Some((p.0, v)), values: None }
        };
        proof {
            assert(derived@ == avg_of(series@[i as int]@, is_range));
        }
        out.push(derived);
        i = i + 1;
    }
    out
}

// ----------------------------------------------------------------------------
// Assembly of the plain average
// ----------------------------------------------------------------------------

/// With no command selector the average series follow the fetched series
/// wholesale; any command leaves them out.
pub fn append_with_command(series: Vec<Series>, avg: Vec<Series>, command: &str) -> (r: Vec<
    Series,
>)
    ensures
        views_of(r@) == if command@.len() == 0 {
            views_of(series@) + views_of(avg@)
        } else {
            views_of(series@)
        },
        all_wf(series@) && all_wf(avg@) ==> all_wf(r@),
        forall|b: bool|
            all_shaped(series@, b) && all_shaped(avg@, b) ==> all_shaped(r@, b),
{
    let ghost sv = views_of(series@);
    let ghost av = views_of(avg@);
    if command.is_empty() {
        let mut out = series;
        let mut rest = avg;
        out.append(&mut rest);
        proof {
            assert(views_of(out@) =~= sv + av);
        }
        out
    } else {
        series
    }
}

// ----------------------------------------------------------------------------
// Compare and percent builders
// ----------------------------------------------------------------------------

/// The compare series of one signature: current minus average, labelled with
/// the command's own name. Range samples pair by position up to the shorter
/// run.
pub open spec fn compare_series_view(c: SeriesView, a: SeriesView, is_range: bool) -> SeriesView {
    SeriesView {
        metric: c.metric.insert(tf_key(), cmd_compare()),
        value: if is_range {
            None
        } else {
            match (c.value, a.value) {
                (Some(cp), Some(ap)) => Some((cp.0, compare_val_spec(cp.1, ap.1))),
                _ => None,
            }
        },
        values: if is_range {
            match (c.values, a.values) {
                (Some(cs), Some(av)) => Some(
                    Seq::new(
                        if cs.len() <= av.len() {
                            cs.len()
                        } else {
                            av.len()
                        },
                        |i: int| (cs[i].0, compare_val_spec(cs[i].1, av[i].1)),
                    ),
                ),
                _ => None,
            }
        } else {
            None
        },
    }
}

/// The percent series of one signature: `(current - average) / average *
/// 100`, a zero average giving zero.
pub open spec fn percent_series_view(c: SeriesView, a: SeriesView, is_range: bool) -> SeriesView {
    SeriesView {
        metric: c.metric.insert(tf_key(), cmd_percent()),
        value: if is_range {
            None
        } else {
            match (c.value, a.value) {
                (Some(cp), Some(ap)) => Some((cp.0, percent_val_spec(cp.1, ap.1))),
                _ => None,
            }
        },
        values: if is_range {
            match (c.values, a.values) {
                (Some(cs), Some(av)) => Some(
                    Seq::new(
                        if cs.len() <= av.len() {
                            cs.len()
                        } else {
                            av.len()
                        },
                        |i: int| (cs[i].0, percent_val_spec(cs[i].1, av[i].1)),
                    ),
                ),
                _ => None,
            }
        } else {
            None
        },
    }
}

fn paired_samples(cs: &Vec<(i64, String)>, av: &Vec<(i64, String)>, percent: bool) -> (r: Vec<
    (i64, String),
>)
    ensures
        crate::model::sample_views(r@) == Seq::new(
            if cs@.len() <= av@.len() {
                cs@.len()
            } else {
                av@.len()
            },
            |i: int|
                (
                    cs@[i].0 as int,
                    if percent {
                        percent_val_spec(cs@[i].1@, av@[i].1@)
                    } else {
                        compare_val_spec(cs@[i].1@, av@[i].1@)
                    },
                ),
        ),
{
    let n = if cs.len() <= av.len() {
        cs.len()
    } else {
        av.len()
    };
    let mut out: Vec<(i64, String)> = Vec::new();
    let mut i: usize = 0;
    while i < n
        invariant
            i <= n <= cs@.len() && n <= av@.len(),
            n as int == if cs@.len() <= av@.len() {
                cs@.len() as int
            } else {
                av@.len() as int
            },
            out@.len() == i,
            forall|j: int|
                0 <= j < i ==> (#[trigger] out@[j]).0 == cs@[j].0 && out@[j].1@ == (if percent {
                    percent_val_spec(cs@[j].1@, av@[j].1@)
                } else {
                    compare_val_spec(cs@[j].1@, av@[j].1@)
                }),
        decreases n - i,
    {
        let t = cs[i].0;
        let v = if percent {
            percent_value(cs[i].1.as_str(), av[i].1.as_str())
        } else {
            compare_value(cs[i].1.as_str(), av[i].1.as_str())
        };
        out.push((t, v));
        i = i + 1;
    }
    proof {
        let goal = Seq::new(
            if cs@.len() <= av@.len() {
                cs@.len()
            } else {
                av@.len()
            },
            |i: int|
                (
                    cs@[i].0 as int,
                    if percent {
                        percent_val_spec(cs@[i].1@, av@[i].1@)
                    } else {
                        compare_val_spec(cs@[i].1@, av@[i].1@)
                    },
                ),
        );
        assert forall|j: int|
            0 <= j < n implies crate::model::sample_views(out@)[j] == goal[j] by {
            assert((out@[j]).0 == cs@[j].0);
        }
        assert(crate::model::sample_views(out@) =~= goal);
    }
    out
}

fn derived_one(cur: &Series, avg: &Series, percent: bool, is_range: bool) -> (r: Series)
    requires
        shape_ok(*cur, is_range),
        shape_ok(*avg, is_range),
    ensures
        r@ == if percent {
            percent_series_view(cur@, avg@, is_range)
        } else {
            compare_series_view(cur@, avg@, is_range)
        },
        shape_ok(r, is_range),
{
    let metric: LabelMap = if percent {
        cur.metric.with_label(tf_label(), percent_cmd())
    } else {
        cur.metric.with_label(tf_label(), compare_cmd())
    };
    if is_range {
        let cs = cur.values.as_ref().unwrap();
        let av = avg.values.as_ref().unwrap();
        let vs = paired_samples(cs, av, percent);
        let r = Series { metric, value: None, values: Some(vs) };
        proof {
            let goal = if percent {
                percent_series_view(cur@, avg@, is_range)
            } else {
                compare_series_view(cur@, avg@, is_range)
            };
            let cvs = crate::model::sample_views(cs@);
            let avs = crate::model::sample_views(av@);
            assert(cur@.values == Some(cvs) && avg@.values == Some(avs));
            assert forall|j: int|
                0 <= j < crate::model::sample_views(vs@).len() implies crate::model::sample_views(
                vs@,
            )[j] == goal.values.unwrap()[j] by {
                assert(cvs[j] == (cs@[j].0 as int, cs@[j].1@));
                assert(avs[j] == (av@[j].0 as int, av@[j].1@));
            }
            assert(crate::model::sample_views(vs@) =~= goal.values.unwrap());
            assert(r@ =~= goal);
        }
        r
    } else {
        let cp = cur.value.as_ref().unwrap();
        let ap = avg.value.as_ref().unwrap();
        let v = if percent {
            percent_value(cp.1.as_str(), ap.1.as_str())
        } else {
            compare_value(cp.1.as_str(), ap.1.as_str())
        };
        let r = Series { metric, value: Some((cp.0, v)), values: None };
        proof {
            let goal = if percent {
                percent_series_view(cur@, avg@, is_range)
            } else {
                compare_series_view(cur@, avg@, is_range)
            };
            assert(r@ =~= goal);
        }
        r
    }
}

/// The series the compare (or percent) builder appends: one per table entry
/// whose signature the average map also holds, in table order.
pub open spec fn derived_join(
    tes: Seq<(Map<Seq<char>, Seq<char>>, SeriesView)>,
    am: Map<Map<Seq<char>, Seq<char>>, SeriesView>,
    percent: bool,
    is_range: bool,
) -> Seq<SeriesView>
    decreases tes.len(),
{
    if tes.len() == 0 {
        Seq::empty()
    } else {
        let rest = derived_join(tes.drop_last(), am, percent, is_range);
        let e = tes.last();
        if am.contains_key(e.0) {
            rest.push(
                if percent {
                    percent_series_view(e.1, am[e.0], is_range)
                } else {
                    compare_series_view(e.1, am[e.0], is_range)
                },
            )
        } else {
            rest
        }
    }
}

#[verifier::rlimit(80)]
proof fn lemma_derived_join_step(
    tes: Seq<(Map<Seq<char>, Seq<char>>, SeriesView)>,
    am: Map<Map<Seq<char>, Seq<char>>, SeriesView>,
    percent: bool,
    is_range: bool,
    i: int,
)
    requires
        0 <= i < tes.len(),
    ensures
        derived_join(tes.take(i + 1), am, percent, is_range) == if am.contains_key((tes[i]).0) {
            derived_join(tes.take(i), am, percent, is_range).push(
                if percent {
                    percent_series_view((tes[i]).1, am[(tes[i]).0], is_range)
                } else {
                    compare_series_view((tes[i]).1, am[(tes[i]).0], is_range)
                },
            )
        } else {
            derived_join(tes.take(i), am, percent, is_range)
        },
{
    assert(tes.take(i + 1).drop_last() =~= tes.take(i));
    assert(tes.take(i + 1).last() == tes[i]);
}

fn append_derived(
    series: Vec<Series>,
    current: &SigTable,
    avg: &SigTable,
    percent: bool,
    is_range: bool,
) -> (r: Vec<Series>)
    requires
        current.wf(),
        avg.wf(),
        current.shaped(is_range),
        avg.shaped(is_range),
    ensures
        views_of(r@) == views_of(series@) + derived_join(
            table_entry_views(current.entries@),
            avg@,
            percent,
            is_range,
        ),
        all_wf(series@) ==> all_wf(r@),
        all_shaped(series@, is_range) ==> all_shaped(r@, is_range),
{
    let ghost tes = table_entry_views(current.entries@);
    let ghost base = views_of(series@);
    let ghost keep_wf = all_wf(series@);
    let ghost keep_shape = all_shaped(series@, is_range);
    let mut out = series;
    let n = current.entries.len();
    let mut i: usize = 0;
    proof {
        assert(tes.take(0) =~= Seq::<(Map<Seq<char>, Seq<char>>, SeriesView)>::empty());
        assert(views_of(out@) =~= base + derived_join(tes.take(0), avg@, percent, is_range));
    }
    while i < n
        invariant
            i <= n == current.entries@.len(),
            current.wf(),
            avg.wf(),
            current.shaped(is_range),
            avg.shaped(is_range),
            tes == table_entry_views(current.entries@),
            views_of(out@) == base + derived_join(tes.take(i as int), avg@, percent, is_range),
            keep_wf ==> all_wf(out@),
            keep_shape ==> all_shaped(out@, is_range),
        decreases n - i,
    {
        proof {
            lemma_derived_join_step(tes, avg@, percent, is_range, i as int);
        }
        let e = &current.entries[i];
        match avg.get(&e.0) {
            Some(a) => {
                proof {
                    assert(shape_ok((current.entries@[i as int]).1, is_range));
                    let k = (tes[i as int]).0;
                    assert(a@ == avg@[k]);
                    let j = choose|j: int|
                        0 <= j < avg.entries@.len() && (#[trigger] avg.entries@[j]).1 == *a;
                    assert(shape_ok(*a, is_range));
                }
                let d = derived_one(&e.1, a, percent, is_range);
                let ghost before = views_of(out@);
                let ghost dd = d@;
                out.push(d);
                proof {
                    let dj0 = derived_join(tes.take(i as int), avg@, percent, is_range);
                    let dj1 = derived_join(tes.take(i as int + 1), avg@, percent, is_range);
                    assert(dj1 == dj0.push(dd));
                    let cur = views_of(out@);
                    assert(cur.len() == before.len() + 1);
                    assert(before.len() == base.len() + dj0.len());
                    assert forall|j: int| 0 <= j < cur.len() implies cur[j] == (base + dj1)[j] by {
                        if j < before.len() {
                            assert(cur[j] == before[j]);
                            assert(before[j] == (base + dj0)[j]);
                            if j >= base.len() {
                                assert(dj1[j - base.len()] == dj0[j - base.len()]);
                            }
                        } else {
                            assert(cur[j] == dd);
                            assert((base + dj1)[j] == dj1[j - base.len()]);
                        }
                    }
                    assert(views_of(out@) =~= base + dj1);
                }
            },
            None => {
                proof {
                    assert(!avg@.contains_key((tes[i as int]).0));
                    assert(views_of(out@) =~= base + derived_join(
                        tes.take(i as int + 1),
                        avg@,
                        percent,
                        is_range,
                    ));
                }
            },
        }
        i = i + 1;
    }
    proof {
        assert(tes.take(n as int) =~= tes);
    }
    out
}

/// Appends one compare series per signature present in both tables, when and
/// only when the command selector names the compare builder.
pub fn append_compare(
    series: Vec<Series>,
    current_map: &SigTable,
    avg_map: &SigTable,
    command: &str,
    is_range: bool,
) -> (r: Vec<Series>)
    requires
        current_map.wf(),
        avg_map.wf(),
        current_map.shaped(is_range),
        avg_map.shaped(is_range),
    ensures
        views_of(r@) == views_of(series@) + if command@ == cmd_compare() {
            derived_join(table_entry_views(current_map.entries@), avg_map@, false, is_range)
        } else {
            Seq::<SeriesView>::empty()
        },
        all_wf(series@) ==> all_wf(r@),
        all_shaped(series@, is_range) ==> all_shaped(r@, is_range),
{
    if crate::model::str_eq(command, compare_cmd()) {
        append_derived(series, current_map, avg_map, false, is_range)
    } else {
        proof {
            assert(views_of(series@) + Seq::<SeriesView>::empty() =~= views_of(series@));
        }
        series
    }
}

/// Appends one percent series per signature present in both tables, when and
/// only when the command selector names the percent builder.
pub fn append_percent(
    series: Vec<Series>,
    current_map: &SigTable,
    avg_map: &SigTable,
    command: &str,
    is_range: bool,
) -> (r: Vec<Series>)
    requires
        current_map.wf(),
        avg_map.wf(),
        current_map.shaped(is_range),
        avg_map.shaped(is_range),
    ensures
        views_of(r@) == views_of(series@) + if command@ == cmd_percent() {
            derived_join(table_entry_views(current_map.entries@), avg_map@, true, is_range)
        } else {
            Seq::<SeriesView>::empty()
        },
        all_wf(series@) ==> all_wf(r@),
        all_shaped(series@, is_range) ==> all_shaped(r@, is_range),
{
    if crate::model::str_eq(command, percent_cmd()) {
        append_derived(series, current_map, avg_map, true, is_range)
    } else {
        proof {
            assert(views_of(series@) + Seq::<SeriesView>::empty() =~= views_of(series@));
        }
        series
    }
}

// ----------------------------------------------------------------------------
// Laws
// ----------------------------------------------------------------------------

/// The average builder rewrites only the timeframe label and formats every
/// value with exactly three decimal digits.
pub proof fn lemma_average_values_three_decimals(sv: SeriesView, is_range: bool)
    ensures
        avg_of(sv, is_range).metric == sv.metric.insert(tf_key(), avg_name()),
        avg_of(sv, is_range).value matches Some(p) ==> crate::numeric::three_decimal_form(p.1),
        avg_of(sv, is_range).values matches Some(vs) ==> forall|i: int|
            0 <= i < vs.len() ==> crate::numeric::three_decimal_form((#[trigger] vs[i]).1),
{
    let a = avg_of(sv, is_range);
    match a.value {
        Some(p) => {
            crate::numeric::lemma_fixed3_three_decimals(sv.value.unwrap().1);
        },
        None => {},
    }
    match a.values {
        Some(vs) => {
            assert forall|i: int|
                0 <= i < vs.len() implies crate::numeric::three_decimal_form(
                (#[trigger] vs[i]).1,
            ) by {
                let orig = sv.values.unwrap();
                assert(vs[i] == (orig[i].0, crate::numeric::fixed3(orig[i].1)));
                crate::numeric::lemma_fixed3_three_decimals(orig[i].1);
            }
        },
        None => {},
    }
}

/// Whether derived with the compare or the percent builder, a joined series
/// keeps the signature of the current series it came from.
pub proof fn lemma_derived_keeps_signature(c: SeriesView, a: SeriesView, is_range: bool)
    ensures
        series_sig(compare_series_view(c, a, is_range)) == series_sig(c),
        series_sig(percent_series_view(c, a, is_range)) == series_sig(c),
{
    crate::signature::lemma_sig_ignores_timeframe(c.metric, cmd_compare());
    crate::signature::lemma_sig_ignores_timeframe(c.metric, cmd_percent());
}

/// Consistency of a table's entry list: the stored key is the signature of
/// the stored series.
pub open spec fn entries_consistent(tes: Seq<(Map<Seq<char>, Seq<char>>, SeriesView)>) -> bool {
    forall|i: int| 0 <= i < tes.len() ==> series_sig((#[trigger] tes[i]).1) == (tes[i]).0
}

/// Every joined series carries a signature present in both tables.
pub proof fn lemma_join_element_sig(
    tes: Seq<(Map<Seq<char>, Seq<char>>, SeriesView)>,
    am: Map<Map<Seq<char>, Seq<char>>, SeriesView>,
    percent: bool,
    is_range: bool,
    j: int,
)
    requires
        entries_consistent(tes),
        0 <= j < derived_join(tes, am, percent, is_range).len(),
    ensures
        exists|i: int|
            0 <= i < tes.len() && series_sig(derived_join(tes, am, percent, is_range)[j]) == (
            #[trigger] tes[i]).0 && am.contains_key((tes[i]).0),
    decreases tes.len(),
{
    let join = derived_join(tes, am, percent, is_range);
    let prev = derived_join(tes.drop_last(), am, percent, is_range);
    let e = tes.last();
    assert forall|i: int|
        0 <= i < tes.drop_last().len() implies series_sig(
        (#[trigger] tes.drop_last()[i]).1,
    ) == (tes.drop_last()[i]).0 by {
        assert(tes.drop_last()[i] == tes[i]);
    }
    if am.contains_key(e.0) && j == join.len() - 1 {
        lemma_derived_keeps_signature(e.1, am[e.0], is_range);
        assert(series_sig(join[j]) == (tes[tes.len() - 1]).0);
    } else {
        assert(join[j] == prev[j]);
        lemma_join_element_sig(tes.drop_last(), am, percent, is_range, j);
        let i = choose|i: int|
            0 <= i < tes.drop_last().len() && series_sig(prev[j]) == (#[trigger] tes.drop_last()[i]).0
                && am.contains_key((tes.drop_last()[i]).0);
        assert(tes[i] == tes.drop_last()[i]);
    }
}

/// Every signature present in both tables contributes exactly one joined
/// series: here, at least one.
pub proof fn lemma_join_covers(
    tes: Seq<(Map<Seq<char>, Seq<char>>, SeriesView)>,
    am: Map<Map<Seq<char>, Seq<char>>, SeriesView>,
    percent: bool,
    is_range: bool,
    k: Map<Seq<char>, Seq<char>>,
)
    requires
        entries_consistent(tes),
        crate::model::assoc_map(tes).contains_key(k),
        am.contains_key(k),
    ensures
        exists|j: int|
            0 <= j < derived_join(tes, am, percent, is_range).len() && series_sig(
                #[trigger] derived_join(tes, am, percent, is_range)[j],
            ) == k,
    decreases tes.len(),
{
    let join = derived_join(tes, am, percent, is_range);
    let prev = derived_join(tes.drop_last(), am, percent, is_range);
    let e = tes.last();
    assert forall|i: int|
        0 <= i < tes.drop_last().len() implies series_sig(
        (#[trigger] tes.drop_last()[i]).1,
    ) == (tes.drop_last()[i]).0 by {
        assert(tes.drop_last()[i] == tes[i]);
    }
    if k == e.0 {
        lemma_derived_keeps_signature(e.1, am[e.0], is_range);
        assert(series_sig(join[join.len() - 1]) == k);
    } else {
        assert(crate::model::assoc_map(tes.drop_last()).contains_key(k));
        lemma_join_covers(tes.drop_last(), am, percent, is_range, k);
        let j = choose|j: int|
            0 <= j < prev.len() && series_sig(#[trigger] prev[j]) == k;
        assert(join[j] == prev[j]);
        assert(series_sig(join[j]) == k);
    }
}

/// And at most one: two joined series never share a signature.
pub proof fn lemma_join_distinct(
    tes: Seq<(Map<Seq<char>, Seq<char>>, SeriesView)>,
    am: Map<Map<Seq<char>, Seq<char>>, SeriesView>,
    percent: bool,
    is_range: bool,
    j1: int,
    j2: int,
)
    requires
        entries_consistent(tes),
        crate::model::distinct_keys(tes),
        0 <= j1 < j2 < derived_join(tes, am, percent, is_range).len(),
    ensures
        series_sig(derived_join(tes, am, percent, is_range)[j1]) != series_sig(
            derived_join(tes, am, percent, is_range)[j2],
        ),
    decreases tes.len(),
{
    let join = derived_join(tes, am, percent, is_range);
    let prev = derived_join(tes.drop_last(), am, percent, is_range);
    let e = tes.last();
    assert forall|i: int|
        0 <= i < tes.drop_last().len() implies series_sig(
        (#[trigger] tes.drop_last()[i]).1,
    ) == (tes.drop_last()[i]).0 by {
        assert(tes.drop_last()[i] == tes[i]);
    }
    crate::model::lemma_distinct_drop_last(tes);
    if am.contains_key(e.0) && j2 == join.len() - 1 {
        lemma_derived_keeps_signature(e.1, am[e.0], is_range);
        assert(join[j1] == prev[j1]);
        lemma_join_element_sig(tes.drop_last(), am, percent, is_range, j1);
        let i = choose|i: int|
            0 <= i < tes.drop_last().len() && series_sig(prev[j1]) == (#[trigger] tes.drop_last()[i]).0
                && am.contains_key((tes.drop_last()[i]).0);
        assert(tes[i] == tes.drop_last()[i]);
        assert((tes[i]).0 != (tes[tes.len() - 1]).0);
    } else {
        assert(join[j1] == prev[j1]);
        assert(join[j2] == prev[j2]);
        lemma_join_distinct(tes.drop_last(), am, percent, is_range, j1, j2);
    }
}

} // verus!
