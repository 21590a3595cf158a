use chronotheus::builders::{
    append_compare, append_percent, append_with_command, build_last_month_average,
};
use chronotheus::model::{LabelMap, Series};
use chronotheus::signature::index_by_signature;

fn lm(pairs: &[(&str, &str)]) -> LabelMap {
    LabelMap {
        entries: pairs.iter().map(|(k, v)| (k.to_string(), v.to_string())).collect(),
    }
}

fn inst(pairs: &[(&str, &str)], ts: i64, val: &str) -> Series {
    Series { metric: lm(pairs), value: Some((ts, val.to_string())), values: None }
}

fn rng(pairs: &[(&str, &str)], vals: &[(i64, &str)]) -> Series {
    Series {
        metric: lm(pairs),
        value: None,
        values: Some(vals.iter().map(|(t, v)| (*t, v.to_string())).collect()),
    }
}

#[test]
fn average_relabels_and_reformats_instant_series() {
    let input = vec![
        inst(&[("job", "a"), ("chrono_timeframe", "current")], 10, "1"),
        inst(&[("job", "b"), ("chrono_timeframe", "7days")], 20, "2.5"),
    ];
    let avgs = build_last_month_average(&input, false);
    assert_eq!(avgs.len(), input.len());
    assert_eq!(avgs[0].metric.get("chrono_timeframe").unwrap(), "lastMonthAverage");
    assert_eq!(avgs[0].metric.get("job").unwrap(), "a");
    assert_eq!(avgs[0].value.as_ref().unwrap(), &(10, "1.000".to_string()));
    assert_eq!(avgs[1].value.as_ref().unwrap(), &(20, "2.500".to_string()));
}

#[test]
fn average_reformats_every_range_sample() {
    let input = vec![rng(&[("job", "a")], &[(1, "1"), (2, "2.25"), (3, "junk")])];
    let avgs = build_last_month_average(&input, true);
    assert_eq!(avgs.len(), 1);
    let vs = avgs[0].values.as_ref().unwrap();
    assert_eq!(vs[0], (1, "1.000".to_string()));
    assert_eq!(vs[1], (2, "2.250".to_string()));
    assert_eq!(vs[2], (3, "0.000".to_string()));
}

#[test]
fn plain_averages_append_only_without_a_command() {
    let raw = vec![inst(&[("job", "a")], 0, "1")];
    let avg = vec![inst(&[("job", "a"), ("chrono_timeframe", "lastMonthAverage")], 0, "1.000")];
    let merged = append_with_command(
        raw.iter().map(|s| s.duplicate()).collect(),
        avg.iter().map(|s| s.duplicate()).collect(),
        "",
    );
    assert_eq!(merged.len(), 2);
    let kept = append_with_command(raw, avg, "compareAgainstLast28");
    assert_eq!(kept.len(), 1);
}

#[test]
fn compare_joins_shared_signatures_only() {
    let cur = vec![
        inst(&[("job", "a"), ("chrono_timeframe", "current")], 5, "7"),
        inst(&[("job", "only")], 5, "9"),
    ];
    let avg = vec![inst(&[("job", "a"), ("chrono_timeframe", "lastMonthAverage")], 5, "3")];
    let (cmap, amap) = index_by_signature(&cur, &avg);
    let out = append_compare(Vec::new(), &cmap, &amap, "compareAgainstLast28", false);
    // job=a stands in both tables; job=only contributes nothing.
    assert_eq!(out.len(), 1);
    assert_eq!(out[0].metric.get("chrono_timeframe").unwrap(), "compareAgainstLast28");
    assert_eq!(out[0].metric.get("job").unwrap(), "a");
    assert_eq!(out[0].value.as_ref().unwrap(), &(5, "4.000".to_string()));
}

#[test]
fn compare_is_inert_under_other_commands() {
    let cur = vec![inst(&[("job", "a")], 0, "7")];
    let avg = vec![inst(&[("job", "a")], 0, "3")];
    let (cmap, amap) = index_by_signature(&cur, &avg);
    let out = append_compare(Vec::new(), &cmap, &amap, "percentCompareAgainstLast28", false);
    assert!(out.is_empty());
}

#[test]
fn percent_computes_relative_change_per_signature() {
    let cur = vec![inst(&[("job", "a")], 0, "150")];
    let avg = vec![inst(&[("job", "a")], 0, "100")];
    let (cmap, amap) = index_by_signature(&cur, &avg);
    let out = append_percent(Vec::new(), &cmap, &amap, "percentCompareAgainstLast28", false);
    assert_eq!(out.len(), 1);
    assert_eq!(out[0].metric.get("chrono_timeframe").unwrap(), "percentCompareAgainstLast28");
    assert_eq!(out[0].value.as_ref().unwrap(), &(0, "50.000".to_string()));
}

#[test]
fn percent_of_zero_average_is_zero_per_series() {
    let cur = vec![inst(&[("job", "a")], 0, "123.4")];
    let avg = vec![inst(&[("job", "a")], 0, "0.0")];
    let (cmap, amap) = index_by_signature(&cur, &avg);
    let out = append_percent(Vec::new(), &cmap, &amap, "percentCompareAgainstLast28", false);
    assert_eq!(out[0].value.as_ref().unwrap().1, "0.000");
}

#[test]
fn range_compare_pairs_by_position() {
    let cur = vec![rng(&[("job", "a")], &[(1, "5"), (2, "6"), (3, "7")])];
    let avg = vec![rng(&[("job", "a"), ("chrono_timeframe", "x")], &[(1, "1"), (2, "2")])];
    let (cmap, amap) = index_by_signature(&cur, &avg);
    let out = append_compare(Vec::new(), &cmap, &amap, "compareAgainstLast28", true);
    let vs = out[0].values.as_ref().unwrap();
    // Pairs stop at the shorter run.
    assert_eq!(vs.len(), 2);
    assert_eq!(vs[0], (1, "4.000".to_string()));
    assert_eq!(vs[1], (2, "4.000".to_string()));
}
