use chronotheus::fetch::{instant_window_queries, range_window_queries, QueryParams, QueryRangeParams};
use chronotheus::model::{LabelMap, Series};
use chronotheus::pipeline::{error_envelope, merge_windowed_series, success_envelope};
use chronotheus::proxy::{ChronoProxy, Config};
use chronotheus::selectors::extract_selectors;

fn lm(pairs: &[(&str, &str)]) -> LabelMap {
    LabelMap {
        entries: pairs.iter().map(|(k, v)| (k.to_string(), v.to_string())).collect(),
    }
}

fn inst(pairs: &[(&str, &str)], ts: i64, val: &str) -> Series {
    Series { metric: lm(pairs), value: Some((ts, val.to_string())), values: None }
}

fn five_windows() -> Vec<Series> {
    let names = ["current", "7days", "14days", "21days", "28days"];
    let vals = ["1", "2", "3", "4", "5"];
    names
        .iter()
        .zip(vals.iter())
        .map(|(tf, v)| inst(&[("job", "a"), ("chrono_timeframe", tf)], 100, v))
        .collect()
}

#[test]
fn instant_query_without_command_appends_averages() {
    let (tf, cmd) = extract_selectors("up");
    let out = merge_windowed_series(five_windows(), &tf, &cmd, false);
    // Five raw series, then the average relabels. All five averages carry
    // the identical label map {job=a, chrono_timeframe=lastMonthAverage},
    // so the deduplicator keeps only the first of them.
    assert_eq!(out.len(), 6);
    for (i, tfname) in ["current", "7days", "14days", "21days", "28days"].iter().enumerate() {
        assert_eq!(out[i].metric.get("chrono_timeframe").unwrap(), tfname);
    }
    let avg = &out[5];
    assert_eq!(avg.metric.get("chrono_timeframe").unwrap(), "lastMonthAverage");
    assert_eq!(avg.value.as_ref().unwrap().1, "1.000");
}

#[test]
fn compare_command_appends_one_series_per_shared_signature() {
    let q = r#"up{_command="compareAgainstLast28"}"#;
    let (tf, cmd) = extract_selectors(q);
    assert_eq!(cmd, "compareAgainstLast28");
    let out = merge_windowed_series(five_windows(), &tf, &cmd, false);
    // All five windows share one signature once chrono_timeframe is
    // dropped, and indexing is last-write-wins: one compare series,
    // last current ("5") minus last average ("5.000").
    assert_eq!(out.len(), 6);
    let cmp = &out[5];
    assert_eq!(cmp.metric.get("chrono_timeframe").unwrap(), "compareAgainstLast28");
    assert_eq!(cmp.metric.get("job").unwrap(), "a");
    assert_eq!(cmp.value.as_ref().unwrap().1, "0.000");
}

#[test]
fn timeframe_selector_narrows_to_one_window() {
    let q = r#"up{chrono_timeframe="7days"}"#;
    let (tf, cmd) = extract_selectors(q);
    assert_eq!(tf, "7days");
    assert_eq!(cmd, "");
    let out = merge_windowed_series(five_windows(), &tf, &cmd, false);
    assert_eq!(out.len(), 1);
    assert_eq!(out[0].metric.get("chrono_timeframe").unwrap(), "7days");
    assert_eq!(out[0].value.as_ref().unwrap().1, "2");
}

#[test]
fn unknown_command_appends_nothing() {
    let (tf, cmd) = extract_selectors(r#"up{_command="somethingElse"}"#);
    let out = merge_windowed_series(five_windows(), &tf, &cmd, false);
    assert_eq!(out.len(), 5);
}

#[test]
fn envelopes_take_the_upstream_shape() {
    let ok = success_envelope(vec![inst(&[("job", "a")], 0, "1")], false);
    assert_eq!(ok.status, "success");
    assert_eq!(ok.data.result_type, "vector");
    assert_eq!(ok.data.result.len(), 1);
    let okr = success_envelope(Vec::new(), true);
    assert_eq!(okr.data.result_type, "matrix");
    let err = error_envelope("connection refused".to_string());
    assert_eq!(err.status, "error");
    assert_eq!(err.error_type, "execution");
    assert_eq!(err.error, "connection refused");
}

#[test]
fn proxy_defaults_hold_five_weekly_windows() {
    let p = ChronoProxy::new();
    assert_eq!(p.offsets, vec![0, 604800, 1209600, 1814400, 2419200]);
    assert_eq!(p.timeframes(), vec!["current", "7days", "14days", "21days", "28days"]);
    let c = Config::default();
    assert_eq!(c.upstream_url, "http://localhost:9090");
    assert_eq!(c.listen_addr, "127.0.0.1");
    assert_eq!(c.listen_port, 8080);
    assert_eq!(c.offsets, p.offsets);
    assert_eq!(c.timeframes, p.timeframes);
}

#[test]
fn instant_windows_shift_time_and_tag_the_query() {
    let proxy = ChronoProxy::new();
    let params = QueryParams { query: "up".to_string(), time: Some("100".to_string()) };
    let qs = instant_window_queries(&proxy, &params);
    assert_eq!(qs.len(), 5);
    assert_eq!(qs[0], "query=up%7Bchrono_timeframe%3D%22current%22%7D&time=100");
    assert_eq!(qs[1], "query=up%7Bchrono_timeframe%3D%227days%22%7D&time=604900");
    assert_eq!(qs[4], "query=up%7Bchrono_timeframe%3D%2228days%22%7D&time=2419300");
}

#[test]
fn unparsable_time_is_left_untouched() {
    let proxy = ChronoProxy::new();
    let params = QueryParams { query: "up".to_string(), time: Some("now".to_string()) };
    let qs = instant_window_queries(&proxy, &params);
    assert_eq!(qs[3], "query=up%7Bchrono_timeframe%3D%2221days%22%7D&time=now");
}

#[test]
fn range_windows_shift_both_bounds_and_keep_the_step() {
    let proxy = ChronoProxy::new();
    let params = QueryRangeParams {
        query: "up".to_string(),
        start: "0".to_string(),
        end: "60".to_string(),
        step: "15".to_string(),
    };
    let qs = range_window_queries(&proxy, &params);
    assert_eq!(qs.len(), 5);
    assert_eq!(
        qs[1],
        "query=up%7Bchrono_timeframe%3D%227days%22%7D&start=604800&end=604860&step=15"
    );
}

#[test]
fn parse_params_splits_and_decodes() {
    let params = chronotheus::fetch::parse_params("query=up%7Bjob%3D%22a%22%7D&time=100");
    assert_eq!(params.len(), 2);
    assert_eq!(params[0].0, "query");
    assert_eq!(params[0].1, vec![r#"up{job="a"}"#.to_string()]);
    assert_eq!(params[1].0, "time");
    assert_eq!(params[1].1, vec!["100".to_string()]);
}

#[test]
fn parse_params_handles_lists_dupes_and_junk() {
    let params = chronotheus::fetch::parse_params("a=1,2&&noequals&a=3&b%20c=x%20y");
    assert_eq!(params.len(), 2);
    // The later `a` wins, in the position where `a` first appeared.
    assert_eq!(params[0].0, "a");
    assert_eq!(params[0].1, vec!["3".to_string()]);
    assert_eq!(params[1].0, "b c");
    assert_eq!(params[1].1, vec!["x y".to_string()]);
}

#[test]
fn build_query_string_encodes_keys_and_values() {
    let params = vec![
        ("query".to_string(), vec![r#"up{job="a"}"#.to_string()]),
        ("time".to_string(), vec!["100".to_string()]),
    ];
    let qs = chronotheus::fetch::build_query_string(&params);
    assert_eq!(qs, "query=up%7Bjob%3D%22a%22%7D&time=100");
}

#[test]
fn percent_command_appends_one_series_per_shared_signature() {
    let (tf, cmd) = extract_selectors(r#"up{_command="percentCompareAgainstLast28"}"#);
    let out = merge_windowed_series(five_windows(), &tf, &cmd, false);
    assert_eq!(out.len(), 6);
    let pct = &out[5];
    assert_eq!(pct.metric.get("chrono_timeframe").unwrap(), "percentCompareAgainstLast28");
    // Last-indexed current "5" against last-indexed average "5.000".
    assert_eq!(pct.value.as_ref().unwrap().1, "0.000");
}

#[test]
fn range_query_without_command_appends_averages() {
    let series = vec![Series {
        metric: lm(&[("job", "a"), ("chrono_timeframe", "current")]),
        value: None,
        values: Some(vec![(1, "1".to_string()), (2, "2.5".to_string())]),
    }];
    let out = merge_windowed_series(series, "", "", true);
    assert_eq!(out.len(), 2);
    let avg = &out[1];
    assert_eq!(avg.metric.get("chrono_timeframe").unwrap(), "lastMonthAverage");
    let vs = avg.values.as_ref().unwrap();
    assert_eq!(vs[0], (1, "1.000".to_string()));
    assert_eq!(vs[1], (2, "2.500".to_string()));
}
