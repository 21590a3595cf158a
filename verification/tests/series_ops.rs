use chronotheus::filtering::{dedupe_series, filter_by_timeframe, is_raw_tf};
use chronotheus::model::{LabelMap, Series};
use chronotheus::signature::{index_by_signature, signature};

fn lm(pairs: &[(&str, &str)]) -> LabelMap {
    LabelMap {
        entries: pairs.iter().map(|(k, v)| (k.to_string(), v.to_string())).collect(),
    }
}

fn inst(pairs: &[(&str, &str)], ts: i64, val: &str) -> Series {
    Series { metric: lm(pairs), value: Some((ts, val.to_string())), values: None }
}

#[test]
fn label_map_operations() {
    let m = lm(&[("job", "a"), ("chrono_timeframe", "current")]);
    assert_eq!(m.get("job").unwrap(), "a");
    assert!(m.get("instance").is_none());
    let m2 = m.with_label("chrono_timeframe", "7days");
    assert_eq!(m2.get("chrono_timeframe").unwrap(), "7days");
    assert_eq!(m2.get("job").unwrap(), "a");
    let m3 = m.without("chrono_timeframe");
    assert!(m3.get("chrono_timeframe").is_none());
    assert_eq!(m3.entries.len(), 1);
}

#[test]
fn signature_ignores_entry_order_and_timeframe() {
    let a = inst(&[("job", "a"), ("chrono_timeframe", "current")], 0, "1");
    let b = inst(&[("chrono_timeframe", "28days"), ("job", "a")], 0, "2");
    let c = inst(&[("job", "b"), ("chrono_timeframe", "current")], 0, "3");
    let sa = signature(&a);
    let sb = signature(&b);
    let sc = signature(&c);
    assert!(sa.map_eq(&sb));
    assert!(!sa.map_eq(&sc));
}

#[test]
fn indexing_is_last_write_wins() {
    let s1 = inst(&[("job", "a"), ("chrono_timeframe", "current")], 0, "1");
    let s2 = inst(&[("job", "a"), ("chrono_timeframe", "7days")], 0, "2");
    let s3 = inst(&[("job", "b")], 0, "3");
    let (cur, _avg) = index_by_signature(&vec![s1, s2, s3], &Vec::new());
    // The two job=a series share a signature: one survives, the later one.
    assert_eq!(cur.entries.len(), 2);
    let key = chronotheus::signature::signature(&inst(&[("job", "a")], 0, "x"));
    let hit = cur.get(&key).unwrap();
    assert_eq!(hit.value.as_ref().unwrap().1, "2");
}

#[test]
fn filter_keeps_only_the_named_window() {
    let s1 = inst(&[("job", "a"), ("chrono_timeframe", "current")], 0, "1");
    let s2 = inst(&[("job", "a"), ("chrono_timeframe", "7days")], 0, "2");
    let out = filter_by_timeframe(vec![s1, s2], "7days");
    assert_eq!(out.len(), 1);
    assert_eq!(out[0].value.as_ref().unwrap().1, "2");
}

#[test]
fn filter_by_unknown_name_yields_empty() {
    let s1 = inst(&[("job", "a"), ("chrono_timeframe", "current")], 0, "1");
    let s2 = inst(&[("job", "b")], 0, "2");
    let out = filter_by_timeframe(vec![s1, s2], "90days");
    assert!(out.is_empty());
}

#[test]
fn dedupe_keeps_first_occurrence_in_order() {
    let s1 = inst(&[("job", "a")], 0, "1");
    let s2 = inst(&[("job", "b")], 0, "2");
    let s3 = inst(&[("job", "a")], 0, "3");
    let out = dedupe_series(vec![s1, s2, s3]);
    assert_eq!(out.len(), 2);
    assert_eq!(out[0].metric.get("job").unwrap(), "a");
    assert_eq!(out[0].value.as_ref().unwrap().1, "1");
    assert_eq!(out[1].metric.get("job").unwrap(), "b");
}

#[test]
fn dedupe_is_idempotent() {
    let s1 = inst(&[("job", "a")], 0, "1");
    let s2 = inst(&[("job", "a"), ("x", "y")], 0, "2");
    let s3 = inst(&[("x", "y"), ("job", "a")], 1, "3");
    let once = dedupe_series(vec![s1, s2, s3]);
    let twice = dedupe_series(once.iter().map(|s| s.duplicate()).collect());
    assert_eq!(once.len(), twice.len());
    for (a, b) in once.iter().zip(twice.iter()) {
        assert!(a.metric.map_eq(&b.metric));
        assert_eq!(a.value, b.value);
    }
}

#[test]
fn raw_timeframe_membership() {
    let tfs = vec!["current".to_string(), "7days".to_string()];
    assert!(is_raw_tf("7days", &tfs));
    assert!(!is_raw_tf("90days", &tfs));
    assert!(!is_raw_tf("", &tfs));
}
