use chronotheus::selectors::extract_selectors;

#[test]
fn absent_selectors_yield_empty_strings() {
    let (tf, cmd) = extract_selectors("up");
    assert_eq!(tf, "");
    assert_eq!(cmd, "");
}

#[test]
fn finds_both_selectors_among_other_matchers() {
    let q = r#"up{job="node",chrono_timeframe="7days",_command="compareAgainstLast28"}"#;
    let (tf, cmd) = extract_selectors(q);
    assert_eq!(tf, "7days");
    assert_eq!(cmd, "compareAgainstLast28");
}

#[test]
fn timeframe_selector_alone() {
    let (tf, cmd) = extract_selectors(r#"rate(http_requests_total[5m]){chrono_timeframe="28days"}"#);
    assert_eq!(tf, "28days");
    assert_eq!(cmd, "");
}

#[test]
fn command_selector_alone() {
    let (tf, cmd) = extract_selectors(r#"up{_command="percentCompareAgainstLast28"}"#);
    assert_eq!(tf, "");
    assert_eq!(cmd, "percentCompareAgainstLast28");
}

#[test]
fn malformed_matchers_yield_nothing() {
    // No closing quote.
    let (tf, _) = extract_selectors(r#"up{chrono_timeframe="7days"#);
    assert_eq!(tf, "");
    // Empty value: the matcher needs at least one captured character.
    let (tf2, _) = extract_selectors(r#"up{chrono_timeframe=""}"#);
    assert_eq!(tf2, "");
}

#[test]
fn leftmost_occurrence_wins() {
    let q = r#"a{chrono_timeframe="first"} or b{chrono_timeframe="second"}"#;
    let (tf, _) = extract_selectors(q);
    assert_eq!(tf, "first");
}

#[test]
fn strip_label_removes_the_matcher_and_its_comma() {
    let mut params = vec![(
        "query".to_string(),
        vec![r#"up{job="a",chrono_timeframe="7days"}"#.to_string()],
    )];
    chronotheus::selectors::strip_label(&mut params, "query", "chrono_timeframe");
    assert_eq!(params[0].1[0], r#"up{job="a"}"#);
}

#[test]
fn strip_label_smooths_a_leading_matcher() {
    let mut params = vec![(
        "query".to_string(),
        vec![r#"up{chrono_timeframe="7days",job="a"}"#.to_string()],
    )];
    chronotheus::selectors::strip_label(&mut params, "query", "chrono_timeframe");
    assert_eq!(params[0].1[0], r#"up{job="a"}"#);
}

#[test]
fn strip_label_touches_only_the_named_key() {
    let mut params = vec![
        ("other".to_string(), vec![r#"x{chrono_timeframe="y"}"#.to_string()]),
        ("query".to_string(), vec![r#"up{chrono_timeframe="7days"}"#.to_string()]),
    ];
    chronotheus::selectors::strip_label(&mut params, "query", "chrono_timeframe");
    assert_eq!(params[0].1[0], r#"x{chrono_timeframe="y"}"#);
    assert_eq!(params[1].1[0], "up{}");
}
