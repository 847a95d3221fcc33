use pg_bart::rules::{parse_split_rules, SplitRuleKind};

#[test]
fn parse_split_rules_maps_names() {
    let names = vec!["ContinuousSplit".to_string(), "OneHotSplit".to_string()];
    assert_eq!(
        parse_split_rules(&names),
        Ok(vec![SplitRuleKind::Continuous, SplitRuleKind::OneHot])
    );
    assert_eq!(parse_split_rules(&vec![]), Ok(vec![]));
}

#[test]
fn parse_split_rules_reports_first_unknown() {
    let names = vec![
        "OneHotSplit".to_string(),
        "Quantile".to_string(),
        "Other".to_string(),
    ];
    assert_eq!(parse_split_rules(&names), Err("Quantile".to_string()));
}
