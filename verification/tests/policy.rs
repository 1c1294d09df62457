use okf_graph::{Level, Policy, Rule, RuleId, Severity};

#[test]
fn the_default_level_is_the_severity() {
    assert_eq!(Rule::MissingType.default_level(), Level::Defect);
    assert_eq!(Rule::DanglingLink.default_level(), Level::Report);
}

#[test]
fn an_unset_rule_runs_at_its_default() {
    let policy = Policy::new();
    assert_eq!(
        policy.level(&RuleId::Spec(Rule::DanglingLink)),
        Level::Report
    );
    assert_eq!(
        policy.level(&RuleId::Spec(Rule::MissingType)),
        Level::Defect
    );
}

#[test]
fn a_set_rule_moves_and_its_neighbours_do_not() {
    let mut policy = Policy::new();
    policy.set(Rule::DanglingLink, Level::Defect);

    assert_eq!(
        policy.level(&RuleId::Spec(Rule::DanglingLink)),
        Level::Defect
    );
    assert_eq!(
        policy.level(&RuleId::Spec(Rule::LogOutOfOrder)),
        Level::Report
    );
    assert_eq!(Rule::DanglingLink.severity(), Severity::Report);
}

#[test]
fn the_last_setting_wins() {
    let mut policy = Policy::new();
    policy
        .set(Rule::DanglingLink, Level::Defect)
        .set(Rule::DanglingLink, Level::Allow);

    assert_eq!(
        policy.level(&RuleId::Spec(Rule::DanglingLink)),
        Level::Allow
    );
}

#[test]
fn levels_order_by_how_much_they_do() {
    assert!(Level::Allow < Level::Report);
    assert!(Level::Report < Level::Defect);
}

#[test]
fn a_caller_rule_set_by_id_is_kept_apart_from_the_spec_rules() {
    let mut policy = Policy::new();
    policy.set(RuleId::Custom("TV-1".to_string()), Level::Report);
    policy.set_id(RuleId::Custom("TV-2".to_string()), Level::Allow);
    assert_eq!(policy.level(&RuleId::Custom("TV-1".to_string())), Level::Report);
    assert_eq!(policy.level(&RuleId::Custom("TV-2".to_string())), Level::Allow);
    assert_eq!(policy.level(&RuleId::Custom("TV-3".to_string())), Level::Defect);
    assert_eq!(policy.level(&RuleId::Spec(Rule::MissingRuntime)), Level::Defect);
    let mut codes = policy.custom_codes();
    codes.sort();
    assert_eq!(codes, ["TV-1", "TV-2"]);
}
