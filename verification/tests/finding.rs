use okf_graph::{Finding, Rule, RuleId, Severity};

#[test]
fn every_rule_has_a_unique_code_and_a_title() {
    let mut codes = std::collections::BTreeSet::new();
    for rule in Rule::all() {
        assert!(!rule.title().is_empty(), "{rule:?} has no title");
        assert!(codes.insert(rule.code()), "duplicate code {}", rule.code());
    }
}

#[test]
fn every_rule_round_trips_through_its_code() {
    for rule in Rule::all() {
        assert_eq!(Rule::from_code(rule.code()), Some(rule), "{rule:?}");
    }
    assert_eq!(
        Rule::all().len(),
        24,
        "a rule was added without a test update"
    );
}

#[test]
fn a_code_reads_in_any_case_and_an_unknown_one_is_none() {
    assert_eq!(Rule::from_code("bundle-2"), Some(Rule::DanglingLink));
    assert_eq!(Rule::from_code("BUNDLE-2"), Some(Rule::DanglingLink));
    assert_eq!(Rule::from_code("BUNDEL-2"), None);
    assert_eq!(Rule::from_code(""), None);
}

#[test]
fn severity_splits_the_tolerated_report_from_the_defects() {
    assert_eq!(Rule::DanglingLink.severity(), Severity::Report);
    assert_eq!(Rule::DanglingPath.severity(), Severity::Report);
    assert_eq!(Rule::DerivationCycle.severity(), Severity::Report);
    assert_eq!(Rule::DanglingIndexEntry.severity(), Severity::Report);
    assert_eq!(Rule::UnknownOkfVersion.severity(), Severity::Report);
    assert_eq!(Rule::LogOutOfOrder.severity(), Severity::Report);
    assert_eq!(Rule::DanglingLogEntry.severity(), Severity::Report);
    assert_eq!(Rule::MalformedParameter.severity(), Severity::Report);
    assert_eq!(Rule::IncompleteAttestation.severity(), Severity::Report);
    assert_eq!(Rule::MalformedSourceSignal.severity(), Severity::Report);
    for rule in [
        Rule::NotAConcept,
        Rule::MissingType,
        Rule::DuplicateId,
        Rule::InvalidStatus,
        Rule::MissingGeneratedBy,
        Rule::MalformedActor,
        Rule::MissingSourceResource,
        Rule::MissingRuntime,
        Rule::InvalidComputationSource,
        Rule::IndexFrontmatter,
        Rule::NonIsoLogDate,
        Rule::EmptyComputation,
        Rule::MalformedTimestamp,
        Rule::MalformedStaleAfter,
    ] {
        assert_eq!(rule.severity(), Severity::Defect, "{rule:?}");
    }
}

#[test]
fn display_locates_the_file_then_names_the_rule() {
    let finding = Finding::new(
        "tables/orders.md".to_string(),
        Rule::MissingType.into(),
        "no `type`".to_string(),
    );
    assert_eq!(
        finding.to_line(),
        "tables/orders.md\tCONCEPT-2 (missing type): no `type`"
    );
    assert_eq!(finding.severity(), Some(Severity::Defect));
}

#[test]
fn a_code_is_case_folded_only_in_ascii() {
    assert_eq!(Rule::from_code("Concept-14"), Some(Rule::MalformedSourceSignal));
    assert_eq!(Rule::from_code("CONCEPT-14 "), None);
    assert_eq!(Rule::from_code("CONCEPT-15"), None);
    assert_eq!(Rule::from_code("LOG-3"), Some(Rule::DanglingLogEntry));
}

#[test]
fn a_caller_finding_prints_its_code_alone_and_has_no_severity() {
    let finding = Finding::new(
        "a.md".to_string(),
        RuleId::Custom("TV-1".to_string()),
        "why".to_string(),
    );
    assert_eq!(finding.to_line(), "a.md\tTV-1: why");
    assert_eq!(finding.severity(), None);
    assert_eq!(finding.rule.spec(), None);
    assert_eq!(finding.rule.code(), "TV-1");
    assert_eq!(RuleId::Spec(Rule::DuplicateId).code(), "BUNDLE-1");
}

#[test]
fn every_code_is_a_family_a_dash_and_a_positive_number() {
    for rule in Rule::all() {
        let code = rule.code();
        let (family, number) = code.split_once('-').expect("a dash");
        assert!(["CONCEPT", "BUNDLE", "INDEX", "LOG"].contains(&family), "{code}");
        assert!(!number.is_empty() && number.chars().all(|c| c.is_ascii_digit()), "{code}");
        assert!(!number.starts_with('0'), "{code}");
    }
}
