use okf_graph::check::caller_finding;
use okf_graph::{Bundle, Check, CheckError, Checks, Concept, Level, Policy, Rule, RuleId};

/// A bundle of in-memory files, each handed over with its text when it is one
/// a bundle reads.
fn bundle_of(files: &[(&str, &str)]) -> Bundle {
    Bundle::from_files(
        files
            .iter()
            .map(|(path, text)| {
                let text = okf_graph::bundle::needs_text(path).then(|| text.to_string());
                (path.to_string(), text)
            })
            .collect(),
    )
}

/// A note whose only body link names a concept that is not there.
fn dangling() -> Bundle {
    bundle_of(&[(
        "note.md",
        "---\ntype: Note\n---\n\nSee the [ghost](/tables/ghost.md) table.\n",
    )])
}

struct Named(&'static str);

impl Check for Named {
    fn code(&self) -> &str {
        self.0
    }
    fn check(&self, _id: &str, _concept: &Concept) -> Result<(), String> {
        Ok(())
    }
}

struct GeneratedAtRequired;

impl Check for GeneratedAtRequired {
    fn code(&self) -> &str {
        "HOUSE-1"
    }
    fn check(&self, _id: &str, concept: &Concept) -> Result<(), String> {
        match concept.frontmatter().generated() {
            Some(generated) if generated.at.is_some() => Ok(()),
            Some(_) => Err("`generated` declares no `at`".into()),
            None => Err("no `generated` family".into()),
        }
    }
}

struct AlwaysReports;

impl Check for AlwaysReports {
    fn code(&self) -> &str {
        "HOUSE-2"
    }
    fn default_level(&self) -> Level {
        Level::Report
    }
    fn check(&self, id: &str, _concept: &Concept) -> Result<(), String> {
        Err(format!("saw `{id}`"))
    }
}

fn checks(items: Vec<Box<dyn Check>>) -> Checks {
    let mut checks = Checks::new();
    for item in items {
        checks.add(item).expect("registers");
    }
    checks
}

#[test]
fn a_check_registers_under_its_code() {
    let mut checks = Checks::new();
    checks.add(Named("TV-1")).expect("registers");

    assert!(checks.contains("TV-1"));
    assert!(checks.contains("tv-1"), "codes compare case-insensitively");
    assert_eq!(checks.codes(), ["TV-1"]);
}

#[test]
fn a_duplicate_code_is_rejected_rather_than_resolved() {
    let mut checks = Checks::new();
    checks.add(Named("TV-1")).expect("registers");

    assert_eq!(
        checks.add(Named("tv-1")),
        Err(CheckError::DuplicateCode("tv-1".into()))
    );
    assert_eq!(checks.len(), 1);
}

#[test]
fn an_okf_code_cannot_be_reused() {
    let mut checks = Checks::new();

    assert_eq!(
        checks.add(Named("BUNDLE-2")),
        Err(CheckError::OkfCode("BUNDLE-2".into()))
    );
    assert!(checks.is_empty());
}

#[test]
fn the_default_level_is_defect() {
    assert_eq!(Named("TV-1").default_level(), Level::Defect);
}

#[test]
fn a_caller_rule_fires_on_a_bundle_the_spec_calls_clean() {
    let bundle = dangling();
    assert!(!bundle.fails(&Policy::new()), "clean but for a report");

    let checks = checks(vec![Box::new(GeneratedAtRequired)]);
    let findings = bundle.check(&checks);

    assert_eq!(findings.len(), 1);
    assert_eq!(findings[0].rule, RuleId::Custom("HOUSE-1".into()));
    assert_eq!(findings[0].file, "note.md");
}

#[test]
fn a_caller_finding_has_no_severity_but_does_have_a_level() {
    let bundle = dangling();
    let checks = checks(vec![Box::new(GeneratedAtRequired)]);
    let findings = bundle.check(&checks);

    assert_eq!(findings[0].severity(), None);
    assert_eq!(findings[0].rule.spec(), None);
    assert_eq!(
        Policy::for_checks(&checks).level(&findings[0].rule),
        Level::Defect
    );
}

#[test]
fn the_two_kinds_of_finding_print_differently() {
    let bundle = dangling();
    let checks = checks(vec![Box::new(GeneratedAtRequired)]);

    assert_eq!(
        bundle.findings()[0].to_line(),
        "note.md\tBUNDLE-2 (dangling link): link to `/tables/ghost.md` resolves to no concept in the bundle"
    );
    assert_eq!(
        bundle.check(&checks)[0].to_line(),
        "note.md\tHOUSE-1: no `generated` family"
    );
}

#[test]
fn a_checks_default_level_seeds_the_policy() {
    let checks = checks(vec![Box::new(GeneratedAtRequired), Box::new(AlwaysReports)]);
    let policy = Policy::for_checks(&checks);

    assert_eq!(
        policy.level(&RuleId::Custom("HOUSE-1".into())),
        Level::Defect
    );
    assert_eq!(
        policy.level(&RuleId::Custom("HOUSE-2".into())),
        Level::Report
    );
    assert_eq!(
        policy.level(&RuleId::Spec(Rule::DanglingLink)),
        Level::Report
    );
}

#[test]
fn an_unseeded_caller_rule_defaults_to_defect() {
    assert_eq!(
        Policy::new().level(&RuleId::Custom("NEVER-SEEN".into())),
        Level::Defect
    );
}

#[test]
fn a_caller_rule_can_be_denied_warned_or_allowed() {
    let mut policy = Policy::for_checks(&checks(vec![Box::new(GeneratedAtRequired)]));
    let rule = RuleId::Custom("HOUSE-1".into());

    assert_eq!(policy.level(&rule), Level::Defect);
    policy.set(rule.clone(), Level::Allow);
    assert_eq!(policy.level(&rule), Level::Allow);
}

#[test]
fn unmatched_reports_codes_no_check_registers() {
    let checks = checks(vec![Box::new(GeneratedAtRequired)]);
    let mut policy = Policy::for_checks(&checks);
    policy.set(RuleId::Custom("HOUSE-9".into()), Level::Allow);
    policy.set(Rule::DanglingLink, Level::Defect);

    assert_eq!(policy.unmatched(&checks), ["HOUSE-9"]);
}

#[test]
fn a_code_collision_is_refused_at_registration() {
    let mut checks = Checks::new();
    checks.add(GeneratedAtRequired).expect("registers");

    assert_eq!(
        checks.add(GeneratedAtRequired),
        Err(CheckError::DuplicateCode("HOUSE-1".into()))
    );
    assert_eq!(checks.len(), 1);
}

#[test]
fn no_concepts_means_no_caller_findings() {
    let bundle = Bundle::from_files(Vec::new());

    assert!(bundle.is_empty());
    assert!(bundle
        .check(&checks(vec![Box::new(AlwaysReports)]))
        .is_empty());
}

#[test]
fn each_concept_meets_every_check_in_registration_order() {
    let bundle = bundle_of(&[
        ("a.md", "---\ntype: Note\ngenerated: { by: x/1, at: 2026-01-01T00:00:00Z }\n---\n"),
        ("b.md", "---\ntype: Note\n---\n"),
    ]);
    let checks = checks(vec![Box::new(AlwaysReports), Box::new(GeneratedAtRequired)]);
    let lines: Vec<String> = bundle.check(&checks).iter().map(|f| f.to_line()).collect();
    assert_eq!(
        lines,
        [
            "a.md\tHOUSE-2: saw `a`",
            "b.md\tHOUSE-2: saw `b`",
            "b.md\tHOUSE-1: no `generated` family",
        ]
    );
}

#[test]
fn unmatched_codes_come_back_sorted_and_a_refusal_says_why() {
    let checks = checks(vec![Box::new(AlwaysReports)]);
    let mut policy = Policy::new();
    policy.set(RuleId::Custom("Z-1".into()), Level::Allow);
    policy.set(RuleId::Custom("house-2".into()), Level::Allow);
    policy.set(RuleId::Custom("A-1".into()), Level::Report);
    assert_eq!(policy.unmatched(&checks), ["A-1", "Z-1"]);

    assert_eq!(checks.refusal("HOUSE-2"), Some(CheckError::DuplicateCode("HOUSE-2".into())));
    assert_eq!(checks.refusal("log-1"), Some(CheckError::OkfCode("log-1".into())));
    assert_eq!(checks.refusal("HOUSE-3"), None);
    assert_eq!(
        CheckError::OkfCode("LOG-1".into()).message(),
        "`LOG-1` is an OKF rule code and cannot be reused"
    );
    assert_eq!(
        CheckError::DuplicateCode("TV-1".into()).message(),
        "a check with the code `TV-1` is already registered"
    );
}

#[test]
fn a_passing_check_gives_no_finding_and_a_report_gives_one() {
    assert!(caller_finding("a/b", "TV-1", Ok(())).is_none());
    let f = caller_finding("a/b", "TV-1", Err("why".into())).expect("a report");
    assert_eq!(f.to_line(), "a/b.md\tTV-1: why");
}
