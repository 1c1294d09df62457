use okf_graph::bundle::{needs_text, resolve_concept_target, strip_md};
use okf_graph::{Bundle, Concept, Level, Link, LinkKind, Policy, Rule, RuleId, Severity};

/// A bundle of in-memory files, given in the order a walk of the tree visits
/// them; each is handed over with its text when it is one a bundle reads.
fn bundle_of(files: &[(&str, &str)]) -> Bundle {
    Bundle::from_files(
        files
            .iter()
            .map(|(path, text)| {
                let text = needs_text(path).then(|| text.to_string());
                (path.to_string(), text)
            })
            .collect(),
    )
}

fn clean() -> Bundle {
    bundle_of(&[
        (
            "index.md",
            "---\nokf_version: \"0.2\"\n---\n\n- [Overview](overview.md)\n- [Tables](tables/)\n",
        ),
        (
            "log.md",
            "# Log\n\n## 2026-05-22\n\n- [orders](tables/orders.md)\n\n## 2026-05-15\n\n- init\n",
        ),
        (
            "overview.md",
            "---\ntype: Overview\n---\n\nSee the [customers](/tables/customers.md) and the [orders](tables/orders.md).\n",
        ),
        ("tables/customers.md", "---\ntype: BigQuery Table\n---\n\n# Schema\n"),
        (
            "tables/index.md",
            "# Tables\n\n- [Customers](customers.md)\n- [Orders](orders.md)\n",
        ),
        (
            "tables/orders.md",
            "---\ntype: BigQuery Table\ntitle: Orders\n---\n\n# Schema\n\n| Column | Type |\n",
        ),
    ])
}

fn one(path: &str, text: &str) -> Bundle {
    bundle_of(&[(path, text)])
}

#[test]
fn a_duplicate_concept_id_is_reported_and_the_first_file_wins() {
    let mut bundle = Bundle::new();
    let first = Concept::parse("---\ntype: First\n---\n").expect("parses");
    let second = Concept::parse("---\ntype: Second\n---\n").expect("parses");

    bundle.add_concept("dup".into(), "a.md".into(), first);
    bundle.add_concept("dup".into(), "b.md".into(), second);

    assert_eq!(bundle.len(), 1);
    assert_eq!(
        bundle.concept("dup").unwrap().frontmatter().concept_type(),
        Some("First")
    );
    let dups: Vec<_> = bundle
        .findings()
        .iter()
        .filter(|f| f.rule == Rule::DuplicateId)
        .collect();
    assert_eq!(dups.len(), 1);
    assert_eq!(dups[0].file, "b.md");
}

fn link(target: &str, kind: LinkKind) -> Link {
    Link::new(target.to_string(), kind)
}

#[test]
fn resolution_normalises_absolute_and_relative_targets() {
    assert_eq!(
        resolve_concept_target("anywhere", &link("/a/b.md#x", LinkKind::BundleAbsolute))
            .as_deref(),
        Some("a/b")
    );
    assert_eq!(
        resolve_concept_target("a/b/c", &link("../sibling.md", LinkKind::Relative)).as_deref(),
        Some("a/sibling")
    );
}

#[test]
fn a_non_concept_target_resolves_to_nothing() {
    assert_eq!(
        resolve_concept_target("a", &link("https://x", LinkKind::External)),
        None
    );
    assert_eq!(
        resolve_concept_target("a", &link("#section", LinkKind::Fragment)),
        None
    );
    assert_eq!(
        resolve_concept_target("a", &link("/tables/", LinkKind::BundleAbsolute)),
        None
    );
}

#[test]
fn loads_concepts_by_id_and_excludes_reserved_files() {
    let bundle = clean();

    let ids: Vec<&str> = bundle.concepts().into_iter().map(|(id, _)| id).collect();
    assert_eq!(ids, ["overview", "tables/customers", "tables/orders"]);
    assert_eq!(bundle.len(), 3);

    assert!(bundle.concept("index").is_none());
    assert!(bundle.concept("log").is_none());
    assert!(bundle.concept("tables/index").is_none());
}

#[test]
fn a_loaded_concept_keeps_its_frontmatter_and_body() {
    let bundle = clean();

    let orders = bundle.concept("tables/orders").expect("orders is present");
    assert_eq!(orders.frontmatter().concept_type(), Some("BigQuery Table"));
    assert!(orders.body().as_str().contains("# Schema"));
}

#[test]
fn a_clean_bundle_reports_nothing() {
    let bundle = clean();
    assert!(
        bundle.findings().is_empty(),
        "expected no findings, got: {:?}",
        bundle.findings()
    );
}

#[test]
fn an_unparseable_file_is_not_a_concept_and_is_reported() {
    let bundle = one("prose-only.md", "# Just prose\n\nNo metadata here.\n");

    assert!(bundle.is_empty(), "the prose-only file is not a concept");
    assert_eq!(bundle.findings().len(), 1);
    assert_eq!(bundle.findings()[0].rule, Rule::NotAConcept);
    assert_eq!(bundle.findings()[0].file, "prose-only.md");
    assert_eq!(
        bundle.findings()[0].detail,
        "not a concept document: no frontmatter: the file does not open with a `---` fence"
    );
}

#[test]
fn a_typeless_concept_is_loaded_but_reported() {
    let bundle = one("untyped.md", "---\ntitle: Untyped\n---\nbody\n");

    assert_eq!(bundle.len(), 1);
    assert!(bundle.concept("untyped").is_some());
    assert_eq!(bundle.findings().len(), 1);
    assert_eq!(bundle.findings()[0].rule, Rule::MissingType);
    assert_eq!(bundle.findings()[0].file, "untyped.md");
}

#[test]
fn resolved_body_links_become_edges() {
    let bundle = clean();

    let mut edges: Vec<(&str, &str)> = bundle
        .links()
        .iter()
        .map(|e| (e.from.as_str(), e.to.as_str()))
        .collect();
    edges.sort();
    assert_eq!(
        edges,
        [
            ("overview", "tables/customers"),
            ("overview", "tables/orders"),
        ]
    );
    assert!(bundle.findings().is_empty());
}

#[test]
fn a_dangling_link_is_reported_as_a_report_not_a_defect() {
    let bundle = one(
        "note.md",
        "---\ntype: Note\n---\n\nSee the [ghost](/tables/ghost.md) table.\n",
    );

    assert!(bundle.links().is_empty());
    assert_eq!(bundle.findings().len(), 1);
    assert_eq!(bundle.findings()[0].rule, Rule::DanglingLink);
    assert_eq!(bundle.findings()[0].file, "note.md");
    assert!(
        bundle
            .findings()
            .iter()
            .all(|f| f.severity() == Some(Severity::Report)),
        "a dangling link must not be a defect"
    );
}

#[test]
fn an_invalid_status_is_reported() {
    let bundle = one("thing.md", "---\ntype: Thing\nstatus: archived\n---\n");

    assert_eq!(bundle.len(), 1);
    assert_eq!(bundle.findings().len(), 1);
    assert_eq!(bundle.findings()[0].rule, Rule::InvalidStatus);
    assert_eq!(bundle.findings()[0].file, "thing.md");
}

#[test]
fn generated_without_by_is_reported() {
    let bundle = one(
        "thing.md",
        "---\ntype: Thing\ngenerated: { at: 2026-01-01T00:00:00Z }\n---\n",
    );

    assert_eq!(bundle.findings().len(), 1);
    assert_eq!(bundle.findings()[0].rule, Rule::MissingGeneratedBy);
    assert_eq!(bundle.findings()[0].file, "thing.md");
}

#[test]
fn a_malformed_date_is_a_defect_in_stale_after_and_a_report_in_a_signal() {
    let bundle = bundle_of(&[
        (
            "signals.md",
            "---\ntype: Thing\nsources:\n  - resource: https://example.com/x\n    usage_count: many\n    last_modified: 30-05-2026\n    usage_window: { from: 2026-06-01, to: 2026-06-31 }\nusage_window: { from: 2026-06-01, to: 2026-13-01 }\n---\n",
        ),
        ("stale.md", "---\ntype: Thing\nstale_after: 2026-02-30\n---\n"),
    ]);

    let findings = bundle.findings();
    assert_eq!(findings.len(), 5);

    let stale: Vec<_> = findings.iter().filter(|f| f.file == "stale.md").collect();
    assert_eq!(stale.len(), 1);
    assert_eq!(stale[0].rule, Rule::MalformedStaleAfter);
    assert_eq!(stale[0].severity(), Some(Severity::Defect));
    assert!(stale[0].detail.contains("2026-02-30"));

    let signals: Vec<&str> = findings
        .iter()
        .filter(|f| f.file == "signals.md")
        .inspect(|f| {
            assert_eq!(f.rule, Rule::MalformedSourceSignal);
            assert_eq!(f.severity(), Some(Severity::Report));
        })
        .map(|f| f.detail.as_str())
        .collect();
    assert_eq!(signals.len(), 4);
    assert!(signals.iter().any(|d| d.contains("`usage_window.to`")));
    assert!(signals
        .iter()
        .any(|d| d.contains("`sources[0].last_modified` = `30-05-2026`")));
    assert!(signals
        .iter()
        .any(|d| d.contains("`sources[0].usage_count` is not an integer")));
    assert!(signals
        .iter()
        .any(|d| d.contains("`sources[0].usage_window.to` = `2026-06-31`")));
}

#[test]
fn a_non_rfc_3339_timestamp_is_reported() {
    let bundle = bundle_of(&[
        ("mistyped.md", "---\ntype: Thing\ngenerated: { by: agent/1, at: 2026 }\n---\n"),
        (
            "reviewed.md",
            "---\ntype: Thing\nverified:\n  - { by: human:x, at: 2026-06-25 }\n---\n",
        ),
        (
            "thing.md",
            "---\ntype: Thing\ngenerated: { by: agent/1, at: 2026-W01-1T00:00:00Z }\n---\n",
        ),
    ]);

    let findings = bundle.findings();
    assert_eq!(findings.len(), 3);
    assert!(findings.iter().all(|f| f.rule == Rule::MalformedTimestamp));
    assert_eq!(findings[0].file, "mistyped.md");
    assert!(findings[0].detail.contains("`generated.at` = `2026`"));
    assert_eq!(findings[1].file, "reviewed.md");
    assert!(findings[1].detail.contains("`verified[0].at`"));
    assert_eq!(findings[2].file, "thing.md");
    assert!(findings[2].detail.contains("2026-W01-1T00:00:00Z"));
}

#[test]
fn a_malformed_actor_is_reported() {
    let bundle = one("thing.md", "---\ntype: Thing\ngenerated: { by: bob }\n---\n");

    assert_eq!(bundle.findings().len(), 1);
    assert_eq!(bundle.findings()[0].rule, Rule::MalformedActor);
    assert_eq!(bundle.findings()[0].file, "thing.md");
}

#[test]
fn a_source_without_resource_is_reported() {
    let bundle = one("thing.md", "---\ntype: Thing\nsources:\n  - { title: A source }\n---\n");

    assert_eq!(bundle.findings().len(), 1);
    assert_eq!(bundle.findings()[0].rule, Rule::MissingSourceResource);
    assert_eq!(bundle.findings()[0].file, "thing.md");
}

#[test]
fn a_valid_attested_computation_reports_nothing() {
    let bundle = one(
        "revenue.md",
        "---\ntype: Attested Computation\ntitle: Revenue\nruntime: bigquery\nparameters:\n  - { name: year, type: integer, required: true }\n---\n\n# Computation\n\n```sql\nSELECT SUM(amount) AS revenue FROM finance.recognized_revenue WHERE fiscal_year = @year\n```\n",
    );
    assert!(
        bundle.findings().is_empty(),
        "expected no findings, got: {:?}",
        bundle.findings()
    );
}

#[test]
fn an_attested_computation_without_runtime_is_reported() {
    let bundle = one(
        "thing.md",
        "---\ntype: Attested Computation\n---\n\n# Computation\n\n    SELECT 1\n",
    );

    assert_eq!(bundle.findings().len(), 1);
    assert_eq!(bundle.findings()[0].rule, Rule::MissingRuntime);
    assert_eq!(bundle.findings()[0].file, "thing.md");
}

#[test]
fn an_attested_computation_with_both_sources_is_reported() {
    let bundle = bundle_of(&[
        ("references/x.sql", "SELECT 1;\n"),
        (
            "thing.md",
            "---\ntype: Attested Computation\nruntime: bigquery\ncomputation: references/x.sql\n---\n\n# Computation\n\n    SELECT 1\n",
        ),
    ]);

    assert_eq!(bundle.findings().len(), 1);
    assert_eq!(bundle.findings()[0].rule, Rule::InvalidComputationSource);
}

#[test]
fn an_attested_computation_with_neither_source_is_reported() {
    let bundle = one(
        "thing.md",
        "---\ntype: Attested Computation\nruntime: bigquery\n---\n\n# Notes\n",
    );

    assert_eq!(bundle.findings().len(), 1);
    assert_eq!(bundle.findings()[0].rule, Rule::InvalidComputationSource);
}

fn paths_bundle() -> Vec<(&'static str, &'static str)> {
    vec![
        ("overview.md", "---\ntype: Overview\n---\n"),
        ("references/check.py", "print(1)\n"),
        ("references/revenue.sql", "SELECT 1;\n"),
        ("references/run.py", "print(2)\n"),
        (
            "revenue.md",
            "---\ntype: Attested Computation\ntitle: Revenue\nruntime: bigquery\ncomputation: references/revenue.sql\nexecutor:\n  resource: references/run.py\nattester:\n  resource: references/check.py\nsources:\n  - resource: https://wiki.example/revenue\n  - resource: all queries in BigQuery project X\n  - resource: /overview.md\n---\n\n# Definition\n\nRecognized revenue, computed by the referenced query.\n",
        ),
    ]
}

#[test]
fn resolving_path_valued_fields_report_nothing() {
    let bundle = bundle_of(&paths_bundle());
    assert!(
        bundle.findings().is_empty(),
        "expected no findings, got: {:?}",
        bundle.findings()
    );
}

#[test]
fn a_dangling_path_valued_field_is_a_report() {
    let bundle = one(
        "revenue.md",
        "---\ntype: Attested Computation\nruntime: bigquery\ncomputation: references/missing.sql\n---\n\n# Definition\n",
    );

    assert_eq!(bundle.findings().len(), 1);
    assert_eq!(bundle.findings()[0].rule, Rule::DanglingPath);
    assert_eq!(bundle.findings()[0].file, "revenue.md");
    assert!(bundle
        .findings()
        .iter()
        .all(|f| f.severity() == Some(Severity::Report)));
}

#[test]
fn a_derivation_chain_builds_edges_and_propagates() {
    let bundle = bundle_of(&[
        ("metric.md", "---\ntype: Metric\nsources:\n  - resource: revenue.md\n---\n"),
        (
            "policy.md",
            "---\ntype: Policy\nsources:\n  - resource: https://example.com/policy\n---\n",
        ),
        (
            "revenue.md",
            "---\ntype: Metric\nsources:\n  - resource: /policy.md\n  - resource: https://example.com/x\n---\n",
        ),
    ]);

    let edges: Vec<(&str, &str)> = bundle
        .derivations()
        .iter()
        .map(|d| (d.from.as_str(), d.to.as_str()))
        .collect();
    assert_eq!(edges, [("metric", "revenue"), ("revenue", "policy")]);

    assert_eq!(bundle.derivation_ancestors("metric"), ["policy", "revenue"]);
    assert_eq!(bundle.derivation_ancestors("policy"), Vec::<&str>::new());
    assert!(bundle.findings().is_empty());
}

#[test]
fn a_derivation_cycle_is_reported() {
    let bundle = bundle_of(&[
        ("a.md", "---\ntype: Thing\nsources:\n  - resource: b.md\n---\n"),
        ("b.md", "---\ntype: Thing\nsources:\n  - resource: a.md\n---\n"),
    ]);

    assert_eq!(bundle.findings().len(), 1);
    let cycle = &bundle.findings()[0];
    assert_eq!(cycle.rule, Rule::DerivationCycle);
    assert_eq!(cycle.severity(), Some(Severity::Report));
    assert_eq!(cycle.file, "a.md");
    assert!(
        cycle.detail.contains("a → b → a"),
        "detail: {}",
        cycle.detail
    );
}

#[test]
fn a_valid_index_reports_nothing() {
    let bundle = bundle_of(&[
        ("a.md", "---\ntype: Thing\n---\n"),
        (
            "index.md",
            "---\nokf_version: \"0.2\"\n---\n\n- [A](a.md)\n- [Sub](sub/)\n",
        ),
        ("sub/b.md", "---\ntype: Thing\n---\n"),
        ("sub/index.md", "# Sub\n\n- [B](b.md)\n"),
    ]);
    assert!(
        bundle.findings().is_empty(),
        "expected no findings, got: {:?}",
        bundle.findings()
    );
}

#[test]
fn an_index_with_illegal_frontmatter_is_a_defect() {
    let bundle = bundle_of(&[
        ("a.md", "---\ntype: Thing\n---\n"),
        ("index.md", "---\nokf_version: \"0.2\"\ntitle: Home\n---\n\n- [A](a.md)\n"),
    ]);

    assert_eq!(bundle.findings().len(), 1);
    assert_eq!(bundle.findings()[0].rule, Rule::IndexFrontmatter);
    assert_eq!(bundle.findings()[0].severity(), Some(Severity::Defect));
    assert_eq!(bundle.findings()[0].file, "index.md");
    assert_eq!(
        bundle.findings()[0].detail,
        "root index.md may carry only `okf_version`; found: title"
    );
}

#[test]
fn a_dangling_index_entry_is_a_report() {
    let bundle = bundle_of(&[
        ("a.md", "---\ntype: Thing\n---\n"),
        ("index.md", "- [A](a.md)\n- [Ghost](ghost.md)\n"),
    ]);

    assert_eq!(bundle.findings().len(), 1);
    assert_eq!(bundle.findings()[0].rule, Rule::DanglingIndexEntry);
    assert_eq!(bundle.findings()[0].severity(), Some(Severity::Report));
    assert_eq!(bundle.findings()[0].file, "index.md");
}

#[test]
fn a_valid_log_reports_nothing() {
    let bundle = bundle_of(&[
        ("a.md", "---\ntype: Thing\n---\n"),
        ("log.md", "# Log\n\n## 2026-05-22\n\n- [a](a.md)\n\n## 2026-05-15\n\n- init\n"),
    ]);
    assert!(
        bundle.findings().is_empty(),
        "expected no findings, got: {:?}",
        bundle.findings()
    );
}

#[test]
fn a_non_iso_log_date_is_a_defect() {
    let bundle = bundle_of(&[
        ("a.md", "---\ntype: Thing\n---\n"),
        ("log.md", "# Log\n\n## May 22, 2026\n\n- [a](a.md)\n"),
    ]);

    assert_eq!(bundle.findings().len(), 1);
    assert_eq!(bundle.findings()[0].rule, Rule::NonIsoLogDate);
    assert_eq!(bundle.findings()[0].severity(), Some(Severity::Defect));
    assert_eq!(bundle.findings()[0].file, "log.md");
}

#[test]
fn an_out_of_order_log_is_a_report() {
    let bundle = bundle_of(&[
        ("a.md", "---\ntype: Thing\n---\n"),
        ("log.md", "# Log\n\n## 2026-05-15\n\n## 2026-05-22\n"),
    ]);

    assert_eq!(bundle.findings().len(), 1);
    assert_eq!(bundle.findings()[0].rule, Rule::LogOutOfOrder);
    assert_eq!(bundle.findings()[0].severity(), Some(Severity::Report));
}

#[test]
fn a_dangling_log_entry_is_a_report() {
    let bundle = bundle_of(&[
        ("a.md", "---\ntype: Thing\n---\n"),
        ("log.md", "# Log\n\n## 2026-05-22\n\n- [gone](gone.md)\n"),
    ]);

    assert_eq!(bundle.findings().len(), 1);
    assert_eq!(bundle.findings()[0].rule, Rule::DanglingLogEntry);
    assert_eq!(bundle.findings()[0].severity(), Some(Severity::Report));
    assert_eq!(bundle.findings()[0].file, "log.md");
}

#[test]
fn a_reference_style_link_becomes_an_edge() {
    let bundle = bundle_of(&[
        ("a.md", "---\ntype: Thing\n---\n\nSee [the other one][ref].\n\n[ref]: /b.md\n"),
        ("b.md", "---\ntype: Thing\n---\n"),
    ]);

    let edges: Vec<(&str, &str)> = bundle
        .links()
        .iter()
        .map(|e| (e.from.as_str(), e.to.as_str()))
        .collect();
    assert_eq!(edges, [("a", "b")]);
    assert!(bundle.findings().is_empty());
}

#[test]
fn a_malformed_parameter_is_reported() {
    let bundle = one(
        "thing.md",
        "---\ntype: Attested Computation\nruntime: bigquery\nparameters:\n  - { name: year, type: integer }\n---\n\n# Computation\n\n    SELECT 1\n",
    );

    assert_eq!(bundle.findings().len(), 1);
    assert_eq!(bundle.findings()[0].rule, Rule::MalformedParameter);
    assert_eq!(bundle.findings()[0].severity(), Some(Severity::Report));
    assert_eq!(bundle.findings()[0].file, "thing.md");
    assert_eq!(
        bundle.findings()[0].detail,
        "`parameters[0]` is missing a boolean `required`"
    );
}

#[test]
fn an_incomplete_attestation_is_reported() {
    let bundle = one(
        "thing.md",
        "---\ntype: Attested Computation\nruntime: bigquery\nexecutor:\n  receipt: job_id\nattester:\n  title: checker\n---\n\n# Computation\n\n    SELECT 1\n",
    );

    let incomplete: Vec<_> = bundle
        .findings()
        .iter()
        .filter(|f| f.rule == Rule::IncompleteAttestation)
        .collect();
    assert_eq!(incomplete.len(), 3);
    assert!(incomplete
        .iter()
        .all(|f| f.severity() == Some(Severity::Report)));
    assert_eq!(bundle.findings().len(), 3, "{:?}", bundle.findings());
}

#[test]
fn an_empty_computation_section_is_a_defect() {
    let bundle = one(
        "thing.md",
        "---\ntype: Attested Computation\nruntime: bigquery\n---\n\n# Computation\n\n\n# Notes\n\nNothing here.\n",
    );

    assert_eq!(bundle.findings().len(), 1);
    assert_eq!(bundle.findings()[0].rule, Rule::EmptyComputation);
    assert_eq!(bundle.findings()[0].severity(), Some(Severity::Defect));
    assert_eq!(bundle.findings()[0].file, "thing.md");
}

fn hierarchy() -> Bundle {
    bundle_of(&[
        ("datasets/sales/detail.md", "---\ntype: Table\n---\n"),
        ("datasets/sales.md", "---\ntype: Dataset\n---\n"),
        ("datasets.md", "---\ntype: Collection\n---\n"),
        ("orphan/deep.md", "---\ntype: Table\n---\n"),
        ("orphan/index.md", "# Orphans\n"),
    ])
}

#[test]
fn parent_is_the_nearest_concept_ancestor() {
    let bundle = hierarchy();

    assert_eq!(bundle.parent("datasets"), None);
    assert_eq!(bundle.parent("datasets/sales"), Some("datasets"));
    assert_eq!(
        bundle.parent("datasets/sales/detail"),
        Some("datasets/sales")
    );
    assert_eq!(bundle.parent("orphan/deep"), None);
}

#[test]
fn children_attach_to_their_nearest_concept_ancestor() {
    let bundle = hierarchy();

    assert_eq!(bundle.children("datasets"), vec!["datasets/sales"]);
    assert_eq!(
        bundle.children("datasets/sales"),
        vec!["datasets/sales/detail"]
    );
    assert!(bundle.children("orphan/deep").is_empty());
}

#[test]
fn a_symlinked_markdown_file_is_not_a_second_concept() {
    let bundle = Bundle::from_files(vec![
        ("alias.md".to_string(), None),
        (
            "real/a.md".to_string(),
            Some("---\ntype: Thing\n---\n\nbody\n".to_string()),
        ),
    ]);

    let ids: Vec<&str> = bundle.concepts().into_iter().map(|(id, _)| id).collect();
    assert_eq!(ids, ["real/a"]);
    assert!(bundle.concept("alias").is_none());
    assert!(bundle.findings().is_empty(), "{:?}", bundle.findings());
}

#[test]
fn a_path_field_naming_a_symlink_still_resolves() {
    let bundle = Bundle::from_files(vec![
        ("alias.sql".to_string(), None),
        ("references/real.sql".to_string(), None),
        (
            "thing.md".to_string(),
            Some(
                "---\ntype: Attested Computation\nruntime: bigquery\ncomputation: /alias.sql\n---\n\nbody\n"
                    .to_string(),
            ),
        ),
    ]);

    assert!(
        !bundle
            .findings()
            .iter()
            .any(|f| f.rule == Rule::DanglingPath),
        "{:?}",
        bundle.findings()
    );
}

#[test]
fn children_and_parent_are_inverse_over_every_concept() {
    let bundle = hierarchy();
    for (id, _) in bundle.concepts() {
        for (other, _) in bundle.concepts() {
            assert_eq!(
                bundle.children(other).contains(&id),
                bundle.parent(id) == Some(other),
                "{id} / {other}"
            );
        }
    }
}

#[test]
fn a_run_fails_on_a_defect_and_a_policy_can_move_a_rule_either_way() {
    let bundle = bundle_of(&[
        ("a.md", "---\ntitle: Untyped\n---\n\nSee [x](/x.md).\n"),
    ]);
    assert_eq!(bundle.findings().len(), 2);
    let policy = Policy::new();
    assert!(bundle.fails(&policy));
    assert_eq!(bundle.findings_at(&policy).len(), 2);

    let mut relaxed = Policy::new();
    relaxed.set(Rule::MissingType, Level::Report);
    assert!(!bundle.fails(&relaxed));
    relaxed.set(Rule::DanglingLink, Level::Allow);
    let shown = bundle.findings_at(&relaxed);
    assert_eq!(shown.len(), 1);
    assert_eq!(shown[0].rule, RuleId::Spec(Rule::MissingType));

    let mut strict = Policy::new();
    strict.set(Rule::MissingType, Level::Allow);
    strict.set(Rule::DanglingLink, Level::Defect);
    assert!(bundle.fails(&strict));
    assert_eq!(bundle.findings_at(&strict).len(), 1);
}

#[test]
fn the_file_name_decides_what_is_read() {
    assert!(needs_text("index.md"));
    assert!(needs_text("a/b/log.md"));
    assert!(needs_text("a/b/c.md"));
    assert!(needs_text("..md"));
    assert!(!needs_text(".md"));
    assert!(!needs_text("a/.md"));
    assert!(!needs_text("notes.txt"));
    assert!(!needs_text("a.MD"));
    assert_eq!(strip_md("tables/orders.md"), "tables/orders");
    assert_eq!(strip_md("tables/orders"), "tables/orders");
}

#[test]
fn each_finding_detail_names_what_went_wrong() {
    let bundle = bundle_of(&[
        (
            "a.md",
            "---\ntype: Thing\ngenerated: { by: \"   \" }\nverified:\n  - { by: \"no actor\", at: \" \" }\nsources:\n  - { resource: \"\", author: \":x\" }\n---\n",
        ),
        ("index.md", "---\nokf_version: \"9.9\"\n---\n"),
        ("sub/index.md", "---\n[1, 2]\n---\n"),
    ]);
    let lines: Vec<String> = bundle.findings().iter().map(|f| f.to_line()).collect();
    assert_eq!(
        lines,
        [
            "a.md\tCONCEPT-4 (missing generated.by): `generated.by` is empty",
            "a.md\tCONCEPT-5 (malformed actor): `verified[0].by` = `no actor` is not a `producer/version` or `scheme:id` actor",
            "a.md\tCONCEPT-12 (malformed timestamp): `verified[0].at` is empty",
            "a.md\tCONCEPT-6 (missing source resource): `sources[0]` declares no `resource`",
            "a.md\tCONCEPT-5 (malformed actor): `sources[0].author` = `:x` is not a `producer/version` or `scheme:id` actor",
            "index.md\tINDEX-3 (unknown okf_version): okf_version `9.9` is not understood; this tool reads 0.1 and 0.2",
            "sub/index.md\tINDEX-1 (index frontmatter not allowed): a nested index.md may carry no frontmatter; found: (unparseable frontmatter)",
        ]
    );
}

#[test]
fn every_edge_joins_two_concepts_of_the_bundle() {
    let bundle = bundle_of(&[
        (
            "a.md",
            "---\ntype: Thing\nsources:\n  - resource: b.md\n  - resource: gone.md\n  - resource: data.csv\n---\n\nSee [b](b.md), [nothing](nothing.md) and [site](https://example.com).\n",
        ),
        ("b.md", "---\ntype: Thing\n---\n\nBack to [a](/a.md).\n"),
        ("data.csv", "x"),
    ]);

    let links: Vec<(&str, &str)> = bundle
        .links()
        .iter()
        .map(|e| (e.from.as_str(), e.to.as_str()))
        .collect();
    assert_eq!(links, [("a", "b"), ("b", "a")]);
    let derivations: Vec<(&str, &str)> = bundle
        .derivations()
        .iter()
        .map(|d| (d.from.as_str(), d.to.as_str()))
        .collect();
    assert_eq!(derivations, [("a", "b")]);
    for (from, to) in links.iter().chain(derivations.iter()) {
        assert!(bundle.concept(from).is_some());
        assert!(bundle.concept(to).is_some());
    }
}
