use okf_graph::{classify_path, resolve_path, PathKind};

#[test]
fn classifies_the_path_forms() {
    assert_eq!(classify_path("https://example.com/x", true), PathKind::Url);
    assert_eq!(classify_path("//cdn.example.com/x", true), PathKind::Url);
    assert_eq!(
        classify_path("/references/ga4.md", true),
        PathKind::BundlePath
    );
    assert_eq!(
        classify_path("../computations/revenue.md", true),
        PathKind::Relative
    );
    assert_eq!(
        classify_path("references/attesters/revenue.py", true),
        PathKind::Relative
    );
}

#[test]
fn a_spaced_value_is_a_scope_descriptor_only_where_allowed() {
    assert_eq!(
        classify_path("all queries in BigQuery project X", true),
        PathKind::ScopeDescriptor
    );
    assert_eq!(
        classify_path("all queries in BigQuery project X", false),
        PathKind::Relative
    );
}

#[test]
fn resolves_bundle_and_relative_targets_keeping_the_extension() {
    assert_eq!(
        resolve_path("anywhere", "/references/ga4.md"),
        "references/ga4.md"
    );
    assert_eq!(
        resolve_path("computations/revenue", "../references/run.py"),
        "references/run.py"
    );
    assert_eq!(
        resolve_path("metrics/revenue", "revenue.sql"),
        "metrics/revenue.sql"
    );
    assert_eq!(resolve_path("a/b", "/c/d.md#x"), "c/d.md");
}

#[test]
fn a_rooted_target_ignores_where_it_is_read_from() {
    assert_eq!(resolve_path("x/y/z", "/a/./b/../c.md"), resolve_path("q", "/a/./b/../c.md"));
    assert_eq!(resolve_path("q", "/a/./b/../c.md"), "a/c.md");
    assert_eq!(resolve_path("top", "../../up.md"), "up.md");
    assert_eq!(resolve_path("a/b", "./c.md"), "a/c.md");
}

#[test]
fn a_resolved_path_is_clean_and_rooting_it_again_changes_nothing() {
    for (from, target) in [
        ("tables/orders", "../metrics/./revenue.md#total"),
        ("a/b/c", "../../../../x//y/.."),
        ("overview", "/tables/customers.md"),
        ("a", ".."),
    ] {
        let r = resolve_path(from, target);
        assert!(!r.starts_with('/'));
        assert!(!r.contains('#'));
        assert!(r.is_empty() || r.split('/').all(|s| !s.is_empty() && s != "." && s != ".."));
        assert_eq!(resolve_path("elsewhere/deep", &format!("/{r}")), r);
    }
}
