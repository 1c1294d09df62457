use okf_graph::index::{check_frontmatter, understands};

#[test]
fn only_the_two_known_versions_are_understood() {
    assert!(understands("0.1"));
    assert!(understands("0.2"));
    assert!(!understands("0.3"));
    assert!(!understands("0.2 "));
    assert!(!understands(""));
}

#[test]
fn a_root_index_may_declare_only_its_version() {
    let check = check_frontmatter("okf_version: \"0.2\"\n", true);
    assert!(check.illegal_keys.is_empty());
    assert_eq!(check.unknown_version, None);

    let check = check_frontmatter("okf_version: \"0.7\"\ntitle: Home\n", true);
    assert_eq!(check.illegal_keys, ["title"]);
    assert_eq!(check.unknown_version.as_deref(), Some("0.7"));
}

#[test]
fn a_nested_index_may_declare_nothing_and_an_empty_block_declares_nothing() {
    let check = check_frontmatter("okf_version: \"0.2\"\n", false);
    assert_eq!(check.illegal_keys, ["okf_version"]);
    assert_eq!(check.unknown_version, None);

    let check = check_frontmatter("", false);
    assert!(check.illegal_keys.is_empty());
}

#[test]
fn a_block_that_is_not_a_mapping_is_unparseable() {
    let check = check_frontmatter("just text\n", true);
    assert_eq!(check.illegal_keys, ["(unparseable frontmatter)"]);
    let check = check_frontmatter("a: [unclosed\n", true);
    assert_eq!(check.illegal_keys, ["(unparseable frontmatter)"]);
    let check = check_frontmatter("1: one\n? [a]\n: two\n", true);
    assert_eq!(check.illegal_keys, ["?", "?"]);
}

#[test]
fn a_version_written_as_a_number_is_read_by_its_text() {
    let check = check_frontmatter("okf_version: 9.9\n", true);
    assert!(check.illegal_keys.is_empty());
    assert_eq!(check.unknown_version.as_deref(), Some("9.9"));

    let check = check_frontmatter("okf_version: 3\n", true);
    assert_eq!(check.unknown_version.as_deref(), Some("3"));

    let check = check_frontmatter("okf_version: 0.2\n", true);
    assert_eq!(check.unknown_version, None);

    let check = check_frontmatter("okf_version: true\n", true);
    assert_eq!(check.unknown_version, None);
}
