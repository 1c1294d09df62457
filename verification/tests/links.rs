use okf_graph::links::classify;
use okf_graph::{links_in, LinkKind};

fn targets(body: &str) -> Vec<String> {
    links_in(body).into_iter().map(|l| l.target).collect()
}

#[test]
fn extracts_and_classifies_the_link_forms() {
    let body = "\
See the [customers](/tables/customers.md) table, the
[neighbour](./other.md), a [parent](../top.md), the
[home page](https://example.com), [mail](mailto:a@b.com),
a [section](#schema), and a [bare](foo.md).";
    let links = links_in(body);
    let by_target: Vec<(&str, LinkKind)> =
        links.iter().map(|l| (l.target.as_str(), l.kind)).collect();
    assert_eq!(
        by_target,
        [
            ("/tables/customers.md", LinkKind::BundleAbsolute),
            ("./other.md", LinkKind::Relative),
            ("../top.md", LinkKind::Relative),
            ("https://example.com", LinkKind::External),
            ("mailto:a@b.com", LinkKind::External),
            ("#schema", LinkKind::Fragment),
            ("foo.md", LinkKind::Relative),
        ]
    );
}

#[test]
fn a_protocol_relative_target_is_external() {
    assert_eq!(classify("//cdn.example.com/x"), LinkKind::External);
}

#[test]
fn a_fragment_on_a_path_stays_with_the_target() {
    let links = links_in("[x](/a/b.md#schema)");
    assert_eq!(links[0].target, "/a/b.md#schema");
    assert_eq!(links[0].kind, LinkKind::BundleAbsolute);
}

#[test]
fn a_title_and_angle_brackets_are_stripped_from_the_target() {
    assert_eq!(targets("[a](/x.md \"the title\")"), ["/x.md"]);
    assert_eq!(
        targets("[a](</path with spaces.md>)"),
        ["/path with spaces.md"]
    );
}

#[test]
fn links_inside_a_fenced_code_block_are_ignored() {
    let body = "\
before [real](/a.md)
```
not a [link](/nope.md)
```
after [also-real](/b.md)";
    assert_eq!(targets(body), ["/a.md", "/b.md"]);
}

#[test]
fn resolves_the_reference_link_forms() {
    let body = "\
The [full form][ga4], the [ga4][] collapsed, and the [ga4] shortcut.

[ga4]: /tables/ga4.md
";
    let links = links_in(body);
    assert!(links.iter().all(|l| l.target == "/tables/ga4.md"));
    assert!(links.iter().all(|l| l.kind == LinkKind::BundleAbsolute));
    assert_eq!(links.len(), 3);
}

#[test]
fn an_undefined_reference_and_a_footnote_are_not_links() {
    let body = "See [missing][nope] and a claim.[^note]\n\n[^note]: the source\n";
    assert!(targets(body).is_empty());
}

#[test]
fn a_definition_line_is_not_scanned_as_a_link() {
    assert!(targets("[o]: /b.md\n").is_empty());
}

#[test]
fn a_link_inside_an_inline_code_span_is_ignored() {
    assert_eq!(
        targets("use `[x](/code.md)` but see [real](/a.md)"),
        ["/a.md"]
    );
    assert!(targets("`[x](/only-code.md)`").is_empty());
    assert_eq!(targets("``[x](/c.md)`` and [r](/b.md)"), ["/b.md"]);
}

#[test]
fn an_empty_target_and_an_unterminated_one_are_skipped() {
    assert!(targets("[a]() and [b](/ok.md").is_empty());
    assert_eq!(targets("[a]() and [b](/ok.md)"), ["/ok.md"]);
}

#[test]
fn a_reference_label_matches_in_any_case() {
    let body = "See [Orders][ORD].\n\n[ord]: /tables/orders.md\n";
    assert_eq!(targets(body), ["/tables/orders.md"]);
}

#[test]
fn a_scheme_makes_a_target_external_and_a_rooted_one_absolute() {
    assert_eq!(classify("https://x"), LinkKind::External);
    assert_eq!(classify("mailto:a@b.com"), LinkKind::External);
    assert_eq!(classify("#top"), LinkKind::Fragment);
    assert_eq!(classify("/a.md"), LinkKind::BundleAbsolute);
    assert_eq!(classify("a.md"), LinkKind::Relative);
    assert_eq!(classify(""), LinkKind::Relative);
}
