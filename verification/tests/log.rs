use okf_graph::log::check_headings;

#[test]
fn a_newest_first_iso_log_is_clean() {
    let body = "# Log\n\n## 2026-05-22\n\n- update\n\n## 2026-05-15\n\n- init\n";
    let check = check_headings(body);
    assert!(check.non_iso.is_empty());
    assert!(!check.out_of_order);
}

#[test]
fn a_non_iso_heading_is_flagged() {
    let check = check_headings("# Log\n\n## May 22, 2026\n\n- update\n");
    assert_eq!(check.non_iso, ["May 22, 2026"]);
    assert!(!check.out_of_order);
}

#[test]
fn ascending_dates_are_out_of_order() {
    let check = check_headings("# Log\n\n## 2026-05-15\n\n## 2026-05-22\n");
    assert!(check.non_iso.is_empty());
    assert!(check.out_of_order);
}

#[test]
fn a_date_inside_a_fence_is_not_a_heading() {
    let check = check_headings("# Log\n\n```\n## not-a-date\n```\n");
    assert!(check.non_iso.is_empty());
    assert!(!check.out_of_order);
}

#[test]
fn an_implausible_month_is_not_an_iso_date_and_equal_dates_are_in_order() {
    let check = check_headings("## 2026-13-01\n## 2026-05-15\n## 2026-05-15\n~~~\n## x\n~~~\n");
    assert_eq!(check.non_iso, ["2026-13-01"]);
    assert!(!check.out_of_order);
}
