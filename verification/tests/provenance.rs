use okf_graph::provenance::{ancestors, cycles};
use okf_graph::Derivation;

fn edge(from: &str, to: &str) -> Derivation {
    Derivation {
        from: from.to_string(),
        to: to.to_string(),
    }
}

#[test]
fn ancestors_follow_a_chain_transitively() {
    let edges = [edge("a", "b"), edge("b", "c")];
    assert_eq!(ancestors(&edges, "a"), ["b", "c"]);
    assert_eq!(ancestors(&edges, "b"), ["c"]);
    assert_eq!(ancestors(&edges, "c"), Vec::<&str>::new());
}

#[test]
fn a_shared_ancestor_is_listed_once() {
    let edges = [
        edge("a", "b"),
        edge("a", "c"),
        edge("b", "d"),
        edge("c", "d"),
    ];
    assert_eq!(ancestors(&edges, "a"), ["b", "c", "d"]);
}

#[test]
fn ancestors_terminate_through_a_cycle() {
    let edges = [edge("a", "b"), edge("b", "a")];
    assert_eq!(ancestors(&edges, "a"), ["b"]);
    assert_eq!(ancestors(&[edge("x", "x")], "x"), Vec::<&str>::new());
}

#[test]
fn an_acyclic_graph_has_no_cycles() {
    let edges = [
        edge("a", "b"),
        edge("a", "c"),
        edge("b", "d"),
        edge("c", "d"),
    ];
    assert!(cycles(&edges).is_empty());
}

#[test]
fn a_two_cycle_and_a_self_loop_are_each_found_once() {
    assert_eq!(cycles(&[edge("a", "b"), edge("b", "a")]), [vec!["a", "b"]]);
    assert_eq!(cycles(&[edge("x", "x")]), [vec!["x"]]);
}

#[test]
fn a_cycle_off_an_acyclic_prefix_is_found() {
    let edges = [edge("a", "b"), edge("b", "c"), edge("c", "b")];
    assert_eq!(cycles(&edges), [vec!["b", "c"]]);
}

#[test]
fn ancestors_come_back_sorted_whatever_the_edge_order() {
    let edges = [edge("m", "z"), edge("m", "b"), edge("z", "a"), edge("b", "a")];
    assert_eq!(ancestors(&edges, "m"), ["a", "b", "z"]);
    assert_eq!(ancestors(&edges, "nobody"), Vec::<&str>::new());
}

#[test]
fn a_cycle_is_reported_once_whichever_node_the_walk_enters_by() {
    let edges = [edge("c", "a"), edge("a", "b"), edge("b", "c"), edge("b", "a")];
    let found = cycles(&edges);
    assert_eq!(found, [vec!["a", "b", "c"], vec!["a", "b"]]);
    let none: [Derivation; 0] = [];
    assert!(cycles(&none).is_empty());
}

#[test]
fn two_disjoint_cycles_are_both_reported_from_where_the_walk_enters() {
    let edges = [edge("d", "c"), edge("c", "d"), edge("b", "a"), edge("a", "b")];
    assert_eq!(
        cycles(&edges),
        vec![
            vec!["a".to_string(), "b".to_string()],
            vec!["c".to_string(), "d".to_string()],
        ]
    );
}
