//! The **derivation graph**: a `sources[].resource` that points at another
//! concept is an edge "A derives from B". This module is the pure graph logic
//! over resolved `Derivation` edges — the transitive-ancestor walk that
//! credibility propagation follows, and cycle detection. It knows nothing about
//! the bundle or how the edges were resolved.

use vstd::prelude::*;

use crate::text::{
    chars_equal, chars_lt, chars_of_string, lemma_lex_asymmetric, lemma_lex_total,
    lemma_lex_transitive, lex_lt, string_of, strings_view,
};

verus! {

/// A derivation edge: `from` derives from `to`, both Concept IDs. Only a
/// `sources[].resource` that resolves to a concept becomes one; an external
/// URL, a scope descriptor, or a non-concept file is a leaf source, not an edge.
#[derive(Debug, Clone, PartialEq, Eq)]
pub struct Derivation {
    /// The deriving concept.
    pub from: String,
    /// The concept it derives from.
    pub to: String,
}

impl Derivation {
    /// The edge `from` → `to`.
    pub fn new(from: String, to: String) -> (r: Derivation)
        ensures
            r.from@ == from@,
            r.to@ == to@,
    {
        Derivation { from, to }
    }
}

/// The edges as pairs of Concept IDs.
pub open spec fn edge_pairs(edges: Seq<Derivation>) -> Seq<(Seq<char>, Seq<char>)> {
    edges.map_values(|d: Derivation| (d.from@, d.to@))
}

/// Whether `a` → `b` is one of the edges.
pub open spec fn has_edge(es: Seq<(Seq<char>, Seq<char>)>, a: Seq<char>, b: Seq<char>) -> bool {
    exists|k: int| 0 <= k < es.len() && #[trigger] es[k] == (a, b)
}

/// Whether each member of `p` has an edge to the next.
pub open spec fn is_walk(es: Seq<(Seq<char>, Seq<char>)>, p: Seq<Seq<char>>) -> bool {
    forall|i: int| 0 <= i < p.len() - 1 ==> #[trigger] has_edge(es, p[i], p[i + 1])
}

/// `a` derives from `b` through one or more edges.
pub open spec fn derives_from(es: Seq<(Seq<char>, Seq<char>)>, a: Seq<char>, b: Seq<char>) -> bool {
    exists|p: Seq<Seq<char>>|
        #![trigger is_walk(es, p), p.last()]
        p.len() >= 2 && p[0] == a && p.last() == b && is_walk(es, p)
}

/// Every member sorts strictly before every later one: sorted, no repeats.
pub open spec fn sorted_strictly(s: Seq<Seq<char>>) -> bool {
    forall|i: int, j: int| 0 <= i < j < s.len() ==> lex_lt(#[trigger] s[i], #[trigger] s[j])
}

/// The character sequences a run of `Vec<char>` holds.
pub open spec fn char_seqs(v: Seq<Vec<char>>) -> Seq<Seq<char>> {
    v.map_values(|x: Vec<char>| x@)
}

/// The edge's two ends, each as `Vec<char>`.
fn edge_chars(edges: &[Derivation]) -> (r: Vec<(Vec<char>, Vec<char>)>)
    ensures
        r@.len() == edges@.len(),
        forall|k: int|
            0 <= k < r@.len() ==> ((#[trigger] r@[k]).0@, r@[k].1@) == edge_pairs(edges@)[k],
{
    let mut out: Vec<(Vec<char>, Vec<char>)> = Vec::new();
    let mut k: usize = 0;
    while k < edges.len()
        invariant
            k <= edges@.len(),
            out@.len() == k,
            forall|j: int|
                0 <= j < k ==> ((#[trigger] out@[j]).0@, out@[j].1@) == edge_pairs(edges@)[j],
        decreases edges.len() - k,
    {
        out.push((chars_of_string(&edges[k].from), chars_of_string(&edges[k].to)));
        k += 1;
    }
    out
}

/// Whether `x` is one of `items`.
fn holds(items: &Vec<Vec<char>>, x: &[char]) -> (r: bool)
    ensures
        r == char_seqs(items@).contains(x@),
{
    let mut i: usize = 0;
    while i < items.len()
        invariant
            i <= items@.len(),
            forall|j: int| 0 <= j < i ==> items@[j]@ != x@,
        decreases items.len() - i,
    {
        if chars_equal(&items[i], x) {
            assert(char_seqs(items@)[i as int] == x@);
            return true;
        }
        i += 1;
    }
    proof {
        if char_seqs(items@).contains(x@) {
            let j = choose|j: int| 0 <= j < char_seqs(items@).len() && char_seqs(items@)[j] == x@;
            assert(items@[j]@ == x@);
        }
    }
    false
}

/// Insert `x` into a strictly sorted run that does not hold it, keeping it
/// strictly sorted.
fn insert_sorted(items: &mut Vec<Vec<char>>, x: Vec<char>)
    requires
        sorted_strictly(char_seqs(old(items)@)),
        !char_seqs(old(items)@).contains(x@),
    ensures
        sorted_strictly(char_seqs(final(items)@)),
        char_seqs(final(items)@).len() == char_seqs(old(items)@).len() + 1,
        forall|y: Seq<char>|
            char_seqs(final(items)@).contains(y) <==> (char_seqs(old(items)@).contains(y) || y
                == x@),
{
    let ghost before = char_seqs(items@);
    let mut i: usize = 0;
    while i < items.len() && !chars_lt(&x, &items[i])
        invariant
            i <= items@.len(),
            before == char_seqs(items@),
            forall|j: int| 0 <= j < i ==> !lex_lt(x@, #[trigger] before[j]),
        decreases items.len() - i,
    {
        i += 1;
    }
    let ghost xv = x@;
    items.insert(i, x);
    let ghost after = char_seqs(items@);
    assert(after =~= before.insert(i as int, xv));
    assert forall|a: int, b: int| 0 <= a < b < after.len() implies lex_lt(
        #[trigger] after[a],
        #[trigger] after[b],
    ) by {
        if a < i && b < i {
            assert(lex_lt(before[a], before[b]));
        } else if a < i && b == i {
            assert(before[a] != xv);
            lemma_lex_total(before[a], xv);
        } else if a < i {
            assert(before[a] != xv);
            lemma_lex_total(before[a], xv);
            assert(lex_lt(before[a], before[b - 1]));
        } else if a == i {
            assert(lex_lt(xv, before[i as int]));
            if b - 1 > i {
                assert(lex_lt(before[i as int], before[b - 1]));
                lemma_lex_transitive(xv, before[i as int], before[b - 1]);
            }
        } else {
            assert(lex_lt(before[a - 1], before[b - 1]));
        }
    }
    assert forall|y: Seq<char>| after.contains(y) <==> (before.contains(y) || y == xv) by {
        if after.contains(y) {
            let j = choose|j: int| 0 <= j < after.len() && after[j] == y;
            if j < i {
                assert(before[j] == y);
            } else if j > i {
                assert(before[j - 1] == y);
            }
        }
        if before.contains(y) {
            let j = choose|j: int| 0 <= j < before.len() && before[j] == y;
            if j < i {
                assert(after[j] == y);
            } else {
                assert(after[j + 1] == y);
            }
        }
        if y == xv {
            assert(after[i as int] == y);
        }
    }
}

/// A strictly sorted run holds each member once.
pub proof fn lemma_sorted_unique(s: Seq<Seq<char>>)
    requires
        sorted_strictly(s),
    ensures
        s.no_duplicates(),
{
    assert forall|i: int, j: int| 0 <= i < s.len() && 0 <= j < s.len() && i != j implies s[i]
        != s[j] by {
        if i < j {
            assert(lex_lt(s[i], s[j]));
            lemma_lex_asymmetric(s[i], s[j]);
        } else {
            assert(lex_lt(s[j], s[i]));
            lemma_lex_asymmetric(s[j], s[i]);
        }
    }
}

/// Repeat-free members, each the target of some edge, number no more than the
/// edges.
proof fn lemma_targets_bound(s: Seq<Seq<char>>, es: Seq<(Seq<char>, Seq<char>)>)
    requires
        s.no_duplicates(),
        forall|x: Seq<char>| s.contains(x) ==> exists|k: int| 0 <= k < es.len() && #[trigger] es[k].1 == x,
    ensures
        s.len() <= es.len(),
{
    let targets = es.map_values(|e: (Seq<char>, Seq<char>)| e.1);
    assert(s.to_set().subset_of(targets.to_set())) by {
        assert forall|x: Seq<char>| s.to_set().contains(x) implies targets.to_set().contains(x) by {
            assert(s.contains(x));
            let k = choose|k: int| 0 <= k < es.len() && #[trigger] es[k].1 == x;
            assert(targets[k] == x);
        }
    }
    s.unique_seq_to_set();
    targets.lemma_cardinality_of_set();
    vstd::set_lib::lemma_len_subset(s.to_set(), targets.to_set());
}

/// A walk from `a` to `u`, then the edge `u` → `v`, is a walk from `a` to `v`.
proof fn lemma_walk_extends(es: Seq<(Seq<char>, Seq<char>)>, a: Seq<char>, u: Seq<char>, v: Seq<char>)
    requires
        derives_from(es, a, u) || a == u,
        has_edge(es, u, v),
    ensures
        derives_from(es, a, v),
{
    if a == u {
        let p = seq![a, v];
        assert(is_walk(es, p)) by {
            assert forall|i: int| 0 <= i < p.len() - 1 implies #[trigger] has_edge(es, p[i], p[i + 1]) by {
                assert(i == 0);
            }
        }
        assert(p.last() == v);
    } else {
        let p = choose|p: Seq<Seq<char>>|
            #![trigger is_walk(es, p), p.last()]
            p.len() >= 2 && p[0] == a && p.last() == u && is_walk(es, p);
        let q = p.push(v);
        assert(is_walk(es, q)) by {
            assert forall|i: int| 0 <= i < q.len() - 1 implies #[trigger] has_edge(es, q[i], q[i + 1]) by {
                if i < p.len() - 1 {
                    assert(q[i] == p[i] && q[i + 1] == p[i + 1]);
                    assert(has_edge(es, p[i], p[i + 1]));
                } else {
                    assert(q[i] == u && q[i + 1] == v);
                }
            }
        }
        assert(q.last() == v);
    }
}

/// Whether the edge leaves `start` or a member of `s` only to land on `start`
/// or a member of `s`.
pub open spec fn edge_closed(e: (Seq<char>, Seq<char>), start: Seq<char>, s: Seq<Seq<char>>) -> bool {
    (e.0 == start || s.contains(e.0)) ==> (e.1 == start || s.contains(e.1))
}

/// When no edge leaves `start` plus `s`, every walk from `start` stays there.
proof fn lemma_closed_walk(
    es: Seq<(Seq<char>, Seq<char>)>,
    start: Seq<char>,
    s: Seq<Seq<char>>,
    p: Seq<Seq<char>>,
    n: int,
)
    requires
        forall|k: int| 0 <= k < es.len() ==> edge_closed(#[trigger] es[k], start, s),
        is_walk(es, p),
        p.len() >= 1,
        p[0] == start,
        0 <= n < p.len(),
    ensures
        p[n] == start || s.contains(p[n]),
    decreases n,
{
    if n > 0 {
        lemma_closed_walk(es, start, s, p, n - 1);
        let m = n - 1;
        assert(has_edge(es, p[m], p[m + 1]));
        let k = choose|k: int| 0 <= k < es.len() && #[trigger] es[k] == (p[m], p[m + 1]);
        assert(edge_closed(es[k], start, s));
    }
}

/// The concepts `start` transitively derives from, sorted and deduplicated and
/// excluding `start` itself. Cycle-safe: the walk only ever adds a concept it
/// has not listed yet, so it terminates even when the edges cycle, and a
/// consumer can propagate credibility without looping forever.
pub fn ancestors(edges: &[Derivation], start: &str) -> (r: Vec<String>)
    ensures
        sorted_strictly(strings_view(r@)),
        forall|x: Seq<char>|
            strings_view(r@).contains(x) <==> (x != start@ && derives_from(
                edge_pairs(edges@),
                start@,
                x,
            )),
{
    let ghost es = edge_pairs(edges@);
    let ev = edge_chars(edges);
    let s = crate::text::chars_of(start);
    let mut found: Vec<Vec<char>> = Vec::new();
    let mut changed = true;
    while changed
        invariant
            ev@.len() == es.len(),
            forall|k: int| 0 <= k < ev@.len() ==> ((#[trigger] ev@[k]).0@, ev@[k].1@) == es[k],
            s@ == start@,
            sorted_strictly(char_seqs(found@)),
            !char_seqs(found@).contains(s@),
            forall|x: Seq<char>| #[trigger]
                char_seqs(found@).contains(x) ==> derives_from(es, s@, x) && exists|k: int|
                    0 <= k < es.len() && #[trigger] es[k].1 == x,
            !changed ==> forall|k: int| 0 <= k < es.len() ==> edge_closed(
                #[trigger] es[k],
                s@,
                char_seqs(found@),
            ),
        decreases es.len() - char_seqs(found@).len() + (if changed {
            1int
        } else {
            0int
        }),
    {
        proof {
            lemma_sorted_unique(char_seqs(found@));
            lemma_targets_bound(char_seqs(found@), es);
        }
        let ghost at_start = char_seqs(found@);
        changed = false;
        let mut k: usize = 0;
        while k < ev.len()
            invariant
                k <= ev@.len(),
                ev@.len() == es.len(),
                forall|j: int| 0 <= j < ev@.len() ==> ((#[trigger] ev@[j]).0@, ev@[j].1@) == es[j],
                s@ == start@,
                sorted_strictly(char_seqs(found@)),
                !char_seqs(found@).contains(s@),
                forall|x: Seq<char>| #[trigger]
                    char_seqs(found@).contains(x) ==> derives_from(es, s@, x) && exists|j: int|
                        0 <= j < es.len() && #[trigger] es[j].1 == x,
                at_start.len() <= es.len(),
                !changed ==> char_seqs(found@) == at_start,
                changed ==> char_seqs(found@).len() > at_start.len(),
                !changed ==> forall|j: int| 0 <= j < k ==> edge_closed(
                    #[trigger] es[j],
                    s@,
                    char_seqs(found@),
                ),
            decreases ev.len() - k,
        {
            let ghost e = es[k as int];
            assert(ev@[k as int].0@ == e.0 && ev@[k as int].1@ == e.1);
            let from_reached = chars_equal(&ev[k].0, &s) || holds(&found, &ev[k].0);
            if from_reached && !chars_equal(&ev[k].1, &s) && !holds(&found, &ev[k].1) {
                proof {
                    assert(has_edge(es, e.0, e.1)) by {
                        assert(es[k as int] == (e.0, e.1));
                    }
                    lemma_walk_extends(es, s@, e.0, e.1);
                }
                let ghost prev = char_seqs(found@);
                let v = ev[k].1.clone();
                insert_sorted(&mut found, v);
                proof {
                    assert forall|x: Seq<char>| #[trigger]
                        char_seqs(found@).contains(x) implies derives_from(es, s@, x) && exists|
                        j: int,
                    | 0 <= j < es.len() && #[trigger] es[j].1 == x by {
                        if prev.contains(x) {
                        } else {
                            assert(x == e.1);
                            assert(es[k as int].1 == x);
                        }
                    }
                }
                changed = true;
            }
            k += 1;
        }
        proof {
            lemma_sorted_unique(char_seqs(found@));
            lemma_targets_bound(char_seqs(found@), es);
        }
    }
    proof {
        assert forall|x: Seq<char>|
            x != start@ && derives_from(es, start@, x) implies char_seqs(found@).contains(x) by {
            let p = choose|p: Seq<Seq<char>>|
                #![trigger is_walk(es, p), p.last()]
                p.len() >= 2 && p[0] == start@ && p.last() == x && is_walk(es, p);
            lemma_closed_walk(es, s@, char_seqs(found@), p, p.len() - 1);
        }
    }
    let mut out: Vec<String> = Vec::new();
    let mut i: usize = 0;
    while i < found.len()
        invariant
            i <= found@.len(),
            strings_view(out@) == char_seqs(found@).take(i as int),
        decreases found.len() - i,
    {
        let ghost prev = strings_view(out@);
        let name = string_of(&found[i], 0, found[i].len());
        assert(found@[i as int]@.subrange(0, found@[i as int]@.len() as int) =~= found@[i as int]@);
        assert(name@ == char_seqs(found@)[i as int]);
        out.push(name);
        assert(strings_view(out@) =~= prev.push(char_seqs(found@)[i as int]));
        assert(char_seqs(found@).take(i + 1) =~= char_seqs(found@).take(i as int).push(
            char_seqs(found@)[i as int],
        ));
        i += 1;
    }
    assert(char_seqs(found@).take(i as int) =~= char_seqs(found@));
    out
}


/// A cycle of the derivation graph: distinct members, each with an edge to the
/// next, and the last with an edge back to the first.
pub open spec fn is_cycle(es: Seq<(Seq<char>, Seq<char>)>, c: Seq<Seq<char>>) -> bool {
    &&& c.len() >= 1
    &&& c.no_duplicates()
    &&& is_walk(es, c)
    &&& has_edge(es, c.last(), c[0])
}

/// Some concept derives from itself.
pub open spec fn has_cycle(es: Seq<(Seq<char>, Seq<char>)>) -> bool {
    exists|x: Seq<char>| #[trigger] derives_from(es, x, x)
}

/// The cycles found, each as its members' Concept IDs.
pub open spec fn cycles_view(v: Seq<Vec<String>>) -> Seq<Seq<Seq<char>>> {
    v.map_values(|c: Vec<String>| strings_view(c@))
}

/// An end of some edge.
pub open spec fn is_endpoint(es: Seq<(Seq<char>, Seq<char>)>, x: Seq<char>) -> bool {
    exists|k: int| 0 <= k < es.len() && (#[trigger] es[k].0 == x || es[k].1 == x)
}

/// The nodes of the graph as index lists: `adj[u]` holds the targets of `u`.
pub open spec fn adj_view(adj: Seq<Vec<usize>>) -> Seq<Seq<usize>> {
    adj.map_values(|a: Vec<usize>| a@)
}

/// Every listed target is a node.
pub open spec fn adj_bounded(adjv: Seq<Seq<usize>>) -> bool {
    forall|u: int, t: int|
        0 <= u < adjv.len() && 0 <= t < adjv[u].len() ==> #[trigger] adjv[u][t] < adjv.len()
}

/// Each member of `p` has an edge to the next, by index.
pub open spec fn idx_walk(adjv: Seq<Seq<usize>>, p: Seq<usize>) -> bool {
    forall|t: int| 0 <= t < p.len() - 1 ==> #[trigger] adjv[p[t] as int].contains(p[t + 1])
}

/// A cycle by index.
pub open spec fn idx_cycle(adjv: Seq<Seq<usize>>, c: Seq<usize>) -> bool {
    &&& c.len() >= 1
    &&& c.no_duplicates()
    &&& forall|t: int| 0 <= t < c.len() ==> #[trigger] c[t] < adjv.len()
    &&& idx_walk(adjv, c)
    &&& adjv[c.last() as int].contains(c[0])
}

/// No two lists share a member set.
pub open spec fn distinct_sets(found: Seq<Seq<usize>>) -> bool {
    forall|i: int, j: int|
        0 <= i < j < found.len() ==> (#[trigger] found[i]).to_set() != (#[trigger] found[j]).to_set()
}

/// The depth-first walk's grey nodes are exactly the path, each once.
pub open spec fn grey_path(color: Seq<u8>, path: Seq<usize>) -> bool {
    &&& path.no_duplicates()
    &&& forall|t: int| 0 <= t < path.len() ==> #[trigger] path[t] < color.len()
    &&& forall|t: int| 0 <= t < path.len() ==> color[#[trigger] path[t] as int] == 1
    &&& forall|i: int| 0 <= i < color.len() && color[i] == 1 ==> #[trigger] path.contains(i as usize)
}

/// Finished nodes point only at finished nodes, finished earlier.
pub open spec fn black_closed(adjv: Seq<Seq<usize>>, color: Seq<u8>, rank: Seq<int>) -> bool {
    forall|u: int, t: int|
        0 <= u < color.len() && color[u] == 2 && 0 <= t < adjv[u].len() ==> color[#[trigger] adjv[u][t] as int]
            == 2 && rank[adjv[u][t] as int] < rank[u]
}

/// Every finished node finished before `clock`.
pub open spec fn ranks_below(color: Seq<u8>, rank: Seq<int>, clock: int) -> bool {
    forall|u: int| 0 <= u < color.len() && color[u] == 2 ==> #[trigger] rank[u] < clock
}

/// How many nodes the walk has not reached.
pub open spec fn whites(c: Seq<u8>) -> nat
    decreases c.len(),
{
    if c.len() == 0 {
        0
    } else {
        whites(c.drop_last()) + if c.last() == 0 {
            1nat
        } else {
            0nat
        }
    }
}

/// Reaching more nodes never adds to the unreached.
proof fn lemma_whites_shrink(a: Seq<u8>, b: Seq<u8>)
    requires
        a.len() == b.len(),
        forall|i: int| 0 <= i < a.len() && a[i] != 0 ==> #[trigger] b[i] != 0,
    ensures
        whites(b) <= whites(a),
    decreases a.len(),
{
    if a.len() > 0 {
        lemma_whites_shrink(a.drop_last(), b.drop_last());
    }
}

/// Reaching a node that was not reached leaves one fewer.
pub proof fn lemma_whites_mark(a: Seq<u8>, i: int, x: u8)
    requires
        0 <= i < a.len(),
        a[i] == 0,
        x != 0,
    ensures
        whites(a.update(i, x)) + 1 == whites(a),
    decreases a.len(),
{
    let b = a.update(i, x);
    if i == a.len() - 1 {
        assert(b.drop_last() =~= a.drop_last());
    } else {
        assert(b.drop_last() =~= a.drop_last().update(i, x));
        lemma_whites_mark(a.drop_last(), i, x);
    }
}

/// Where `x` first stands in `p` (the length of `p` when it is absent).
pub open spec fn first_position(p: Seq<usize>, x: usize) -> int
    decreases p.len(),
{
    if p.len() == 0 {
        0
    } else if p[0] == x {
        0
    } else {
        1 + first_position(p.drop_first(), x)
    }
}

/// The first position of `x` is the first index that holds it.
proof fn lemma_first_position(p: Seq<usize>, x: usize, k: int)
    requires
        0 <= k < p.len(),
        p[k] == x,
        forall|s: int| 0 <= s < k ==> p[s] != x,
    ensures
        first_position(p, x) == k,
    decreases k,
{
    if k > 0 {
        let q = p.drop_first();
        assert forall|s: int| 0 <= s < k - 1 implies q[s] != x by {
            assert(q[s] == p[s + 1]);
        }
        assert(p[0] != x);
        lemma_first_position(q, x, k - 1);
    }
}

/// Whether some recorded cycle has the members of `c`.
pub open spec fn set_listed(found: Seq<Seq<usize>>, c: Seq<usize>) -> bool {
    exists|i: int| 0 <= i < found.len() && (#[trigger] found[i]).to_set() == c.to_set()
}

/// An edge from the node on top of the walk's path back to `next`, which is
/// on the path: the path from `next` to the top is a cycle, recorded unless
/// one with the same members already is. The walk is its colours (0 not
/// reached, 1 on the path, 2 finished), its path and the cycles recorded.
pub open spec fn close_cycle(
    w: (Seq<u8>, Seq<usize>, Seq<Seq<usize>>),
    next: usize,
) -> (Seq<u8>, Seq<usize>, Seq<Seq<usize>>) {
    let c = w.1.subrange(first_position(w.1, next), w.1.len() as int);
    if set_listed(w.2, c) {
        w
    } else {
        (w.0, w.1, w.2.push(c))
    }
}

/// The depth-first walk entering `node`: a node not reached yet goes on the
/// path and its edges are followed in order (see [`dfs_edges`]); any other
/// node leaves the walk as it is.
pub open spec fn dfs_visit(
    adjv: Seq<Seq<usize>>,
    node: int,
    w: (Seq<u8>, Seq<usize>, Seq<Seq<usize>>),
) -> (Seq<u8>, Seq<usize>, Seq<Seq<usize>>)
    decreases whites(w.0), 0int, 0int,
{
    if 0 <= node < w.0.len() && w.0[node] == 0 {
        proof {
            lemma_whites_mark(w.0, node, 1);
        }
        dfs_edges(adjv, node, 0, (w.0.update(node, 1), w.1.push(node as usize), w.2))
    } else {
        w
    }
}

/// The walk following `node`'s edges from the `t`-th on: an edge to a node on
/// the path closes a cycle ([`close_cycle`]), any other enters its target
/// ([`dfs_visit`]). After the last edge `node` is finished and leaves the path.
pub open spec fn dfs_edges(
    adjv: Seq<Seq<usize>>,
    node: int,
    t: int,
    w: (Seq<u8>, Seq<usize>, Seq<Seq<usize>>),
) -> (Seq<u8>, Seq<usize>, Seq<Seq<usize>>)
    decreases whites(w.0), 1int, adjv[node].len() - t,
{
    if 0 <= node < adjv.len() && 0 <= t < adjv[node].len() {
        let next = adjv[node][t];
        let w2 = if next < w.0.len() && w.0[next as int] == 1 {
            close_cycle(w, next)
        } else {
            dfs_visit(adjv, next as int, w)
        };
        if w2.0.len() == w.0.len() && whites(w2.0) <= whites(w.0) {
            dfs_edges(adjv, node, t + 1, w2)
        } else {
            w2
        }
    } else {
        (w.0.update(node, 2), w.1.drop_last(), w.2)
    }
}

/// The walk entered from every node in turn, from the `i`-th on.
pub open spec fn dfs_from(
    adjv: Seq<Seq<usize>>,
    i: int,
    w: (Seq<u8>, Seq<usize>, Seq<Seq<usize>>),
) -> (Seq<u8>, Seq<usize>, Seq<Seq<usize>>)
    decreases adjv.len() - i,
{
    if 0 <= i < adjv.len() {
        dfs_from(adjv, i + 1, dfs_visit(adjv, i, w))
    } else {
        w
    }
}

/// Every end of every edge, in ascending order, each once.
pub open spec fn graph_order(es: Seq<(Seq<char>, Seq<char>)>) -> Seq<Seq<char>> {
    choose|s: Seq<Seq<char>>|
        sorted_strictly(s) && forall|x: Seq<char>| #[trigger] s.contains(x) <==> is_endpoint(es, x)
}

/// The positions among `nv` of the targets of the edges leaving `x`, in edge
/// order.
pub open spec fn targets_of(es: Seq<(Seq<char>, Seq<char>)>, nv: Seq<Seq<char>>, x: Seq<char>) -> Seq<usize>
    decreases es.len(),
{
    if es.len() == 0 {
        seq![]
    } else {
        targets_of(es.drop_last(), nv, x) + if es.last().0 == x {
            seq![node_index(nv, es.last().1) as usize]
        } else {
            seq![]
        }
    }
}

/// For each node of `nv`, its targets (see [`targets_of`]).
pub open spec fn successor_lists(es: Seq<(Seq<char>, Seq<char>)>, nv: Seq<Seq<char>>) -> Seq<Seq<usize>> {
    Seq::new(nv.len(), |u: int| targets_of(es, nv, nv[u]))
}

/// The cycles a depth-first walk of the derivation graph closes: entered from
/// each Concept ID in ascending order, following each concept's edges in the
/// order given, an edge back onto the path closes the path from its target
/// round to the top, kept when no cycle with the same members was kept before.
pub open spec fn dfs_cycles(es: Seq<(Seq<char>, Seq<char>)>) -> Seq<Seq<Seq<char>>> {
    let nv = graph_order(es);
    let start = (Seq::new(nv.len(), |i: int| 0u8), Seq::<usize>::empty(), Seq::<Seq<usize>>::empty());
    dfs_from(successor_lists(es, nv), 0, start).2.map_values(|c: Seq<usize>| names_of(nv, c))
}

/// Whether every member of `a` is in `b`.
fn contains_all(a: &Vec<usize>, b: &Vec<usize>) -> (r: bool)
    ensures
        r == (forall|t: int| 0 <= t < a@.len() ==> b@.contains(#[trigger] a@[t])),
{
    let mut t: usize = 0;
    while t < a.len()
        invariant
            t <= a@.len(),
            forall|s: int| 0 <= s < t ==> b@.contains(#[trigger] a@[s]),
        decreases a.len() - t,
    {
        let x = a[t];
        let mut j: usize = 0;
        let mut hit = false;
        while j < b.len()
            invariant
                j <= b@.len(),
                hit == (exists|s: int| 0 <= s < j && b@[s] == x),
            decreases b.len() - j,
        {
            if b[j] == x {
                hit = true;
            }
            j += 1;
        }
        if !hit {
            assert(!b@.contains(a@[t as int]));
            return false;
        }
        t += 1;
    }
    true
}

/// Whether some listed cycle has the member set of `c`.
fn already_found(found: &Vec<Vec<usize>>, c: &Vec<usize>) -> (r: bool)
    ensures
        r == (exists|i: int| 0 <= i < found@.len() && (#[trigger] found@[i])@.to_set() == c@.to_set()),
{
    let mut i: usize = 0;
    while i < found.len()
        invariant
            i <= found@.len(),
            forall|j: int| 0 <= j < i ==> (#[trigger] found@[j])@.to_set() != c@.to_set(),
        decreases found.len() - i,
    {
        let ab = contains_all(&found[i], c);
        let ba = contains_all(c, &found[i]);
        let same = ab && ba;
        proof {
            let a = found@[i as int]@;
            if same {
                assert forall|x: usize| a.to_set().contains(x) == c@.to_set().contains(x) by {
                    if a.contains(x) {
                        let s = choose|s: int| 0 <= s < a.len() && a[s] == x;
                        assert(c@.contains(a[s]));
                    }
                    if c@.contains(x) {
                        let s = choose|s: int| 0 <= s < c@.len() && c@[s] == x;
                        assert(a.contains(c@[s]));
                    }
                }
                assert(a.to_set() =~= c@.to_set());
            } else {
                if ab {
                    let s = choose|s: int| 0 <= s < c@.len() && !a.contains(#[trigger] c@[s]);
                    assert(c@.to_set().contains(c@[s]));
                    assert(!a.to_set().contains(c@[s]));
                } else {
                    let s = choose|s: int| 0 <= s < a.len() && !c@.contains(#[trigger] a[s]);
                    assert(a.to_set().contains(a[s]));
                    assert(!c@.to_set().contains(a[s]));
                }
            }
        }
        if same {
            return true;
        }
        i += 1;
    }
    false
}


/// Depth-first visit for [`cycles`]: an edge back to a node still on the path
/// (grey) closes a cycle, recorded as the path slice from that node unless a
/// cycle with the same members is already listed. `rank` and `clock` are the
/// finishing order, which shows that a walk that records no cycle met none.
fn visit(
    node: usize,
    adj: &Vec<Vec<usize>>,
    color: &mut Vec<u8>,
    path: &mut Vec<usize>,
    found: &mut Vec<Vec<usize>>,
    Ghost(rank): Ghost<Seq<int>>,
    Ghost(clock): Ghost<int>,
) -> (out: Ghost<(Seq<int>, int)>)
    requires
        adj_bounded(adj_view(adj@)),
        old(color)@.len() == adj@.len(),
        node < adj@.len(),
        old(color)@[node as int] == 0,
        forall|i: int| 0 <= i < old(color)@.len() ==> #[trigger] old(color)@[i] <= 2,
        grey_path(old(color)@, old(path)@),
        idx_walk(adj_view(adj@), old(path)@),
        old(path)@.len() > 0 ==> adj_view(adj@)[old(path)@.last() as int].contains(node),
        forall|i: int| 0 <= i < old(found)@.len() ==> idx_cycle(adj_view(adj@), #[trigger] old(found)@[i]@),
        distinct_sets(adj_view(old(found)@)),
        rank.len() == adj@.len(),
        old(found)@.len() == 0 ==> black_closed(adj_view(adj@), old(color)@, rank),
        old(found)@.len() == 0 ==> ranks_below(old(color)@, rank, clock),
    ensures
        final(color)@.len() == adj@.len(),
        final(color)@[node as int] == 2,
        final(path)@ == old(path)@,
        forall|i: int| 0 <= i < final(color)@.len() ==> #[trigger] final(color)@[i] <= 2,
        forall|i: int| 0 <= i < old(color)@.len() && old(color)@[i] != 0 ==> #[trigger] final(color)@[i] != 0,
        forall|i: int| 0 <= i < old(color)@.len() && old(color)@[i] == 2 ==> #[trigger] final(color)@[i] == 2,
        grey_path(final(color)@, final(path)@),
        forall|i: int| 0 <= i < final(found)@.len() ==> idx_cycle(adj_view(adj@), #[trigger] final(found)@[i]@),
        distinct_sets(adj_view(final(found)@)),
        final(found)@.len() >= old(found)@.len(),
        out@.0.len() == adj@.len(),
        final(found)@.len() == 0 ==> black_closed(adj_view(adj@), final(color)@, out@.0),
        final(found)@.len() == 0 ==> ranks_below(final(color)@, out@.0, out@.1),
        final(found)@.len() == 0 ==> forall|i: int|
            0 <= i < old(color)@.len() && old(color)@[i] == 2 ==> #[trigger] out@.0[i] == rank[i],
        final(found)@.len() == 0 ==> out@.1 >= clock,
        (final(color)@, final(path)@, adj_view(final(found)@)) == dfs_visit(
            adj_view(adj@),
            node as int,
            (old(color)@, old(path)@, adj_view(old(found)@)),
        ),
    decreases whites(old(color)@),
{
    let n_all = adj.len();
    let ghost adjv = adj_view(adj@);
    let ghost entry = color@;
    let ghost path0 = path@;
    let ghost fv0 = adj_view(found@);
    color.set(node, 1);
    proof {
        lemma_whites_mark(entry, node as int, 1);
    }
    path.push(node);
    proof {
        assert(grey_path(color@, path@)) by {
            assert forall|i: int| 0 <= i < color@.len() && color@[i] == 1 implies #[trigger] path@.contains(i as usize) by {
                if i == node {
                    assert(path@[path0.len() as int] == node);
                } else {
                    assert(path0.contains(i as usize));
                    let t = choose|t: int| 0 <= t < path0.len() && path0[t] == i as usize;
                    assert(path@[t] == i as usize);
                }
            }
            assert forall|t: int| 0 <= t < path@.len() implies color@[#[trigger] path@[t] as int] == 1 by {
                if t < path0.len() {
                    assert(path@[t] == path0[t]);
                }
            }
            assert(!path0.contains(node)) by {
                if path0.contains(node) {
                    let t = choose|t: int| 0 <= t < path0.len() && path0[t] == node;
                    assert(entry[path0[t] as int] == 1);
                }
            }
        }
        assert(idx_walk(adjv, path@)) by {
            assert forall|t: int| 0 <= t < path@.len() - 1 implies #[trigger] adjv[path@[t] as int].contains(path@[t + 1]) by {
                if t < path0.len() - 1 {
                    assert(path@[t] == path0[t] && path@[t + 1] == path0[t + 1]);
                    assert(adjv[path0[t] as int].contains(path0[t + 1]));
                } else {
                    assert(path@[t] == path0.last());
                    assert(path@[t + 1] == node);
                }
            }
        }
    }
    let ghost mut rk = rank;
    let ghost mut ck = clock;
    let ghost found0 = found@.len();
    let ghost goal = dfs_edges(adjv, node as int, 0, (color@, path@, adj_view(found@)));
    assert(goal == dfs_visit(adjv, node as int, (entry, path0, fv0)));
    let n_next = adj[node].len();
    let mut t: usize = 0;
    while t < n_next
        invariant
            entry == old(color)@,
            entry.len() == adj@.len(),
            n_all == adj@.len(),
            adjv == adj_view(adj@),
            adj_bounded(adjv),
            n_next == adjv[node as int].len(),
            node < adj@.len(),
            t <= n_next,
            color@.len() == adj@.len(),
            color@[node as int] == 1,
            path@ == path0.push(node),
            forall|i: int| 0 <= i < color@.len() ==> #[trigger] color@[i] <= 2,
            forall|i: int| 0 <= i < entry.len() && entry[i] != 0 ==> #[trigger] color@[i] != 0,
            forall|i: int| 0 <= i < entry.len() && entry[i] == 2 ==> #[trigger] color@[i] == 2,
            whites(color@) < whites(entry),
            grey_path(color@, path@),
            idx_walk(adjv, path@),
            forall|i: int| 0 <= i < found@.len() ==> idx_cycle(adjv, #[trigger] found@[i]@),
            distinct_sets(adj_view(found@)),
            found@.len() >= found0,
            rk.len() == adj@.len(),
            found@.len() == 0 ==> black_closed(adjv, color@, rk),
            found@.len() == 0 ==> ranks_below(color@, rk, ck),
            found@.len() == 0 ==> forall|i: int|
                0 <= i < entry.len() && entry[i] == 2 ==> #[trigger] rk[i] == rank[i],
            found@.len() == 0 ==> ck >= clock,
            found@.len() == 0 ==> forall|s: int|
                0 <= s < t ==> color@[#[trigger] adjv[node as int][s] as int] == 2 && rk[adjv[node as int][s] as int] < ck,
            dfs_edges(adjv, node as int, t as int, (color@, path@, adj_view(found@))) == goal,
        decreases n_next - t,
    {
        let ghost cur = (color@, path@, adj_view(found@));
        let next = adj[node][t];
        assert(adjv[node as int][t as int] == next);
        assert(next < adj@.len());
        if color[next] == 1 {
            assert(path@.contains((next as int) as usize));
            let mut start: usize = 0;
            while start < path.len() && path[start] != next
                invariant
                    start <= path@.len(),
                    path@.contains(next),
                    forall|s: int| 0 <= s < start ==> path@[s] != next,
                decreases path.len() - start,
            {
                start += 1;
            }
            let ghost p = path@;
            proof {
                lemma_first_position(p, next, start as int);
            }
            let mut cycle: Vec<usize> = Vec::new();
            let mut j = start;
            while j < path.len()
                invariant
                    start <= j <= p.len(),
                    path@ == p,
                    cycle@ == p.subrange(start as int, j as int),
                decreases path.len() - j,
            {
                cycle.push(path[j]);
                j += 1;
            }
            proof {
                let c = cycle@;
                assert(start < p.len());
                assert(p[start as int] == next);
                assert(c.len() >= 1);
                assert(c.no_duplicates());
                assert forall|s: int| 0 <= s < c.len() implies #[trigger] c[s] < adjv.len() by {
                    assert(c[s] == p[start + s]);
                }
                assert(idx_walk(adjv, c)) by {
                    assert forall|s: int| 0 <= s < c.len() - 1 implies #[trigger] adjv[c[s] as int].contains(c[s + 1]) by {
                        assert(c[s] == p[start + s] && c[s + 1] == p[start + s + 1]);
                        assert(adjv[p[start + s] as int].contains(p[(start + s) + 1]));
                    }
                }
                assert(c.last() == node);
                assert(c[0] == next);
                assert(adjv[node as int].contains(next)) by {
                    assert(adjv[node as int][t as int] == next);
                }
            }
            let listed = already_found(found, &cycle);
            proof {
                let fv = adj_view(found@);
                assert(cycle@ == p.subrange(first_position(p, next), p.len() as int));
                if listed {
                    let i = choose|i: int| 0 <= i < found@.len() && (#[trigger] found@[i])@.to_set() == cycle@.to_set();
                    assert(fv[i] == found@[i]@);
                    assert(set_listed(fv, cycle@));
                } else {
                    assert forall|i: int| 0 <= i < fv.len() implies (#[trigger] fv[i]).to_set() != cycle@.to_set() by {
                        assert(fv[i] == found@[i]@);
                    }
                    assert(!set_listed(fv, cycle@));
                }
            }
            if !listed {
                let ghost before = found@;
                let ghost cv = cycle@;
                found.push(cycle);
                assert(adj_view(found@) =~= adj_view(before).push(cv));
                proof {
                    assert forall|i: int| 0 <= i < found@.len() implies idx_cycle(adjv, #[trigger] found@[i]@) by {
                        if i < before.len() {
                            assert(found@[i] == before[i]);
                        }
                    }
                    let fv = adj_view(found@);
                    assert forall|a: int, b: int| 0 <= a < b < fv.len() implies (#[trigger] fv[a]).to_set() != (#[trigger] fv[b]).to_set() by {
                        if b < before.len() {
                            assert(fv[a] == adj_view(before)[a] && fv[b] == adj_view(before)[b]);
                        } else {
                            assert(fv[a] == before[a]@);
                        }
                    }
                }
            }
            proof {
                assert(p == cur.1);
                assert(close_cycle(cur, next) == (color@, path@, adj_view(found@)));
            }
        } else if color[next] == 0 {
            let ghost before_call = color@;
            let ghost found_before = found@.len();
            let r = visit(next, adj, color, path, found, Ghost(rk), Ghost(ck));
            proof {
                assert(path@[path0.len() as int] == node);
                assert forall|i: int| 0 <= i < entry.len() && entry[i] != 0 implies #[trigger] color@[i] != 0 by {
                    assert(before_call[i] != 0);
                }
                assert forall|i: int| 0 <= i < entry.len() && entry[i] == 2 implies #[trigger] color@[i] == 2 by {
                    assert(before_call[i] == 2);
                }
                let old_rk = rk;
                let old_ck = ck;
                if found@.len() == 0 {
                    assert(found_before == 0);
                    rk = r@.0;
                    ck = r@.1;
                    assert forall|s: int| 0 <= s <= t implies color@[#[trigger] adjv[node as int][s] as int] == 2 && rk[adjv[node as int][s] as int] < ck by {
                        let v = adjv[node as int][s];
                        if s < t {
                            assert(before_call[v as int] == 2);
                            assert(old_rk[v as int] < old_ck);
                        } else {
                            assert(v == next);
                        }
                    }
                    assert forall|i: int| 0 <= i < entry.len() && entry[i] == 2 implies #[trigger] rk[i] == rank[i] by {
                        assert(before_call[i] == 2);
                        assert(r@.0[i] == old_rk[i]);
                        assert(old_rk[i] == rank[i]);
                    }
                }
                lemma_whites_shrink(before_call, color@);
                assert(dfs_visit(adjv, next as int, cur) == (color@, path@, adj_view(found@)));
            }
        } else {
            proof {
                assert(dfs_visit(adjv, next as int, cur) == cur);
                if found@.len() == 0 {
                    assert forall|s: int| 0 <= s <= t implies color@[#[trigger] adjv[node as int][s] as int] == 2 && rk[adjv[node as int][s] as int] < ck by {
                        let v = adjv[node as int][s];
                        if s == t {
                            assert(v == next);
                        }
                    }
                }
            }
        }
        proof {
            let nw = (color@, path@, adj_view(found@));
            assert(nw.0.len() == cur.0.len());
            assert forall|i: int| 0 <= i < cur.0.len() && cur.0[i] != 0 implies #[trigger] nw.0[i] != 0 by {}
            lemma_whites_shrink(cur.0, nw.0);
            assert(dfs_edges(adjv, node as int, t as int, cur) == dfs_edges(adjv, node as int, t + 1, nw));
        }
        t += 1;
    }
    let ghost before_finish = color@;
    color.set(node, 2);
    path.pop();
    proof {
        assert(path@ =~= path0);
        if found@.len() == 0 {
            rk = rk.update(node as int, ck);
            ck = ck + 1;
        }
        lemma_whites_shrink(entry, color@);
        assert(grey_path(color@, path@)) by {
            assert forall|i: int| 0 <= i < color@.len() && color@[i] == 1 implies #[trigger] path@.contains(i as usize) by {
                assert(i != node as int);
                assert(before_finish[i] == 1);
                let pn = path0.push(node);
                assert(pn.contains(i as usize));
                let s = choose|s: int| 0 <= s < pn.len() && pn[s] == i as usize;
                assert(pn[path0.len() as int] == node);
                assert((i as usize) as int == i);
                assert(s != path0.len());
                assert(pn[s] == path0[s]);
                assert(path@[s] == i as usize);
            }
            assert forall|s: int| 0 <= s < path@.len() implies color@[#[trigger] path@[s] as int] == 1 by {
                assert(path0.push(node)[s] == path0[s]);
                assert(path0.push(node).no_duplicates());
                assert(path0[s] != node);
            }
        }
        if found@.len() == 0 {
            assert(black_closed(adjv, color@, rk)) by {
                assert forall|u: int, s: int| 0 <= u < color@.len() && color@[u] == 2 && 0 <= s < adjv[u].len() implies color@[#[trigger] adjv[u][s] as int] == 2 && rk[adjv[u][s] as int] < rk[u] by {
                    let v = adjv[u][s];
                    if u == node {
                        assert(before_finish[v as int] == 2);
                    } else {
                        assert(before_finish[u] == 2);
                        assert(before_finish[v as int] == 2);
                    }
                }
            }
        }
    }
    Ghost((rk, ck))
}


/// Where `x` stands among the nodes.
pub open spec fn node_index(nodes: Seq<Seq<char>>, x: Seq<char>) -> int {
    choose|i: int| 0 <= i < nodes.len() && nodes[i] == x
}

/// In a run without repeats, a member's position is where it stands.
proof fn lemma_node_index(nv: Seq<Seq<char>>, i: int)
    requires
        nv.no_duplicates(),
        0 <= i < nv.len(),
    ensures
        node_index(nv, nv[i]) == i,
{
    let j = node_index(nv, nv[i]);
    assert(0 <= j < nv.len() && nv[j] == nv[i]);
}

/// Every end of every edge, sorted, each once.
fn graph_nodes(ev: &Vec<(Vec<char>, Vec<char>)>, Ghost(es): Ghost<Seq<(Seq<char>, Seq<char>)>>) -> (r: Vec<Vec<char>>)
    requires
        ev@.len() == es.len(),
        forall|k: int| 0 <= k < ev@.len() ==> ((#[trigger] ev@[k]).0@, ev@[k].1@) == es[k],
    ensures
        sorted_strictly(char_seqs(r@)),
        forall|x: Seq<char>| #[trigger] char_seqs(r@).contains(x) <==> is_endpoint(es, x),
{
    let mut nodes: Vec<Vec<char>> = Vec::new();
    let mut k: usize = 0;
    while k < ev.len()
        invariant
            k <= ev@.len(),
            ev@.len() == es.len(),
            forall|j: int| 0 <= j < ev@.len() ==> ((#[trigger] ev@[j]).0@, ev@[j].1@) == es[j],
            sorted_strictly(char_seqs(nodes@)),
            forall|x: Seq<char>| #[trigger]
                char_seqs(nodes@).contains(x) <==> exists|j: int|
                    0 <= j < k && (#[trigger] es[j].0 == x || es[j].1 == x),
        decreases ev.len() - k,
    {
        let ghost e = es[k as int];
        assert(ev@[k as int].0@ == e.0 && ev@[k as int].1@ == e.1);
        let ghost n0 = char_seqs(nodes@);
        if !holds(&nodes, &ev[k].0) {
            insert_sorted(&mut nodes, ev[k].0.clone());
        }
        let ghost n1 = char_seqs(nodes@);
        assert(forall|x: Seq<char>| n1.contains(x) <==> (n0.contains(x) || x == e.0));
        if !holds(&nodes, &ev[k].1) {
            insert_sorted(&mut nodes, ev[k].1.clone());
        }
        assert(forall|x: Seq<char>| char_seqs(nodes@).contains(x) <==> (n1.contains(x) || x == e.1));
        proof {
            let nf = char_seqs(nodes@);
            assert forall|x: Seq<char>| nf.contains(x) implies exists|j: int|
                0 <= j < k + 1 && (#[trigger] es[j].0 == x || es[j].1 == x) by {
                if n0.contains(x) {
                    let j = choose|j: int| 0 <= j < k && (#[trigger] es[j].0 == x || es[j].1 == x);
                    assert(es[j].0 == x || es[j].1 == x);
                } else {
                    assert(x == e.0 || x == e.1);
                    assert(es[k as int].0 == x || es[k as int].1 == x);
                }
            }
            assert forall|x: Seq<char>, j: int|
                #![trigger nf.contains(x), es[j]]
                0 <= j < k + 1 && (es[j].0 == x || es[j].1 == x) implies nf.contains(x) by {
                if j < k {
                    assert(n0.contains(x));
                } else {
                    assert(x == e.0 || x == e.1);
                }
            }
        }
        k += 1;
    }
    proof {
        assert forall|x: Seq<char>| #[trigger] char_seqs(nodes@).contains(x) <==> is_endpoint(es, x) by {
            if is_endpoint(es, x) {
                let j = choose|j: int| 0 <= j < es.len() && (#[trigger] es[j].0 == x || es[j].1 == x);
                assert(0 <= j < k && (es[j].0 == x || es[j].1 == x));
            }
        }
    }
    nodes
}

/// The position of `x` among `nodes`.
fn index_in(nodes: &Vec<Vec<char>>, x: &[char]) -> (r: usize)
    requires
        char_seqs(nodes@).contains(x@),
    ensures
        r < nodes@.len(),
        nodes@[r as int]@ == x@,
{
    let mut i: usize = 0;
    while i < nodes.len()
        invariant
            i <= nodes@.len(),
            char_seqs(nodes@).contains(x@),
            forall|j: int| 0 <= j < i ==> nodes@[j]@ != x@,
        decreases nodes.len() - i,
    {
        if chars_equal(&nodes[i], x) {
            return i;
        }
        i += 1;
    }
    proof {
        let j = choose|j: int| 0 <= j < char_seqs(nodes@).len() && char_seqs(nodes@)[j] == x@;
        assert(nodes@[j]@ == x@);
    }
    0
}

/// For each node, the positions of its edges' targets, in edge order.
fn adjacency(
    ev: &Vec<(Vec<char>, Vec<char>)>,
    nodes: &Vec<Vec<char>>,
    Ghost(es): Ghost<Seq<(Seq<char>, Seq<char>)>>,
) -> (r: Vec<Vec<usize>>)
    requires
        ev@.len() == es.len(),
        forall|k: int| 0 <= k < ev@.len() ==> ((#[trigger] ev@[k]).0@, ev@[k].1@) == es[k],
        sorted_strictly(char_seqs(nodes@)),
        forall|x: Seq<char>| #[trigger] char_seqs(nodes@).contains(x) <==> is_endpoint(es, x),
    ensures
        r@.len() == nodes@.len(),
        adj_bounded(adj_view(r@)),
        forall|u: int, v: int|
            0 <= u < nodes@.len() && 0 <= v < nodes@.len() ==> (#[trigger] adj_view(r@)[u].contains(
                v as usize,
            ) <==> has_edge(es, nodes@[u]@, nodes@[v]@)),
        adj_view(r@) == successor_lists(es, char_seqs(nodes@)),
{
    let ghost nv = char_seqs(nodes@);
    let n_nodes = nodes.len();
    proof {
        lemma_sorted_unique(nv);
    }
    let mut adj: Vec<Vec<usize>> = Vec::new();
    let mut u: usize = 0;
    while u < nodes.len()
        invariant
            u <= nodes@.len(),
            n_nodes == nodes@.len(),
            nv == char_seqs(nodes@),
            nv.no_duplicates(),
            ev@.len() == es.len(),
            forall|k: int| 0 <= k < ev@.len() ==> ((#[trigger] ev@[k]).0@, ev@[k].1@) == es[k],
            forall|x: Seq<char>| #[trigger] nv.contains(x) <==> is_endpoint(es, x),
            adj@.len() == u,
            forall|a: int, t: int|
                0 <= a < u && 0 <= t < adj@[a]@.len() ==> #[trigger] adj@[a]@[t] < nodes@.len(),
            forall|a: int, v: int|
                0 <= a < u && 0 <= v < nodes@.len() ==> (#[trigger] adj@[a]@.contains(v as usize)
                    <==> has_edge(es, nv[a], nv[v])),
            forall|a: int| 0 <= a < u ==> #[trigger] adj@[a]@ == targets_of(es, nv, nv[a]),
        decreases nodes.len() - u,
    {
        let mut out: Vec<usize> = Vec::new();
        let mut k: usize = 0;
        while k < ev.len()
            invariant
                k <= ev@.len(),
                u < nodes@.len(),
                n_nodes == nodes@.len(),
                nv == char_seqs(nodes@),
                nv.no_duplicates(),
                ev@.len() == es.len(),
                forall|j: int| 0 <= j < ev@.len() ==> ((#[trigger] ev@[j]).0@, ev@[j].1@) == es[j],
                forall|x: Seq<char>| #[trigger] nv.contains(x) <==> is_endpoint(es, x),
                forall|t: int| 0 <= t < out@.len() ==> #[trigger] out@[t] < nodes@.len(),
                forall|v: int|
                    0 <= v < nodes@.len() ==> (#[trigger] out@.contains(v as usize) <==> exists|j: int|
                        0 <= j < k && #[trigger] es[j] == (nv[u as int], nv[v])),
                out@ == targets_of(es.take(k as int), nv, nv[u as int]),
            decreases ev.len() - k,
        {
            let ghost e = es[k as int];
            assert(ev@[k as int].0@ == e.0 && ev@[k as int].1@ == e.1);
            let ghost before = out@;
            assert(es.take(k + 1).drop_last() =~= es.take(k as int));
            assert(es.take(k + 1).last() == e);
            if chars_equal(&ev[k].0, &nodes[u]) {
                assert(is_endpoint(es, e.1)) by {
                    assert(es[k as int].1 == e.1);
                }
                assert(nv.contains(e.1));
                let v = index_in(nodes, &ev[k].1);
                out.push(v);
                proof {
                    lemma_node_index(nv, v as int);
                    assert(nv[v as int] == e.1);
                    assert(out@ =~= targets_of(es.take(k + 1), nv, nv[u as int]));
                    assert forall|w: int| 0 <= w < nodes@.len() implies (#[trigger] out@.contains(w as usize) <==> exists|j: int|
                        0 <= j < k + 1 && #[trigger] es[j] == (nv[u as int], nv[w])) by {
                        if out@.contains(w as usize) {
                            let t = choose|t: int| 0 <= t < out@.len() && out@[t] == w as usize;
                            if t < before.len() {
                                assert(before.contains(w as usize));
                                let j = choose|j: int| 0 <= j < k && #[trigger] es[j] == (nv[u as int], nv[w]);
                                assert(0 <= j < k + 1 && es[j] == (nv[u as int], nv[w]));
                            } else {
                                assert(w == v as int);
                                assert(nv[w] == e.1);
                                assert(nv[u as int] == e.0);
                                assert(es[k as int] == (nv[u as int], nv[w]));
                            }
                        }
                        if exists|j: int| 0 <= j < k + 1 && #[trigger] es[j] == (nv[u as int], nv[w]) {
                            let j = choose|j: int| 0 <= j < k + 1 && #[trigger] es[j] == (nv[u as int], nv[w]);
                            if j < k {
                                assert(before.contains(w as usize));
                                let t = choose|t: int| 0 <= t < before.len() && before[t] == w as usize;
                                assert(out@[t] == w as usize);
                            } else {
                                assert(nv[w] == e.1);
                                assert(nv[v as int] == e.1);
                                assert(w == v as int);
                                assert(out@[before.len() as int] == v);
                            }
                        }
                    }
                }
            } else {
                proof {
                    assert(nv[u as int] != e.0);
                    assert(out@ =~= targets_of(es.take(k + 1), nv, nv[u as int]));
                    assert forall|w: int| 0 <= w < nodes@.len() implies (#[trigger] out@.contains(w as usize) <==> exists|j: int|
                        0 <= j < k + 1 && #[trigger] es[j] == (nv[u as int], nv[w])) by {
                        if exists|j: int| 0 <= j < k + 1 && #[trigger] es[j] == (nv[u as int], nv[w]) {
                            let j = choose|j: int| 0 <= j < k + 1 && #[trigger] es[j] == (nv[u as int], nv[w]);
                            assert(j != k);
                        }
                    }
                }
            }
            k += 1;
        }
        let ghost prev = adj@;
        assert(es.take(k as int) =~= es);
        adj.push(out);
        proof {
            assert forall|a: int| 0 <= a < u + 1 implies #[trigger] adj@[a]@ == targets_of(es, nv, nv[a]) by {
                if a < u {
                    assert(adj@[a] == prev[a]);
                }
            }
            assert forall|a: int, v: int|
                0 <= a < u + 1 && 0 <= v < nodes@.len() implies (#[trigger] adj@[a]@.contains(v as usize)
                    <==> has_edge(es, nv[a], nv[v])) by {
                if a < u {
                    assert(adj@[a] == prev[a]);
                } else {
                    if has_edge(es, nv[a], nv[v]) {
                        let j = choose|j: int| 0 <= j < es.len() && #[trigger] es[j] == (nv[a], nv[v]);
                        assert(0 <= j < k && es[j] == (nv[u as int], nv[v]));
                    }
                }
            }
            assert forall|a: int, t: int|
                0 <= a < u + 1 && 0 <= t < adj@[a]@.len() implies #[trigger] adj@[a]@[t] < nodes@.len() by {
                if a < u {
                    assert(adj@[a] == prev[a]);
                }
            }
        }
        u += 1;
    }
    proof {
        let av = adj_view(adj@);
        assert forall|a: int, t: int| 0 <= a < av.len() && 0 <= t < av[a].len() implies #[trigger] av[a][t] < av.len() by {
            assert(av[a] == adj@[a]@);
        }
        assert forall|a: int, v: int|
            0 <= a < nodes@.len() && 0 <= v < nodes@.len() implies (#[trigger] av[a].contains(v as usize)
                <==> has_edge(es, nodes@[a]@, nodes@[v]@)) by {
            assert(av[a] == adj@[a]@);
            assert(nv[a] == nodes@[a]@ && nv[v] == nodes@[v]@);
        }
        assert(av =~= successor_lists(es, nv)) by {
            assert forall|a: int| 0 <= a < av.len() implies av[a] == successor_lists(es, nv)[a] by {
                assert(av[a] == adj@[a]@);
            }
        }
    }
    adj
}


/// What the graph's construction guarantees: `nv` is every edge end once, and
/// `adjv` lists exactly the edges between them.
pub open spec fn graph_of(es: Seq<(Seq<char>, Seq<char>)>, nv: Seq<Seq<char>>, adjv: Seq<Seq<usize>>) -> bool {
    &&& nv.no_duplicates()
    &&& nv.len() <= usize::MAX
    &&& forall|x: Seq<char>| #[trigger] nv.contains(x) <==> is_endpoint(es, x)
    &&& adjv.len() == nv.len()
    &&& adj_bounded(adjv)
    &&& forall|u: int, v: int|
        0 <= u < nv.len() && 0 <= v < nv.len() ==> (#[trigger] adjv[u].contains(v as usize)
            <==> has_edge(es, nv[u], nv[v]))
}

/// A cycle's members by name.
pub open spec fn names_of(nv: Seq<Seq<char>>, c: Seq<usize>) -> Seq<Seq<char>> {
    c.map_values(|x: usize| nv[x as int])
}

/// Once every node is finished and no cycle was met, every edge runs from a
/// later finish to an earlier one, so every walk descends.
proof fn lemma_rank_descends(
    es: Seq<(Seq<char>, Seq<char>)>,
    nv: Seq<Seq<char>>,
    adjv: Seq<Seq<usize>>,
    color: Seq<u8>,
    rank: Seq<int>,
    p: Seq<Seq<char>>,
    t: int,
)
    requires
        graph_of(es, nv, adjv),
        color.len() == nv.len(),
        forall|i: int| 0 <= i < color.len() ==> #[trigger] color[i] == 2,
        black_closed(adjv, color, rank),
        is_walk(es, p),
        1 <= t < p.len(),
    ensures
        nv.contains(p[0]),
        nv.contains(p[t]),
        rank[node_index(nv, p[t])] < rank[node_index(nv, p[0])],
    decreases t,
{
    let m = t - 1;
    assert(has_edge(es, p[m], p[m + 1]));
    let k = choose|k: int| 0 <= k < es.len() && #[trigger] es[k] == (p[m], p[m + 1]);
    assert(is_endpoint(es, p[m])) by {
        assert(es[k].0 == p[m]);
    }
    assert(is_endpoint(es, p[t])) by {
        assert(es[k].1 == p[t]);
    }
    assert(nv.contains(p[m]));
    assert(nv.contains(p[t]));
    let a = node_index(nv, p[m]);
    let b = node_index(nv, p[t]);
    assert(nv[a] == p[m] && nv[b] == p[t]);
    assert(adjv[a].contains((b as int) as usize));
    let s = choose|s: int| 0 <= s < adjv[a].len() && adjv[a][s] == b as usize;
    assert(color[a] == 2);
    assert(color[adjv[a][s] as int] == 2 && rank[adjv[a][s] as int] < rank[a]);
    assert((b as usize) as int == b);
    assert(rank[b] < rank[a]);
    if m >= 1 {
        lemma_rank_descends(es, nv, adjv, color, rank, p, m);
    }
}

/// A cycle found by index is a cycle by name.
proof fn lemma_cycle_names(es: Seq<(Seq<char>, Seq<char>)>, nv: Seq<Seq<char>>, adjv: Seq<Seq<usize>>, c: Seq<usize>)
    requires
        graph_of(es, nv, adjv),
        idx_cycle(adjv, c),
    ensures
        is_cycle(es, names_of(nv, c)),
{
    let w = names_of(nv, c);
    assert(w.no_duplicates()) by {
        assert forall|a: int, b: int| 0 <= a < w.len() && 0 <= b < w.len() && a != b implies w[a] != w[b] by {
            assert(c[a] != c[b]);
            assert(c[a] < nv.len() && c[b] < nv.len());
        }
    }
    assert(is_walk(es, w)) by {
        assert forall|t: int| 0 <= t < w.len() - 1 implies #[trigger] has_edge(es, w[t], w[t + 1]) by {
            assert(adjv[c[t] as int].contains(c[t + 1]));
            assert(c[t] < nv.len() && c[t + 1] < nv.len());
            assert(adjv[c[t] as int].contains((c[t + 1] as int) as usize));
        }
    }
    assert(has_edge(es, w.last(), w[0])) by {
        let l = c.len() - 1;
        assert(c[l] < nv.len() && c[0] < nv.len());
        assert(adjv[c[l] as int].contains((c[0] as int) as usize));
    }
}

/// Different member sets by index are different member sets by name.
proof fn lemma_names_distinct(nv: Seq<Seq<char>>, c1: Seq<usize>, c2: Seq<usize>)
    requires
        nv.no_duplicates(),
        forall|t: int| 0 <= t < c1.len() ==> #[trigger] c1[t] < nv.len(),
        forall|t: int| 0 <= t < c2.len() ==> #[trigger] c2[t] < nv.len(),
        c1.to_set() != c2.to_set(),
    ensures
        names_of(nv, c1).to_set() != names_of(nv, c2).to_set(),
{
    let w1 = names_of(nv, c1);
    let w2 = names_of(nv, c2);
    if w1.to_set() == w2.to_set() {
        assert forall|x: usize| c1.to_set().contains(x) implies c2.to_set().contains(x) by {
            let a = choose|a: int| 0 <= a < c1.len() && c1[a] == x;
            assert(w1.to_set().contains(w1[a]));
            assert(w2.to_set().contains(w1[a]));
            let b = choose|b: int| 0 <= b < w2.len() && w2[b] == w1[a];
            assert(nv[c2[b] as int] == nv[c1[a] as int]);
            assert(c2[b] == c1[a]);
        }
        assert forall|x: usize| c2.to_set().contains(x) implies c1.to_set().contains(x) by {
            let a = choose|a: int| 0 <= a < c2.len() && c2[a] == x;
            assert(w2.to_set().contains(w2[a]));
            assert(w1.to_set().contains(w2[a]));
            let b = choose|b: int| 0 <= b < w1.len() && w1[b] == w2[a];
            assert(nv[c1[b] as int] == nv[c2[a] as int]);
            assert(c1[b] == c2[a]);
        }
        assert(c1.to_set() =~= c2.to_set());
    }
}

/// The derivation cycles in `edges`, each a list of Concept IDs in cycle order
/// — `a -> b -> a` is returned as `["a", "b"]`, and a self-edge `a -> a` as
/// `["a"]`. A depth-first walk over the Concept IDs in sorted order, following
/// each concept's edges in the order given, reports the path slice that each
/// edge back onto the path closes, once per member set. It reports at least
/// one cycle exactly when the graph has one.
pub fn cycles(edges: &[Derivation]) -> (r: Vec<Vec<String>>)
    ensures
        forall|i: int| 0 <= i < r@.len() ==> is_cycle(edge_pairs(edges@), #[trigger] cycles_view(r@)[i]),
        forall|i: int, j: int|
            0 <= i < j < r@.len() ==> (#[trigger] cycles_view(r@)[i]).to_set() != (
            #[trigger] cycles_view(r@)[j]).to_set(),
        r@.len() == 0 <==> !has_cycle(edge_pairs(edges@)),
        cycles_view(r@) == dfs_cycles(edge_pairs(edges@)),
{
    let ghost es = edge_pairs(edges@);
    let ev = edge_chars(edges);
    let nodes = graph_nodes(&ev, Ghost(es));
    let adj = adjacency(&ev, &nodes, Ghost(es));
    let ghost nv = char_seqs(nodes@);
    let ghost adjv = adj_view(adj@);
    let n = nodes.len();
    proof {
        lemma_sorted_unique(nv);
        assert(graph_of(es, nv, adjv)) by {
            assert forall|u: int, v: int|
                0 <= u < nv.len() && 0 <= v < nv.len() implies (#[trigger] adjv[u].contains(v as usize)
                    <==> has_edge(es, nv[u], nv[v])) by {
                assert(nv[u] == nodes@[u]@ && nv[v] == nodes@[v]@);
            }
        }
    }
    let mut color: Vec<u8> = Vec::new();
    let mut i: usize = 0;
    while i < n
        invariant
            i <= n,
            color@.len() == i,
            forall|j: int| 0 <= j < i ==> #[trigger] color@[j] == 0,
        decreases n - i,
    {
        color.push(0);
        i += 1;
    }
    let mut path: Vec<usize> = Vec::new();
    let mut found: Vec<Vec<usize>> = Vec::new();
    let ghost start = (Seq::new(nv.len(), |j: int| 0u8), Seq::<usize>::empty(), Seq::<Seq<usize>>::empty());
    proof {
        assert(color@ =~= start.0);
        assert(adj_view(found@) =~= start.2);
        assert(path@ =~= start.1);
    }
    let ghost goal = dfs_from(adjv, 0, start);
    let ghost mut rank: Seq<int> = Seq::new(n as nat, |j: int| 0int);
    let ghost mut clock: int = 0;
    let mut i: usize = 0;
    while i < n
        invariant
            i <= n,
            n == adj@.len(),
            graph_of(es, nv, adjv),
            adjv == adj_view(adj@),
            color@.len() == n,
            path@.len() == 0,
            forall|j: int| 0 <= j < color@.len() ==> #[trigger] color@[j] <= 2,
            forall|j: int| 0 <= j < i ==> #[trigger] color@[j] == 2,
            grey_path(color@, path@),
            forall|j: int| 0 <= j < found@.len() ==> idx_cycle(adjv, #[trigger] found@[j]@),
            distinct_sets(adj_view(found@)),
            rank.len() == n,
            found@.len() == 0 ==> black_closed(adjv, color@, rank),
            found@.len() == 0 ==> ranks_below(color@, rank, clock),
            dfs_from(adjv, i as int, (color@, path@, adj_view(found@))) == goal,
        decreases n - i,
    {
        let ghost cur = (color@, path@, adj_view(found@));
        if color[i] == 0 {
            let g = visit(i, &adj, &mut color, &mut path, &mut found, Ghost(rank), Ghost(clock));
            proof {
                if found@.len() == 0 {
                    rank = g@.0;
                    clock = g@.1;
                }
            }
        } else {
            proof {
                if color@[i as int] == 1 {
                    assert(path@.contains((i as int) as usize));
                }
            }
        }
        assert(dfs_from(adjv, i as int, cur) == dfs_from(adjv, i + 1, (color@, path@, adj_view(found@))));
        i += 1;
    }
    assert(adj_view(found@) == goal.2);
    let mut out: Vec<Vec<String>> = Vec::new();
    let mut f: usize = 0;
    while f < found.len()
        invariant
            f <= found@.len(),
            nv == char_seqs(nodes@),
            graph_of(es, nv, adjv),
            forall|j: int| 0 <= j < found@.len() ==> idx_cycle(adjv, #[trigger] found@[j]@),
            out@.len() == f,
            forall|j: int| 0 <= j < f ==> #[trigger] cycles_view(out@)[j] == names_of(nv, found@[j]@),
        decreases found.len() - f,
    {
        let c = &found[f];
        let mut names: Vec<String> = Vec::new();
        let mut t: usize = 0;
        while t < c.len()
            invariant
                t <= c@.len(),
                c@ == found@[f as int]@,
                idx_cycle(adjv, c@),
                adjv.len() == nodes@.len(),
                nv == char_seqs(nodes@),
                strings_view(names@) == names_of(nv, c@).take(t as int),
            decreases c.len() - t,
        {
            let x = c[t];
            assert(x < nodes@.len());
            let ghost prev = strings_view(names@);
            let name = string_of(&nodes[x], 0, nodes[x].len());
            assert(nodes@[x as int]@.subrange(0, nodes@[x as int]@.len() as int) =~= nodes@[x as int]@);
            assert(name@ == names_of(nv, c@)[t as int]);
            names.push(name);
            assert(strings_view(names@) =~= prev.push(names_of(nv, c@)[t as int]));
            assert(names_of(nv, c@).take(t + 1) =~= names_of(nv, c@).take(t as int).push(
                names_of(nv, c@)[t as int],
            ));
            t += 1;
        }
        assert(names_of(nv, c@).take(t as int) =~= names_of(nv, c@));
        let ghost prev_out = out@;
        out.push(names);
        proof {
            assert forall|j: int| 0 <= j < f + 1 implies #[trigger] cycles_view(out@)[j] == names_of(nv, found@[j]@) by {
                if j < f {
                    assert(out@[j] == prev_out[j]);
                    assert(cycles_view(prev_out)[j] == names_of(nv, found@[j]@));
                }
            }
        }
        f += 1;
    }
    proof {
        let cv = cycles_view(out@);
        assert(nv == graph_order(es)) by {
            let g = graph_order(es);
            assert(sorted_strictly(nv) && forall|x: Seq<char>| #[trigger] nv.contains(x) <==> is_endpoint(es, x));
            assert(sorted_strictly(g) && forall|x: Seq<char>| #[trigger] g.contains(x) <==> is_endpoint(es, x));
            assert(nv.to_set() =~= g.to_set());
            crate::bundle::lemma_sorted_unique_order(nv, g);
        }
        assert(cv =~= dfs_cycles(es)) by {
            let fv = adj_view(found@);
            assert forall|j: int| 0 <= j < cv.len() implies cv[j] == dfs_cycles(es)[j] by {
                assert(fv[j] == found@[j]@);
            }
        }
        assert forall|j: int| 0 <= j < out@.len() implies is_cycle(es, #[trigger] cycles_view(out@)[j]) by {
            assert(cv[j] == names_of(nv, found@[j]@));
            lemma_cycle_names(es, nv, adjv, found@[j]@);
        }
        assert forall|a: int, b: int| 0 <= a < b < out@.len() implies (#[trigger] cycles_view(out@)[a]).to_set() != (
            #[trigger] cycles_view(out@)[b]).to_set() by {
            assert(cv[a] == names_of(nv, found@[a]@));
            assert(cv[b] == names_of(nv, found@[b]@));
            assert(adj_view(found@)[a] == found@[a]@ && adj_view(found@)[b] == found@[b]@);
            assert(idx_cycle(adjv, found@[a]@));
            assert(idx_cycle(adjv, found@[b]@));
            lemma_names_distinct(nv, found@[a]@, found@[b]@);
        }
        if out@.len() > 0 {
            let c = cv[0];
            assert(c == names_of(nv, found@[0]@));
            lemma_cycle_names(es, nv, adjv, found@[0]@);
            let p = c.push(c[0]);
            assert(is_walk(es, p)) by {
                assert forall|t: int| 0 <= t < p.len() - 1 implies #[trigger] has_edge(es, p[t], p[t + 1]) by {
                    if t < c.len() - 1 {
                        assert(p[t] == c[t] && p[t + 1] == c[t + 1]);
                        assert(has_edge(es, c[t], c[t + 1]));
                    } else {
                        assert(p[t] == c.last() && p[t + 1] == c[0]);
                    }
                }
            }
            assert(p.last() == c[0]);
            assert(derives_from(es, c[0], c[0]));
        } else {
            if has_cycle(es) {
                let x = choose|x: Seq<char>| #[trigger] derives_from(es, x, x);
                let p = choose|p: Seq<Seq<char>>|
                    #![trigger is_walk(es, p), p.last()]
                    p.len() >= 2 && p[0] == x && p.last() == x && is_walk(es, p);
                lemma_rank_descends(es, nv, adjv, color@, rank, p, p.len() - 1);
            }
        }
    }
    out
}

} // verus!
