//! Classifying and resolving the path-valued frontmatter fields:
//! `resource`, `sources[].resource`, `computation`, `executor.resource`, and
//! `attester.resource`. Each is a URL, a bundle-relative path, or a relative
//! path — and a `sources[].resource` may instead be a scope descriptor,
//! free text naming a population rather than a file.

use vstd::prelude::*;

use crate::text::{
    chars_of, find_char, find_in, is_alnum, is_alpha, is_ascii_alnum, join_strings, join_with,
    lemma_find_char, split_on, split_pieces, string_of, strings_view,
};

verus! {

/// How a path-valued field's value is interpreted.
#[derive(Debug, Clone, Copy, PartialEq, Eq, Structural)]
pub enum PathKind {
    /// An absolute URL or protocol-relative reference — external, not resolved
    /// against the bundle.
    Url,
    /// A `/`-rooted path, interpreted from the bundle root.
    BundlePath,
    /// A relative path, interpreted against the field's concept's directory.
    Relative,
    /// Free text naming a population or scope, not a path — only a
    /// `sources[].resource` can be one.
    ScopeDescriptor,
}

/// A character a URL scheme may hold after its first letter.
pub open spec fn is_scheme_char(c: char) -> bool {
    is_alnum(c) || c == '+' || c == '.' || c == '-'
}

/// A `scheme:` prefix: the text before the first `:` is non-empty, starts with
/// a letter, and holds only scheme characters (so a path like `a/b:c` is not
/// mistaken for one).
pub open spec fn has_scheme(s: Seq<char>) -> bool {
    let colon = find_char(s, ':');
    &&& colon < s.len()
    &&& colon > 0
    &&& is_alpha(s[0])
    &&& forall|i: int| 0 <= i < colon ==> is_scheme_char(#[trigger] s[i])
}

/// `s` opens with `//`.
pub open spec fn protocol_relative(s: Seq<char>) -> bool {
    s.len() >= 2 && s[0] == '/' && s[1] == '/'
}

/// A URL: protocol-relative (`//host`) or carrying a scheme (`https:`).
pub open spec fn is_url(s: Seq<char>) -> bool {
    protocol_relative(s) || has_scheme(s)
}

/// `s` contains a space.
pub open spec fn has_space(s: Seq<char>) -> bool {
    exists|i: int| 0 <= i < s.len() && s[i] == ' '
}

/// How a path-valued field's value reads: a URL, a `/`-rooted bundle path, a
/// scope descriptor (only where `allow_scope`, and only text holding a space),
/// or else a relative path.
pub open spec fn path_kind(s: Seq<char>, allow_scope: bool) -> PathKind {
    if is_url(s) {
        PathKind::Url
    } else if s.len() > 0 && s[0] == '/' {
        PathKind::BundlePath
    } else if allow_scope && has_space(s) {
        PathKind::ScopeDescriptor
    } else {
        PathKind::Relative
    }
}

/// Whether `cs[lo..hi]` opens with a URL scheme.
pub fn range_has_scheme(cs: &[char], lo: usize, hi: usize) -> (r: bool)
    requires
        lo <= hi <= cs@.len(),
    ensures
        r == has_scheme(cs@.subrange(lo as int, hi as int)),
{
    let ghost s = cs@.subrange(lo as int, hi as int);
    let colon = find_in(cs, lo, hi, ':');
    proof {
        lemma_find_char(s, ':');
    }
    if colon == hi || colon == lo {
        return false;
    }
    let first = cs[lo];
    assert(first == s[0]);
    if !(('a' <= first && first <= 'z') || ('A' <= first && first <= 'Z')) {
        return false;
    }
    let mut i = lo;
    while i < colon
        invariant
            lo <= i <= colon <= hi <= cs@.len(),
            s == cs@.subrange(lo as int, hi as int),
            colon - lo == find_char(s, ':'),
            forall|j: int| 0 <= j < i - lo ==> is_scheme_char(#[trigger] s[j]),
        decreases colon - i,
    {
        let c = cs[i];
        assert(c == s[i - lo]);
        if !(is_ascii_alnum(c) || c == '+' || c == '.' || c == '-') {
            assert(!has_scheme(s)) by {
                assert(!is_scheme_char(s[i - lo]));
                assert(0 <= i - lo < find_char(s, ':'));
            }
            return false;
        }
        i += 1;
    }
    true
}

/// Whether `cs[lo..hi]` is a URL.
pub fn range_is_url(cs: &[char], lo: usize, hi: usize) -> (r: bool)
    requires
        lo <= hi <= cs@.len(),
    ensures
        r == is_url(cs@.subrange(lo as int, hi as int)),
{
    if hi - lo >= 2 && cs[lo] == '/' && cs[lo + 1] == '/' {
        return true;
    }
    range_has_scheme(cs, lo, hi)
}

/// Classify a path-valued field's value. `allow_scope` is true only for
/// `sources[].resource`, the one field allowed to carry a scope descriptor.
///
/// A scope descriptor is detected heuristically — non-URL, non-`/`-rooted, and
/// containing a space — because the format gives no marker distinguishing it from
/// a path. The heuristic errs toward `Relative`.
pub fn classify_path(value: &str, allow_scope: bool) -> (r: PathKind)
    ensures
        r == path_kind(value@, allow_scope),
{
    let cs = chars_of(value);
    let n = cs.len();
    assert(cs@.subrange(0, n as int) =~= cs@);
    if range_is_url(&cs, 0, n) {
        PathKind::Url
    } else if n > 0 && cs[0] == '/' {
        PathKind::BundlePath
    } else if allow_scope && find_in(&cs, 0, n, ' ') < n {
        proof {
            lemma_find_char(cs@, ' ');
        }
        PathKind::ScopeDescriptor
    } else {
        proof {
            lemma_find_char(cs@, ' ');
        }
        PathKind::Relative
    }
}

/// The directory a concept sits in: its Concept ID's `/`-separated pieces
/// without the last.
pub open spec fn directory_of(from: Seq<char>) -> Seq<Seq<char>> {
    split_on(from, '/').drop_last()
}

/// Walk `parts` from `segments`: an empty part and `.` stay, `..` climbs (and
/// is clamped at the root), a name descends.
pub open spec fn walk(segments: Seq<Seq<char>>, parts: Seq<Seq<char>>) -> Seq<Seq<char>>
    decreases parts.len(),
{
    if parts.len() == 0 {
        segments
    } else {
        let part = parts[0];
        let next = if part.len() == 0 || part =~= seq!['.'] {
            segments
        } else if part =~= seq!['.', '.'] {
            if segments.len() > 0 {
                segments.drop_last()
            } else {
                segments
            }
        } else {
            segments.push(part)
        };
        walk(next, parts.drop_first())
    }
}

/// The path part of a target: everything before its first `#`, with one
/// leading `/` removed.
pub open spec fn target_path(target: Seq<char>) -> Seq<char> {
    let path = target.take(find_char(target, '#'));
    if path.len() > 0 && path[0] == '/' {
        path.drop_first()
    } else {
        path
    }
}

/// The bundle-relative file a bundle-path or relative `target` names from the
/// concept `from`: a `/`-rooted target starts at the root and ignores `from`,
/// a relative one starts in `from`'s directory; `.` and `..` are applied, a
/// `#fragment` dropped, and the result joined with `/`.
pub open spec fn resolved(from: Seq<char>, target: Seq<char>) -> Seq<char> {
    let start = if target.len() > 0 && target[0] == '/' {
        seq![]
    } else {
        directory_of(from)
    };
    join_with(walk(start, split_on(target_path(target), '/')), seq!['/'])
}

/// Resolve a bundle-path or relative `target` to a bundle-relative file path,
/// applying `.` / `..` against `from` (the Concept ID of the concept that
/// carries the field). Unlike a concept link, the `.md` suffix is kept, since a
/// path-valued field names a file.
pub fn resolve_path(from: &str, target: &str) -> (r: String)
    ensures
        r@ == resolved(from@, target@),
{
    let t = chars_of(target);
    let n = t.len();
    assert(t@.subrange(0, n as int) =~= t@);
    let rooted = n > 0 && t[0] == '/';
    let mut segments: Vec<String> = if rooted {
        Vec::new()
    } else {
        let f = chars_of(from);
        assert(f@.subrange(0, f@.len() as int) =~= f@);
        let mut dir = split_pieces(&f, 0, f.len(), '/');
        let ghost all = dir@;
        dir.pop();
        assert(strings_view(dir@) =~= strings_view(all).drop_last());
        dir
    };
    assert(rooted ==> strings_view(segments@) =~= Seq::<Seq<char>>::empty());
    let hash = find_in(&t, 0, n, '#');
    proof {
        lemma_find_char(t@, '#');
    }
    let start = if hash > 0 && t[0] == '/' {
        1
    } else {
        0
    };
    assert(t@.subrange(start as int, hash as int) =~= target_path(t@));
    let parts = split_pieces(&t, start, hash, '/');
    let ghost all_parts = strings_view(parts@);
    let mut k: usize = 0;
    assert(all_parts.skip(0) =~= all_parts);
    while k < parts.len()
        invariant
            k <= parts@.len(),
            all_parts == strings_view(parts@),
            walk(strings_view(segments@), all_parts.skip(k as int)) == walk(
                if rooted {
                    seq![]
                } else {
                    directory_of(from@)
                },
                all_parts,
            ),
        decreases parts.len() - k,
    {
        let part = &parts[k];
        let pc = chars_of_string_ref(part);
        let ghost before = strings_view(segments@);
        assert(all_parts.skip(k as int)[0] == part@);
        assert(all_parts.skip(k as int).drop_first() =~= all_parts.skip(k + 1));
        if pc.len() == 0 || (pc.len() == 1 && pc[0] == '.') {
            assert(pc.len() == 1 ==> part@ =~= seq!['.']);
        } else if pc.len() == 2 && pc[0] == '.' && pc[1] == '.' {
            assert(part@ =~= seq!['.', '.']);
            if segments.len() > 0 {
                segments.pop();
                assert(strings_view(segments@) =~= before.drop_last());
            }
        } else {
            assert(!(part@ =~= seq!['.'])) by {
                if pc@.len() == 1 {
                    assert(part@[0] == pc@[0]);
                }
            }
            assert(!(part@ =~= seq!['.', '.'])) by {
                if pc@.len() == 2 {
                    assert(part@[0] == pc@[0]);
                    assert(part@[1] == pc@[1]);
                }
            }
            segments.push(part.clone());
            assert(strings_view(segments@) =~= before.push(part@));
        }
        k += 1;
    }
    assert(all_parts.skip(k as int) =~= Seq::<Seq<char>>::empty());
    proof {
        reveal_strlit("/");
        assert("/"@ =~= seq!['/']);
    }
    join_strings(&segments, "/")
}

/// The characters of a `String`.
fn chars_of_string_ref(s: &String) -> (r: Vec<char>)
    ensures
        r@ == s@,
{
    chars_of(s.as_str())
}

/// A `/`-rooted target resolves the same from every concept.
pub proof fn lemma_rooted_ignores_from(from1: Seq<char>, from2: Seq<char>, target: Seq<char>)
    requires
        target.len() > 0,
        target[0] == '/',
    ensures
        resolved(from1, target) == resolved(from2, target),
{
}

/// A segment of a resolved path: a name, neither `.` nor `..`, holding no `/`
/// and no `#`.
pub open spec fn clean_segment(p: Seq<char>) -> bool {
    &&& p.len() > 0
    &&& p != seq!['.']
    &&& p != seq!['.', '.']
    &&& !p.contains('/')
    &&& !p.contains('#')
}

/// Every segment is clean.
pub open spec fn clean_segments(ss: Seq<Seq<char>>) -> bool {
    forall|i: int| 0 <= i < ss.len() ==> clean_segment(#[trigger] ss[i])
}

/// A Concept ID as resolution expects one: no `#`, and every `/`-separated
/// segment a name (not empty, `.` or `..`).
pub open spec fn clean_id(from: Seq<char>) -> bool {
    &&& !from.contains('#')
    &&& forall|i: int|
        0 <= i < split_on(from, '/').len() ==> {
            let p = #[trigger] split_on(from, '/')[i];
            p.len() > 0 && p != seq!['.'] && p != seq!['.', '.']
        }
}

/// No piece split off at `c` holds `c`, and none holds a character the whole
/// text lacks.
proof fn lemma_split_pieces(s: Seq<char>, c: char, d: char)
    ensures
        forall|i: int| 0 <= i < split_on(s, c).len() ==> !(#[trigger] split_on(s, c)[i]).contains(c),
        !s.contains(d) ==> forall|i: int|
            0 <= i < split_on(s, c).len() ==> !(#[trigger] split_on(s, c)[i]).contains(d),
        split_on(s, c).len() >= 1,
    decreases s.len(),
{
    lemma_find_char(s, c);
    let e = find_char(s, c);
    if e < s.len() {
        let rest = s.skip(e + 1);
        lemma_split_pieces(rest, c, d);
        let ps = split_on(s, c);
        assert(ps == seq![s.take(e)] + split_on(rest, c));
        assert forall|i: int| 0 <= i < ps.len() implies !(#[trigger] ps[i]).contains(c) by {
            if i == 0 {
                if s.take(e).contains(c) {
                    let k = choose|k: int| 0 <= k < s.take(e).len() && s.take(e)[k] == c;
                    assert(s[k] == c);
                }
            } else {
                assert(ps[i] == split_on(rest, c)[i - 1]);
            }
        }
        if !s.contains(d) {
            assert(!rest.contains(d)) by {
                if rest.contains(d) {
                    let k = choose|k: int| 0 <= k < rest.len() && rest[k] == d;
                    assert(s[k + e + 1] == d);
                }
            }
            assert forall|i: int| 0 <= i < ps.len() implies !(#[trigger] ps[i]).contains(d) by {
                if i == 0 {
                    if s.take(e).contains(d) {
                        let k = choose|k: int| 0 <= k < s.take(e).len() && s.take(e)[k] == d;
                        assert(s[k] == d);
                    }
                } else {
                    assert(ps[i] == split_on(rest, c)[i - 1]);
                }
            }
        }
    } else {
        assert(split_on(s, c) == seq![s]);
        if s.contains(c) {
            let k = choose|k: int| 0 <= k < s.len() && s[k] == c;
        }
    }
}

/// Walking parts that hold no `/` or `#` from clean segments leaves clean
/// segments.
proof fn lemma_walk_clean(segments: Seq<Seq<char>>, parts: Seq<Seq<char>>)
    requires
        clean_segments(segments),
        forall|i: int| 0 <= i < parts.len() ==> !(#[trigger] parts[i]).contains('/') && !parts[i].contains('#'),
    ensures
        clean_segments(walk(segments, parts)),
    decreases parts.len(),
{
    if parts.len() > 0 {
        let part = parts[0];
        let next = if part.len() == 0 || part =~= seq!['.'] {
            segments
        } else if part =~= seq!['.', '.'] {
            if segments.len() > 0 {
                segments.drop_last()
            } else {
                segments
            }
        } else {
            segments.push(part)
        };
        assert(clean_segments(next)) by {
            assert forall|i: int| 0 <= i < next.len() implies clean_segment(#[trigger] next[i]) by {
                if i < segments.len() {
                    assert(next[i] == segments[i]);
                }
            }
        }
        assert forall|i: int| 0 <= i < parts.drop_first().len() implies !(#[trigger] parts.drop_first()[i]).contains('/')
            && !parts.drop_first()[i].contains('#') by {
            assert(parts.drop_first()[i] == parts[i + 1]);
        }
        lemma_walk_clean(next, parts.drop_first());
    }
}

/// Walking clean segments only descends into each in turn.
proof fn lemma_walk_descends(segments: Seq<Seq<char>>, parts: Seq<Seq<char>>)
    requires
        clean_segments(parts),
    ensures
        walk(segments, parts) == segments + parts,
    decreases parts.len(),
{
    if parts.len() > 0 {
        let part = parts[0];
        assert(clean_segment(part));
        assert(!(part =~= seq!['.']));
        assert(!(part =~= seq!['.', '.']));
        assert forall|i: int| 0 <= i < parts.drop_first().len() implies clean_segment(#[trigger] parts.drop_first()[i]) by {
            assert(parts.drop_first()[i] == parts[i + 1]);
        }
        lemma_walk_descends(segments.push(part), parts.drop_first());
        assert(segments.push(part) + parts.drop_first() =~= segments + parts);
    } else {
        assert(segments + parts =~= segments);
    }
}

/// The first `c` of `p + q`: the first of `p`, or past `p` the first of `q`.
proof fn lemma_find_char_append(p: Seq<char>, q: Seq<char>, c: char)
    ensures
        find_char(p + q, c) == if find_char(p, c) < p.len() {
            find_char(p, c)
        } else {
            p.len() + find_char(q, c)
        },
    decreases p.len(),
{
    if p.len() == 0 {
        assert(p + q =~= q);
    } else {
        assert((p + q)[0] == p[0]);
        if p[0] != c {
            assert((p + q).drop_first() =~= p.drop_first() + q);
            lemma_find_char_append(p.drop_first(), q, c);
        }
    }
}

/// Splitting at a `/` between two texts splits each.
proof fn lemma_split_append(p: Seq<char>, q: Seq<char>)
    ensures
        split_on(p + seq!['/'] + q, '/') == split_on(p, '/') + split_on(q, '/'),
    decreases p.len(),
{
    let w = p + seq!['/'] + q;
    lemma_find_char(p, '/');
    lemma_find_char(w, '/');
    lemma_find_char_append(p, seq!['/'] + q, '/');
    assert(p + seq!['/'] + q =~= p + (seq!['/'] + q));
    let e = find_char(p, '/');
    if e < p.len() {
        assert(find_char(w, '/') == e);
        assert(w.take(e) =~= p.take(e));
        assert(w.skip(e + 1) =~= p.skip(e + 1) + seq!['/'] + q);
        lemma_split_append(p.skip(e + 1), q);
        assert(split_on(w, '/') =~= seq![p.take(e)] + split_on(p.skip(e + 1) + seq!['/'] + q, '/'));
        assert(split_on(p, '/') =~= seq![p.take(e)] + split_on(p.skip(e + 1), '/'));
    } else {
        assert((seq!['/'] + q)[0] == '/');
        assert(find_char(w, '/') == p.len());
        assert(w.take(p.len() as int) =~= p);
        assert(w.skip(p.len() as int + 1) =~= q);
        assert(split_on(p, '/') =~= seq![p]);
    }
}

/// Pieces joined with `/` split back into the same pieces.
proof fn lemma_split_join(ss: Seq<Seq<char>>)
    requires
        ss.len() >= 1,
        forall|i: int| 0 <= i < ss.len() ==> !(#[trigger] ss[i]).contains('/'),
    ensures
        split_on(join_with(ss, seq!['/']), '/') == ss,
    decreases ss.len(),
{
    let last = ss.last();
    lemma_find_char(last, '/');
    if find_char(last, '/') < last.len() {
        assert(last.contains(last[find_char(last, '/')]));
    }
    assert(split_on(last, '/') =~= seq![last]);
    if ss.len() == 1 {
        assert(ss =~= seq![last]);
    } else {
        let d = ss.drop_last();
        assert forall|i: int| 0 <= i < d.len() implies !(#[trigger] d[i]).contains('/') by {
            assert(d[i] == ss[i]);
        }
        lemma_split_join(d);
        lemma_split_append(join_with(d, seq!['/']), last);
        assert(ss =~= d + seq![last]);
    }
}

/// Pieces that lack `c`, joined with `/` (not `c`), lack it too.
proof fn lemma_join_lacks(ss: Seq<Seq<char>>, c: char)
    requires
        c != '/',
        forall|i: int| 0 <= i < ss.len() ==> !(#[trigger] ss[i]).contains(c),
    ensures
        !join_with(ss, seq!['/']).contains(c),
    decreases ss.len(),
{
    if ss.len() == 1 {
        assert(!ss[0].contains(c));
    } else if ss.len() > 1 {
        let d = ss.drop_last();
        assert forall|i: int| 0 <= i < d.len() implies !(#[trigger] d[i]).contains(c) by {
            assert(d[i] == ss[i]);
        }
        lemma_join_lacks(d, c);
        let j = join_with(d, seq!['/']);
        let w = join_with(ss, seq!['/']);
        assert(w == j + seq!['/'] + ss.last());
        assert(!ss.last().contains(c));
        if w.contains(c) {
            let k = choose|k: int| 0 <= k < w.len() && w[k] == c;
            if k < j.len() {
                assert(w[k] == j[k]);
            } else if k > j.len() {
                assert(w[k] == ss.last()[k - j.len() - 1]);
            }
        }
    }
}

/// A resolved path is clean: it does not start with `/`, holds no `#`, and is
/// either empty or `/`-separated names none of which is empty, `.` or `..`.
/// Rooting it again (`/` in front) resolves to itself from any concept.
pub proof fn lemma_resolved_is_clean(from: Seq<char>, target: Seq<char>, other: Seq<char>)
    requires
        clean_id(from),
    ensures
        ({
            let r = resolved(from, target);
            &&& !(r.len() > 0 && r[0] == '/')
            &&& !r.contains('#')
            &&& (r.len() == 0 || clean_segments(split_on(r, '/')))
            &&& resolved(other, seq!['/'] + r) == r
        }),
{
    let start = if target.len() > 0 && target[0] == '/' {
        seq![]
    } else {
        directory_of(from)
    };
    lemma_split_pieces(from, '/', '#');
    assert(clean_segments(start)) by {
        let ps = split_on(from, '/');
        assert forall|i: int| 0 <= i < start.len() implies clean_segment(#[trigger] start[i]) by {
            assert(start[i] == ps[i]);
            assert(!ps[i].contains('/'));
            assert(!ps[i].contains('#'));
        }
    }
    let path = target.take(find_char(target, '#'));
    lemma_find_char(target, '#');
    let tp = target_path(target);
    assert(!tp.contains('#')) by {
        if tp.contains('#') {
            let k = choose|k: int| 0 <= k < tp.len() && tp[k] == '#';
            if path.len() > 0 && path[0] == '/' {
                assert(tp[k] == path[k + 1]);
                assert(target[k + 1] == '#');
            } else {
                assert(target[k] == '#');
            }
        }
    }
    lemma_split_pieces(tp, '/', '#');
    let parts = split_on(tp, '/');
    lemma_walk_clean(start, parts);
    let ss = walk(start, parts);
    let r = join_with(ss, seq!['/']);
    assert(r == resolved(from, target));
    assert forall|i: int| 0 <= i < ss.len() implies !(#[trigger] ss[i]).contains('/') && !ss[i].contains('#') by {
        assert(clean_segment(ss[i]));
    }
    lemma_join_lacks(ss, '#');
    let t2 = seq!['/'] + r;
    assert(!t2.contains('#')) by {
        if t2.contains('#') {
            let k = choose|k: int| 0 <= k < t2.len() && t2[k] == '#';
            assert(k > 0);
            assert(r[k - 1] == '#');
        }
    }
    lemma_find_char(t2, '#');
    if find_char(t2, '#') < t2.len() {
        assert(t2.contains(t2[find_char(t2, '#')]));
    }
    assert(t2.take(t2.len() as int) =~= t2);
    assert(target_path(t2) =~= r);
    if ss.len() == 0 {
        assert(r.len() == 0);
        assert(split_on(r, '/') =~= seq![r]);
        assert(walk(seq![], seq![r]) == walk(seq![], seq![r].drop_first()));
        assert(seq![r].drop_first() =~= Seq::<Seq<char>>::empty());
    } else {
        lemma_split_join(ss);
        lemma_walk_descends(seq![], ss);
        assert(Seq::<Seq<char>>::empty() + ss =~= ss);
        lemma_find_char(r, '/');
        let e = find_char(r, '/');
        if e < r.len() {
            assert(split_on(r, '/')[0] == r.take(e));
        } else {
            assert(split_on(r, '/') == seq![r]);
        }
        assert(clean_segment(ss[0]));
    }
}

/// A scope descriptor is only ever a `sources[].resource`: every other field
/// reads the same text as a path or a URL.
pub proof fn lemma_scope_only_where_allowed(s: Seq<char>)
    ensures
        path_kind(s, false) != PathKind::ScopeDescriptor,
        path_kind(s, true) == PathKind::ScopeDescriptor ==> path_kind(s, false)
            == PathKind::Relative,
{
}

} // verus!
