//! Extracting and classifying the markdown links in a concept body.
//!
//! Handles inline `[text](target)` links (including the `(target "title")` and
//! `(<target>)` forms) and reference-style links — full `[text][ref]`, collapsed
//! `[text][]`, and shortcut `[ref]` — resolved through their `[ref]: target`
//! definitions. Fenced code blocks are skipped, and inline code spans are masked
//! (`` `[x](y)` `` is code, not a link). Masking is per line, and link text with
//! nested brackets matches on the first `]`.

use vstd::prelude::*;

use crate::concept::{is_code_fence, str_eq};
use crate::paths::{has_scheme, range_has_scheme};
use crate::text::{
    chars_of, chars_of_string, chars_equal, find_char, find_in, is_white, is_whitespace,
    lemma_find_char, line_ranges, lines, lowercase, skip_white, string_of, to_lowercase, trim,
    trim_range, trim_start,
};

verus! {

/// How a link target resolves. Only the first two can point at a concept.
#[derive(Debug, Clone, Copy, PartialEq, Eq, Structural)]
#[non_exhaustive]
pub enum LinkKind {
    /// `/`-rooted: interpreted relative to the bundle root.
    BundleAbsolute,
    /// A relative path: interpreted against the linking concept's directory.
    Relative,
    /// Has a URL scheme (`https:`) or is protocol-relative (`//host`).
    External,
    /// A bare `#fragment`: an intra-document anchor.
    Fragment,
}

/// A markdown link found in a concept body, with its target as written.
#[derive(Debug, Clone, PartialEq, Eq)]
#[non_exhaustive]
pub struct Link {
    /// The link target exactly as written.
    pub target: String,
    /// How the target is interpreted.
    pub kind: LinkKind,
}

impl Link {
    /// A link to `target`, of `kind`.
    pub fn new(target: String, kind: LinkKind) -> (r: Link)
        ensures
            r.target@ == target@,
            r.kind == kind,
    {
        Link { target, kind }
    }
}

/// How a target reads by its leading shape.
pub open spec fn link_kind(t: Seq<char>) -> LinkKind {
    if t.len() > 0 && t[0] == '#' {
        LinkKind::Fragment
    } else if (t.len() >= 2 && t[0] == '/' && t[1] == '/') || has_scheme(t) {
        LinkKind::External
    } else if t.len() > 0 && t[0] == '/' {
        LinkKind::BundleAbsolute
    } else {
        LinkKind::Relative
    }
}

/// Classify a target by its leading shape.
pub fn classify(target: &str) -> (r: LinkKind)
    ensures
        r == link_kind(target@),
{
    let t = chars_of(target);
    let n = t.len();
    assert(t@.subrange(0, n as int) =~= t@);
    if n > 0 && t[0] == '#' {
        LinkKind::Fragment
    } else if (n >= 2 && t[0] == '/' && t[1] == '/') || range_has_scheme(&t, 0, n) {
        LinkKind::External
    } else if n > 0 && t[0] == '/' {
        LinkKind::BundleAbsolute
    } else {
        LinkKind::Relative
    }
}

// ---------------------------------------------------------------------------
// Inline code spans.
// ---------------------------------------------------------------------------
/// How many backticks `s` holds in a row from `i`.
pub open spec fn tick_run(s: Seq<char>, i: int) -> int
    decreases s.len() - i,
{
    if 0 <= i < s.len() && s[i] == '`' {
        1 + tick_run(s, i + 1)
    } else {
        0
    }
}

/// Where, from `j`, a run of exactly `run` backticks begins; runs of another
/// length are skipped whole.
pub open spec fn closing_run(s: Seq<char>, j: int, run: int) -> Option<int>
    decreases s.len() - j,
{
    if j < 0 || j >= s.len() {
        None
    } else if s[j] == '`' {
        let here = tick_run(s, j);
        proof {
            lemma_tick_run(s, j);
        }
        if here == run {
            Some(j)
        } else {
            closing_run(s, j + here, run)
        }
    } else {
        closing_run(s, j + 1, run)
    }
}

/// The UTF-8 width of a character: masking is done byte for byte.
pub open spec fn utf8_width(c: char) -> int {
    let u = c as u32;
    if u < 0x80 {
        1
    } else if u < 0x800 {
        2
    } else if u < 0x10000 {
        3
    } else {
        4
    }
}

/// The spaces `s[lo..hi]` becomes once masked: one per byte it occupies.
pub open spec fn blanks(s: Seq<char>, lo: int, hi: int) -> Seq<char>
    decreases hi - lo,
{
    if lo >= hi {
        seq![]
    } else {
        blanks(s, lo, hi - 1) + Seq::new(utf8_width(s[hi - 1]) as nat, |k: int| ' ')
    }
}

/// `s` from `i` on with every inline code span blanked: a run of N backticks
/// opens a span that the next run of exactly N closes; an unclosed run is left
/// as it is.
pub open spec fn masked_from(s: Seq<char>, i: int) -> Seq<char>
    decreases s.len() - i,
{
    if i < 0 || i >= s.len() {
        seq![]
    } else if s[i] != '`' {
        seq![s[i]] + masked_from(s, i + 1)
    } else {
        let run = tick_run(s, i);
        proof {
            lemma_tick_run(s, i);
            lemma_closing_run(s, i + run, run);
        }
        match closing_run(s, i + run, run) {
            Some(close) => blanks(s, i, close + run) + masked_from(s, close + run),
            None => s.subrange(i, i + run) + masked_from(s, i + run),
        }
    }
}

/// A run of backticks is at least one long where one starts, and stays inside.
pub proof fn lemma_tick_run(s: Seq<char>, i: int)
    ensures
        0 <= tick_run(s, i),
        0 <= i < s.len() && s[i] == '`' ==> 1 <= tick_run(s, i) && i + tick_run(s, i) <= s.len(),
        forall|k: int| i <= k < i + tick_run(s, i) ==> s[k] == '`',
        0 <= i && i + tick_run(s, i) < s.len() ==> s[i + tick_run(s, i)] != '`',
    decreases s.len() - i,
{
    if 0 <= i < s.len() && s[i] == '`' {
        lemma_tick_run(s, i + 1);
    }
}

/// A closing run found from `j` lies after `j`, with room for the run.
pub proof fn lemma_closing_run(s: Seq<char>, j: int, run: int)
    requires
        run >= 1,
    ensures
        closing_run(s, j, run) matches Some(c) ==> j <= c && c + run <= s.len(),
    decreases s.len() - j,
{
    if 0 <= j < s.len() {
        lemma_tick_run(s, j);
        if s[j] == '`' {
            let here = tick_run(s, j);
            if here != run {
                lemma_closing_run(s, j + here, run);
            }
        } else {
            lemma_closing_run(s, j + 1, run);
        }
    }
}

/// Every inline code span of `line` blanked, byte for byte.
pub open spec fn masked(line: Seq<char>) -> Seq<char> {
    masked_from(line, 0)
}

/// How many backticks `cs` holds in a row from `i`.
fn count_ticks(cs: &[char], i: usize) -> (r: usize)
    requires
        i <= cs@.len(),
    ensures
        r == tick_run(cs@, i as int),
        i + r <= cs@.len(),
{
    let mut j = i;
    while j < cs.len() && cs[j] == '`'
        invariant
            i <= j <= cs@.len(),
            tick_run(cs@, i as int) == (j - i) + tick_run(cs@, j as int),
        decreases cs.len() - j,
    {
        j += 1;
    }
    j - i
}

/// The UTF-8 width of `c`.
fn char_width(c: char) -> (r: usize)
    ensures
        r == utf8_width(c),
{
    let u = c as u32;
    if u < 0x80 {
        1
    } else if u < 0x800 {
        2
    } else if u < 0x10000 {
        3
    } else {
        4
    }
}

/// Blank out inline code spans, so a `` `[x](y)` `` inside code is not read as
/// a link.
pub fn mask_code_spans(cs: &[char]) -> (r: Vec<char>)
    ensures
        r@ == masked(cs@),
{
    let mut out: Vec<char> = Vec::new();
    let mut i: usize = 0;
    let n = cs.len();
    while i < n
        invariant
            i <= n == cs@.len(),
            out@ + masked_from(cs@, i as int) == masked(cs@),
        decreases n - i,
    {
        if cs[i] != '`' {
            let ghost prev = out@;
            out.push(cs[i]);
            assert(out@ + masked_from(cs@, i + 1) =~= prev + masked_from(cs@, i as int));
            i += 1;
            continue;
        }
        let run = count_ticks(cs, i);
        proof {
            lemma_tick_run(cs@, i as int);
            lemma_closing_run(cs@, i + run, run as int);
        }
        let mut j = i + run;
        let mut close: Option<usize> = None;
        while j < n
            invariant_except_break
                close is None,
                closing_run(cs@, i + run, run as int) == closing_run(cs@, j as int, run as int),
            invariant
                i + run <= j <= n == cs@.len(),
                run >= 1,
            ensures
                match close {
                    Some(c) => closing_run(cs@, i + run, run as int) == Some(c as int),
                    None => closing_run(cs@, i + run, run as int) is None,
                },
            decreases n - j,
        {
            if cs[j] == '`' {
                let here = count_ticks(cs, j);
                proof {
                    lemma_tick_run(cs@, j as int);
                }
                if here == run {
                    close = Some(j);
                    break;
                }
                j += here;
            } else {
                j += 1;
            }
        }
        match close {
            Some(c) => {
                let ghost prev = out@;
                let mut k = i;
                while k < c + run
                    invariant
                        i <= k <= c + run <= n == cs@.len(),
                        out@ == prev + blanks(cs@, i as int, k as int),
                    decreases c + run - k,
                {
                    let w = char_width(cs[k]);
                    let ghost before = out@;
                    let mut b: usize = 0;
                    while b < w
                        invariant
                            b <= w,
                            k < cs@.len(),
                            w == utf8_width(cs@[k as int]),
                            out@ == before + Seq::new(b as nat, |x: int| ' '),
                        decreases w - b,
                    {
                        out.push(' ');
                        assert(out@ =~= before + Seq::new((b + 1) as nat, |x: int| ' '));
                        b += 1;
                    }
                    assert(blanks(cs@, i as int, k + 1) =~= blanks(cs@, i as int, k as int)
                        + Seq::new(utf8_width(cs@[k as int]) as nat, |x: int| ' '));
                    k += 1;
                }
                assert(out@ + masked_from(cs@, (c + run) as int) =~= prev + masked_from(
                    cs@,
                    i as int,
                ));
                i = c + run;
            },
            None => {
                let ghost prev = out@;
                let mut k = i;
                while k < i + run
                    invariant
                        i <= k <= i + run <= n == cs@.len(),
                        out@ == prev + cs@.subrange(i as int, k as int),
                    decreases i + run - k,
                {
                    out.push(cs[k]);
                    assert(out@ =~= prev + cs@.subrange(i as int, k + 1));
                    k += 1;
                }
                assert(closing_run(cs@, i + run, run as int) is None);
                assert(out@ + masked_from(cs@, (i + run) as int) =~= prev + masked_from(
                    cs@,
                    i as int,
                ));
                i = i + run;
            },
        }
    }
    assert(out@ =~= masked(cs@));
    out
}


// ---------------------------------------------------------------------------
// Reference definitions.
// ---------------------------------------------------------------------------
/// The first position at or after `i` where `]:` begins, or `s.len()`.
pub open spec fn find_def_close(s: Seq<char>, i: int) -> int
    decreases s.len() - i,
{
    if i < 0 || i + 1 >= s.len() {
        s.len() as int
    } else if s[i] == ']' && s[i + 1] == ':' {
        i
    } else {
        find_def_close(s, i + 1)
    }
}

/// The first position at or after `i` holding whitespace, or `s.len()`.
pub open spec fn find_white(s: Seq<char>, i: int) -> int
    decreases s.len() - i,
{
    if i < 0 || i >= s.len() {
        s.len() as int
    } else if is_white(s[i]) {
        i
    } else {
        find_white(s, i + 1)
    }
}

/// A definition's target: a token wrapped as `<...>` is unwrapped.
pub open spec fn unwrap_angle(tok: Seq<char>) -> Seq<char> {
    if tok.len() >= 2 && tok[0] == '<' && tok.last() == '>' {
        tok.subrange(1, tok.len() - 1)
    } else {
        tok
    }
}

/// The first whitespace-separated token of `s`, a `<...>` unwrapped; `None`
/// when there is none or it unwraps to nothing.
pub open spec fn target_token(s: Seq<char>) -> Option<Seq<char>> {
    let after = trim(s);
    if after.len() == 0 {
        None
    } else {
        let target = unwrap_angle(after.take(find_white(after, 0)));
        if target.len() == 0 {
            None
        } else {
            Some(target)
        }
    }
}

/// A `[label]: target` definition on a start-trimmed line: its lower-cased
/// label and its target (the first whitespace-separated token after `]:`, a
/// `<...>` unwrapped). `None` when the line is not one, or is a footnote
/// definition (`[^id]:`).
pub open spec fn definition_of(t: Seq<char>) -> Option<(Seq<char>, Seq<char>)> {
    if t.len() == 0 || t[0] != '[' {
        None
    } else {
        let close = find_def_close(t, 1);
        if close >= t.len() {
            None
        } else {
            let label = t.subrange(1, close);
            if label.len() == 0 || label[0] == '^' {
                None
            } else {
                match target_token(t.subrange(close + 2, t.len() as int)) {
                    Some(target) => Some((lowercase(label), target)),
                    None => None,
                }
            }
        }
    }
}

/// The definitions among `ls`, in order, outside fenced code.
pub open spec fn definitions_from(ls: Seq<Seq<char>>, in_fence: bool) -> Seq<
    (Seq<char>, Seq<char>),
>
    decreases ls.len(),
{
    if ls.len() == 0 {
        seq![]
    } else if is_code_fence(ls[0]) {
        definitions_from(ls.drop_first(), !in_fence)
    } else if in_fence {
        definitions_from(ls.drop_first(), in_fence)
    } else {
        match definition_of(trim_start(ls[0])) {
            Some(d) => seq![d] + definitions_from(ls.drop_first(), in_fence),
            None => definitions_from(ls.drop_first(), in_fence),
        }
    }
}

/// The target of the first definition of `label` — the first one wins.
pub open spec fn defined_target(defs: Seq<(Seq<char>, Seq<char>)>, label: Seq<char>) -> Option<
    Seq<char>,
>
    decreases defs.len(),
{
    if defs.len() == 0 {
        None
    } else if defs[0].0 == label {
        Some(defs[0].1)
    } else {
        defined_target(defs.drop_first(), label)
    }
}

/// The definitions as values.
pub open spec fn pairs_view(v: Seq<(String, String)>) -> Seq<(Seq<char>, Seq<char>)> {
    v.map_values(|p: (String, String)| (p.0@, p.1@))
}

/// The first position at or after `i` in `cs[..hi]` where `]:` begins, or `hi`.
fn find_def_close_in(cs: &[char], i: usize, hi: usize) -> (r: usize)
    requires
        i <= hi <= cs@.len(),
    ensures
        i <= r <= hi,
        r == find_def_close(cs@.subrange(0, hi as int), i as int),
        r < hi ==> r + 1 < hi,
{
    let ghost s = cs@.subrange(0, hi as int);
    let mut k = i;
    while hi - k > 1 && !(cs[k] == ']' && cs[k + 1] == ':')
        invariant
            i <= k <= hi <= cs@.len(),
            s == cs@.subrange(0, hi as int),
            find_def_close(s, i as int) == find_def_close(s, k as int),
        decreases hi - k,
    {
        k += 1;
    }
    if hi - k > 1 {
        k
    } else {
        hi
    }
}

/// The first whitespace position at or after `i` in `cs[..hi]`, or `hi`.
fn find_white_in(cs: &[char], i: usize, hi: usize) -> (r: usize)
    requires
        i <= hi <= cs@.len(),
    ensures
        i <= r <= hi,
        r == find_white(cs@.subrange(0, hi as int), i as int),
{
    let ghost s = cs@.subrange(0, hi as int);
    let mut k = i;
    while k < hi && !is_whitespace(cs[k])
        invariant
            i <= k <= hi <= cs@.len(),
            s == cs@.subrange(0, hi as int),
            find_white(s, i as int) == find_white(s, k as int),
        decreases hi - k,
    {
        k += 1;
    }
    k
}

/// Moving where a search starts to a later start point of a subrange keeps
/// what it finds, offset.
proof fn lemma_find_white_shift(s: Seq<char>, a: int, i: int)
    requires
        0 <= a <= i <= s.len(),
    ensures
        find_white(s, i) - a == find_white(s.subrange(a, s.len() as int), i - a),
    decreases s.len() - i,
{
    if i < s.len() && !is_white(s[i]) {
        lemma_find_white_shift(s, a, i + 1);
    }
}

/// The bounds of the target token of `line[lo..hi]`.
fn token_bounds(line: &[char], lo: usize, hi: usize) -> (r: Option<(usize, usize)>)
    requires
        lo <= hi <= line@.len(),
    ensures
        match target_token(line@.subrange(lo as int, hi as int)) {
            Some(t) => r is Some && (r->0).0 <= (r->0).1 <= line@.len() && line@.subrange(
                (r->0).0 as int,
                (r->0).1 as int,
            ) == t,
            None => r is None,
        },
{
    let (a, b) = trim_range(line, lo, hi);
    if a == b {
        return None;
    }
    let w = find_white_in(line, a, b);
    proof {
        let after = line@.subrange(a as int, b as int);
        lemma_find_white_shift(line@.subrange(0, b as int), a as int, a as int);
        assert(line@.subrange(0, b as int).subrange(a as int, b as int) =~= after);
        assert(after.take(w - a) =~= line@.subrange(a as int, w as int));
    }
    let (x, y) = if w - a >= 2 && line[a] == '<' && line[w - 1] == '>' {
        (a + 1, w - 1)
    } else {
        (a, w)
    };
    proof {
        let tok = line@.subrange(a as int, w as int);
        if tok.len() >= 2 {
            assert(tok[0] == line@[a as int] && tok.last() == line@[w - 1]);
        }
        assert(unwrap_angle(tok) =~= line@.subrange(x as int, y as int));
    }
    if x == y {
        return None;
    }
    Some((x, y))
}

/// A `[label]: target` definition on the start-trimmed line `cs[lo..hi]`.
fn parse_definition(cs: &[char], lo: usize, hi: usize) -> (r: Option<(String, String)>)
    requires
        lo <= hi <= cs@.len(),
    ensures
        match definition_of(cs@.subrange(lo as int, hi as int)) {
            Some((label, target)) => r is Some && (r->0).0@ == label && (r->0).1@ == target,
            None => r is None,
        },
{
    let ghost t = cs@.subrange(lo as int, hi as int);
    if lo == hi || cs[lo] != '[' {
        return None;
    }
    let line: Vec<char> = slice_of(cs, lo, hi);
    let n = line.len();
    assert(line@.subrange(0, n as int) =~= t);
    let close = find_def_close_in(&line, 1, n);
    if close >= n {
        return None;
    }
    if close == 1 || line[1] == '^' {
        assert(close > 1 ==> t.subrange(1, close as int)[0] == line@[1]);
        return None;
    }
    assert(t.subrange(close + 2, t.len() as int) =~= line@.subrange(close + 2, n as int));
    let (x, y) = match token_bounds(&line, close + 2, n) {
        Some(bounds) => bounds,
        None => return None,
    };
    let label = string_of(&line, 1, close);
    assert(t.subrange(1, close as int) =~= line@.subrange(1, close as int));
    let lowered = to_lowercase(label.as_str());
    Some((lowered, string_of(&line, x, y)))
}

/// `cs[lo..hi]` as its own vector.
fn slice_of(cs: &[char], lo: usize, hi: usize) -> (r: Vec<char>)
    requires
        lo <= hi <= cs@.len(),
    ensures
        r@ == cs@.subrange(lo as int, hi as int),
{
    let mut out: Vec<char> = Vec::new();
    let mut k = lo;
    while k < hi
        invariant
            lo <= k <= hi <= cs@.len(),
            out@ == cs@.subrange(lo as int, k as int),
        decreases hi - k,
    {
        out.push(cs[k]);
        assert(out@ =~= cs@.subrange(lo as int, k + 1));
        k += 1;
    }
    out
}

/// The `(start, end)` bounds of each line, and what each line is.
pub open spec fn ranges_match(cs: Seq<char>, ranges: Seq<(usize, usize)>, ls: Seq<Seq<char>>) -> bool {
    &&& ranges.len() == ls.len()
    &&& forall|j: int|
        0 <= j < ranges.len() ==> {
            &&& (#[trigger] ranges[j]).0 <= ranges[j].1 <= cs.len()
            &&& cs.subrange(ranges[j].0 as int, ranges[j].1 as int) == ls[j]
        }
}

/// Whether the line `cs[lo..hi]` is a code fence.
pub(crate) fn fence_at(cs: &[char], lo: usize, hi: usize) -> (r: bool)
    requires
        lo <= hi <= cs@.len(),
    ensures
        r == is_code_fence(cs@.subrange(lo as int, hi as int)),
{
    let a = skip_white(cs, lo, hi);
    let r = hi - a >= 3 && ((cs[a] == '`' && cs[a + 1] == '`' && cs[a + 2] == '`') || (cs[a] == '~'
        && cs[a + 1] == '~' && cs[a + 2] == '~'));
    proof {
        let t = cs@.subrange(a as int, hi as int);
        if t.len() >= 3 {
            assert(t[0] == cs@[a as int] && t[1] == cs@[a + 1] && t[2] == cs@[a + 2]);
        }
    }
    r
}

/// Collect the `[label]: target` reference definitions, in order, skipping
/// fenced code blocks and footnote definitions.
fn collect_definitions(cs: &[char], ranges: &Vec<(usize, usize)>) -> (r: Vec<(String, String)>)
    requires
        ranges_match(cs@, ranges@, lines(cs@)),
    ensures
        pairs_view(r@) == definitions_from(lines(cs@), false),
{
    let ghost ls = lines(cs@);
    let mut out: Vec<(String, String)> = Vec::new();
    let mut in_fence = false;
    let mut k: usize = 0;
    assert(ls.skip(0) =~= ls);
    while k < ranges.len()
        invariant
            k <= ranges@.len(),
            ls == lines(cs@),
            ranges_match(cs@, ranges@, ls),
            pairs_view(out@) + definitions_from(ls.skip(k as int), in_fence) == definitions_from(
                ls,
                false,
            ),
        decreases ranges.len() - k,
    {
        let (lo, hi) = ranges[k];
        assert(ls.skip(k as int)[0] == ls[k as int]);
        assert(ls.skip(k as int).drop_first() =~= ls.skip(k + 1));
        if fence_at(cs, lo, hi) {
            in_fence = !in_fence;
        } else if !in_fence {
            let a = skip_white(cs, lo, hi);
            match parse_definition(cs, a, hi) {
                Some(d) => {
                    let ghost prev = out@;
                    let ghost dv = (d.0@, d.1@);
                    out.push(d);
                    assert(pairs_view(out@) =~= pairs_view(prev).push(dv));
                    assert(pairs_view(out@) + definitions_from(ls.skip(k + 1), in_fence) =~= pairs_view(prev) + definitions_from(ls.skip(k as int), in_fence));
                },
                None => {},
            }
        }
        k += 1;
    }
    assert(ls.skip(k as int) =~= Seq::<Seq<char>>::empty());
    assert(pairs_view(out@) =~= definitions_from(ls, false));
    out
}

/// The target of the first definition whose label is `label`.
fn defined_target_of<'a>(defs: &'a Vec<(String, String)>, label: &String) -> (r: Option<&'a String>)
    ensures
        match defined_target(pairs_view(defs@), label@) {
            Some(t) => r is Some && r->0@ == t,
            None => r is None,
        },
{
    let ghost pv = pairs_view(defs@);
    let mut i: usize = 0;
    assert(pv.skip(0) =~= pv);
    while i < defs.len()
        invariant
            i <= defs@.len(),
            pv == pairs_view(defs@),
            defined_target(pv, label@) == defined_target(pv.skip(i as int), label@),
        decreases defs.len() - i,
    {
        assert(pv.skip(i as int)[0] == (defs@[i as int].0@, defs@[i as int].1@));
        assert(pv.skip(i as int).drop_first() =~= pv.skip(i + 1));
        if defs[i].0 == *label {
            return Some(&defs[i].1);
        }
        i += 1;
    }
    assert(pv.skip(i as int) =~= Seq::<(Seq<char>, Seq<char>)>::empty());
    None
}


// ---------------------------------------------------------------------------
// Scanning a line for links.
// ---------------------------------------------------------------------------
/// Where `c` next occurs in `s` at or after `i`, or `s.len()`.
pub open spec fn next_at(s: Seq<char>, i: int, c: char) -> int {
    i + find_char(s.subrange(i, s.len() as int), c)
}

/// `next_at` lands at or after `i` and within `s`.
pub proof fn lemma_next_at(s: Seq<char>, i: int, c: char)
    requires
        0 <= i <= s.len(),
    ensures
        i <= next_at(s, i, c) <= s.len(),
        next_at(s, i, c) < s.len() ==> s[next_at(s, i, c)] == c,
{
    lemma_find_char(s.subrange(i, s.len() as int), c);
    if next_at(s, i, c) < s.len() {
        assert(s.subrange(i, s.len() as int)[next_at(s, i, c) - i] == s[next_at(s, i, c)]);
    }
}

/// Where a bare target ends: the first whitespace or `)` at or after `i`, or
/// `s.len()`.
pub open spec fn find_target_end(s: Seq<char>, i: int) -> int
    decreases s.len() - i,
{
    if i < 0 || i >= s.len() {
        s.len() as int
    } else if is_white(s[i]) || s[i] == ')' {
        i
    } else {
        find_target_end(s, i + 1)
    }
}

pub proof fn lemma_find_target_end(s: Seq<char>, i: int)
    requires
        0 <= i <= s.len(),
    ensures
        i <= find_target_end(s, i) <= s.len(),
    decreases s.len() - i,
{
    if i < s.len() && !(is_white(s[i]) || s[i] == ')') {
        lemma_find_target_end(s, i + 1);
    }
}

/// The target written from `i` (just after `](`), and where reading resumes
/// (just after the closing `)`): the `<target>` form is unwrapped and trimmed,
/// and a bare target ends at whitespace or `)` — a title after it is skipped.
/// `None` when no `)` closes it.
pub open spec fn inline_target(m: Seq<char>, i: int) -> Option<(Seq<char>, int)> {
    if i < m.len() && m[i] == '<' {
        let close = next_at(m, i + 1, '>');
        if close >= m.len() {
            None
        } else {
            let paren = next_at(m, close + 1, ')');
            if paren >= m.len() {
                None
            } else {
                Some((trim(m.subrange(i + 1, close)), paren + 1))
            }
        }
    } else {
        let end = find_target_end(m, i);
        if end >= m.len() {
            None
        } else {
            let paren = next_at(m, end, ')');
            if paren >= m.len() {
                None
            } else {
                Some((m.subrange(i, end), paren + 1))
            }
        }
    }
}

/// A target, unless it is empty.
pub open spec fn emit(t: Seq<char>) -> Seq<Seq<char>> {
    if t.len() > 0 {
        seq![t]
    } else {
        seq![]
    }
}

/// The target a reference label resolves to through `defs`, compared lower-cased;
/// an undefined label is plain text, not a link.
pub open spec fn reference_targets(defs: Seq<(Seq<char>, Seq<char>)>, label: Seq<char>) -> Seq<
    Seq<char>,
> {
    match defined_target(defs, lowercase(label)) {
        Some(t) => emit(t),
        None => seq![],
    }
}

/// The link targets in the masked line `m` from `p` on: inline
/// `[text](target)`, full `[text][ref]`, collapsed `[text][]` and shortcut
/// `[ref]`. Link text ends at its first `]`.
pub open spec fn scan(m: Seq<char>, p: int, defs: Seq<(Seq<char>, Seq<char>)>) -> Seq<
    Seq<char>,
>
    decreases m.len() - p,
{
    if p < 0 || p > m.len() {
        seq![]
    } else {
        let o = next_at(m, p, '[');
        proof {
            lemma_next_at(m, p, '[');
        }
        if o >= m.len() {
            seq![]
        } else {
            let c = next_at(m, o + 1, ']');
            proof {
                lemma_next_at(m, o + 1, ']');
            }
            if c >= m.len() {
                seq![]
            } else {
                let text = m.subrange(o + 1, c);
                let t = c + 1;
                if t < m.len() && m[t] == '(' {
                    proof {
                        lemma_find_target_end(m, t + 1);
                        if t + 1 < m.len() && m[t + 1] == '<' {
                            lemma_next_at(m, t + 2, '>');
                            if next_at(m, t + 2, '>') < m.len() {
                                lemma_next_at(m, next_at(m, t + 2, '>') + 1, ')');
                            }
                        }
                        if find_target_end(m, t + 1) < m.len() {
                            lemma_next_at(m, find_target_end(m, t + 1), ')');
                        }
                    }
                    match inline_target(m, t + 1) {
                        Some((target, e)) => emit(target) + scan(m, e, defs),
                        None => scan(m, t, defs),
                    }
                } else if t < m.len() && m[t] == '[' {
                    let rc = next_at(m, t + 1, ']');
                    proof {
                        lemma_next_at(m, t + 1, ']');
                    }
                    if rc < m.len() {
                        let label = m.subrange(t + 1, rc);
                        let key = if label.len() == 0 {
                            text
                        } else {
                            label
                        };
                        reference_targets(defs, key) + scan(m, rc + 1, defs)
                    } else {
                        scan(m, t, defs)
                    }
                } else {
                    reference_targets(defs, text) + scan(m, t, defs)
                }
            }
        }
    }
}

/// The link targets of a body's lines from `ls` on: code fences toggle,
/// fenced lines and definition lines are skipped, and every other line is
/// scanned with its code spans masked.
pub open spec fn links_from(
    ls: Seq<Seq<char>>,
    in_fence: bool,
    defs: Seq<(Seq<char>, Seq<char>)>,
) -> Seq<Seq<char>>
    decreases ls.len(),
{
    if ls.len() == 0 {
        seq![]
    } else if is_code_fence(ls[0]) {
        links_from(ls.drop_first(), !in_fence, defs)
    } else if in_fence || definition_of(trim_start(ls[0])) is Some {
        links_from(ls.drop_first(), in_fence, defs)
    } else {
        scan(masked(ls[0]), 0, defs) + links_from(ls.drop_first(), in_fence, defs)
    }
}

/// Every link target in a body, in document order.
pub open spec fn body_links(body: Seq<char>) -> Seq<Seq<char>> {
    links_from(lines(body), false, definitions_from(lines(body), false))
}

/// The targets of a run of links.
pub open spec fn link_targets(v: Seq<Link>) -> Seq<Seq<char>> {
    v.map_values(|l: Link| l.target@)
}

/// Every link is classified by its target.
pub open spec fn links_classified(v: Seq<Link>) -> bool {
    forall|k: int| 0 <= k < v.len() ==> (#[trigger] v[k]).kind == link_kind(v[k].target@)
}

/// Push a link for `m[lo..hi]` unless it is empty.
fn push_target(m: &[char], lo: usize, hi: usize, out: &mut Vec<Link>)
    requires
        lo <= hi <= m@.len(),
        links_classified(old(out)@),
    ensures
        link_targets(final(out)@) == link_targets(old(out)@) + emit(m@.subrange(lo as int, hi as int)),
        links_classified(final(out)@),
{
    if lo < hi {
        let target = string_of(m, lo, hi);
        let kind = classify(target.as_str());
        let ghost prev = out@;
        out.push(Link { target, kind });
        assert(link_targets(out@) =~= link_targets(prev).push(m@.subrange(lo as int, hi as int)));
    } else {
        assert(emit(m@.subrange(lo as int, hi as int)) =~= Seq::<Seq<char>>::empty());
        assert(link_targets(out@) =~= link_targets(out@) + Seq::<Seq<char>>::empty());
    }
}

/// Push a link for what the reference label `m[lo..hi]` resolves to.
fn push_reference(
    m: &[char],
    lo: usize,
    hi: usize,
    defs: &Vec<(String, String)>,
    out: &mut Vec<Link>,
)
    requires
        lo <= hi <= m@.len(),
        links_classified(old(out)@),
    ensures
        link_targets(final(out)@) == link_targets(old(out)@) + reference_targets(
            pairs_view(defs@),
            m@.subrange(lo as int, hi as int),
        ),
        links_classified(final(out)@),
{
    let label = string_of(m, lo, hi);
    let key = to_lowercase(label.as_str());
    match defined_target_of(defs, &key) {
        Some(target) => {
            let tc = chars_of_string(target);
            assert(tc@.subrange(0, tc@.len() as int) =~= tc@);
            push_target(&tc, 0, tc.len(), out);
        },
        None => {
            assert(link_targets(out@) =~= link_targets(out@) + Seq::<Seq<char>>::empty());
        },
    }
}

/// The bound of a bare target from `i`.
fn target_end_in(m: &[char], i: usize) -> (r: usize)
    requires
        i <= m@.len(),
    ensures
        r == find_target_end(m@, i as int),
        i <= r <= m@.len(),
{
    let mut k = i;
    while k < m.len() && !(is_whitespace(m[k]) || m[k] == ')')
        invariant
            i <= k <= m@.len(),
            find_target_end(m@, i as int) == find_target_end(m@, k as int),
        decreases m.len() - k,
    {
        k += 1;
    }
    k
}

/// The inline target from `i`: its bounds and where reading resumes.
fn inline_target_at(m: &[char], i: usize) -> (r: Option<(usize, usize, usize)>)
    requires
        i <= m@.len(),
    ensures
        match inline_target(m@, i as int) {
            Some((t, e)) => r is Some && (r->0).0 <= (r->0).1 <= m@.len() && m@.subrange(
                (r->0).0 as int,
                (r->0).1 as int,
            ) == t && (r->0).2 == e && (r->0).2 > i,
            None => r is None,
        },
{
    let n = m.len();
    if i < n && m[i] == '<' {
        let close = find_in(m, i + 1, n, '>');
        if close >= n {
            return None;
        }
        let paren = find_in(m, close + 1, n, ')');
        if paren >= n {
            return None;
        }
        let (x, y) = trim_range(m, i + 1, close);
        Some((x, y, paren + 1))
    } else {
        let end = target_end_in(m, i);
        if end >= n {
            return None;
        }
        let paren = find_in(m, end, n, ')');
        if paren >= n {
            return None;
        }
        Some((i, end, paren + 1))
    }
}

/// Scan one masked line, pushing each link's target.
fn extract_line(m: &[char], defs: &Vec<(String, String)>, out: &mut Vec<Link>)
    requires
        links_classified(old(out)@),
    ensures
        link_targets(final(out)@) == link_targets(old(out)@) + scan(m@, 0, pairs_view(defs@)),
        links_classified(final(out)@),
{
    let ghost d = pairs_view(defs@);
    let n = m.len();
    let mut p: usize = 0;
    while p <= n
        invariant
            p <= n == m@.len(),
            d == pairs_view(defs@),
            links_classified(out@),
            link_targets(out@) + scan(m@, p as int, d) == link_targets(old(out)@) + scan(
                m@,
                0,
                d,
            ),
        decreases n + 1 - p,
    {
        let ghost before = link_targets(out@);
        let o = find_in(m, p, n, '[');
        proof {
            lemma_next_at(m@, p as int, '[');
        }
        if o >= n {
            assert(scan(m@, p as int, d) =~= Seq::<Seq<char>>::empty());
            assert(link_targets(out@) =~= link_targets(out@) + scan(m@, p as int, d));
            return;
        }
        let c = find_in(m, o + 1, n, ']');
        proof {
            lemma_next_at(m@, o + 1, ']');
        }
        if c >= n {
            assert(link_targets(out@) =~= link_targets(out@) + scan(m@, p as int, d));
            return;
        }
        let t = c + 1;
        if t < n && m[t] == '(' {
            match inline_target_at(m, t + 1) {
                Some((x, y, e)) => {
                    push_target(m, x, y, out);
                    assert(link_targets(out@) + scan(m@, e as int, d) =~= before + scan(
                        m@,
                        p as int,
                        d,
                    ));
                    p = e;
                },
                None => {
                    p = t;
                },
            }
        } else if t < n && m[t] == '[' {
            let rc = find_in(m, t + 1, n, ']');
            proof {
                lemma_next_at(m@, t + 1, ']');
            }
            if rc < n {
                if rc == t + 1 {
                    push_reference(m, o + 1, c, defs, out);
                } else {
                    push_reference(m, t + 1, rc, defs, out);
                }
                assert(link_targets(out@) + scan(m@, rc + 1, d) =~= before + scan(
                    m@,
                    p as int,
                    d,
                ));
                p = rc + 1;
            } else {
                p = t;
            }
        } else {
            push_reference(m, o + 1, c, defs, out);
            assert(link_targets(out@) + scan(m@, t as int, d) =~= before + scan(m@, p as int, d));
            p = t;
        }
    }
}

/// Every link in a body, in document order. Two passes: collect the
/// `[ref]: target` definitions, then scan for links (inline and reference),
/// skipping fenced code blocks and the definition lines themselves.
pub fn links_in(body: &str) -> (r: Vec<Link>)
    ensures
        link_targets(r@) == body_links(body@),
        links_classified(r@),
{
    let cs = chars_of(body);
    let ranges = line_ranges(&cs);
    let ghost ls = lines(cs@);
    let definitions = collect_definitions(&cs, &ranges);
    let ghost d = pairs_view(definitions@);
    let mut links: Vec<Link> = Vec::new();
    let mut in_fence = false;
    let mut k: usize = 0;
    assert(ls.skip(0) =~= ls);
    while k < ranges.len()
        invariant
            k <= ranges@.len(),
            ls == lines(cs@),
            cs@ == body@,
            d == pairs_view(definitions@),
            d == definitions_from(ls, false),
            ranges_match(cs@, ranges@, ls),
            links_classified(links@),
            link_targets(links@) + links_from(ls.skip(k as int), in_fence, d) == links_from(
                ls,
                false,
                d,
            ),
        decreases ranges.len() - k,
    {
        let (lo, hi) = ranges[k];
        let ghost before = link_targets(links@);
        assert(ls.skip(k as int)[0] == ls[k as int]);
        assert(ls.skip(k as int).drop_first() =~= ls.skip(k + 1));
        if fence_at(&cs, lo, hi) {
            in_fence = !in_fence;
        } else if !in_fence {
            let a = skip_white(&cs, lo, hi);
            if parse_definition(&cs, a, hi).is_none() {
                let line = slice_of(&cs, lo, hi);
                let m = mask_code_spans(&line);
                extract_line(&m, &definitions, &mut links);
                assert(link_targets(links@) + links_from(ls.skip(k + 1), in_fence, d) =~= before
                    + links_from(ls.skip(k as int), in_fence, d));
            }
        }
        k += 1;
    }
    assert(ls.skip(k as int) =~= Seq::<Seq<char>>::empty());
    assert(link_targets(links@) =~= links_from(ls, false, d));
    links
}

} // verus!
