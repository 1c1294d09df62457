//! Text as sequences of `char`: the reading primitives every parser in the
//! crate is written over — whitespace, trimming, lines, searching, and turning a
//! run of characters back into a `String`.

use vstd::prelude::*;

verus! {

/// Unicode `White_Space`, the property `char::is_whitespace` tests.
pub open spec fn is_white(c: char) -> bool {
    let u = c as u32;
    ||| 0x09 <= u <= 0x0d
    ||| u == 0x20
    ||| u == 0x85
    ||| u == 0xa0
    ||| u == 0x1680
    ||| 0x2000 <= u <= 0x200a
    ||| u == 0x2028
    ||| u == 0x2029
    ||| u == 0x202f
    ||| u == 0x205f
    ||| u == 0x3000
}

/// An ASCII decimal digit.
pub open spec fn is_digit(c: char) -> bool {
    '0' <= c && c <= '9'
}

/// An ASCII letter.
pub open spec fn is_alpha(c: char) -> bool {
    ('a' <= c && c <= 'z') || ('A' <= c && c <= 'Z')
}

/// An ASCII letter or digit.
pub open spec fn is_alnum(c: char) -> bool {
    is_alpha(c) || is_digit(c)
}

/// Whether `c` is Unicode whitespace.
pub fn is_whitespace(c: char) -> (r: bool)
    ensures
        r == is_white(c),
{
    let u = c as u32;
    (0x09 <= u && u <= 0x0d) || u == 0x20 || u == 0x85 || u == 0xa0 || u == 0x1680 || (0x2000
        <= u && u <= 0x200a) || u == 0x2028 || u == 0x2029 || u == 0x202f || u == 0x205f || u
        == 0x3000
}

/// Whether `c` is an ASCII digit.
pub fn is_ascii_digit(c: char) -> (r: bool)
    ensures
        r == is_digit(c),
{
    '0' <= c && c <= '9'
}

/// Whether `c` is an ASCII letter or digit.
pub fn is_ascii_alnum(c: char) -> (r: bool)
    ensures
        r == is_alnum(c),
{
    ('a' <= c && c <= 'z') || ('A' <= c && c <= 'Z') || ('0' <= c && c <= '9')
}

/// Appends one character to a string (`String::push`).
#[verifier::external_body]
fn push_char(s: &mut String, c: char)
    ensures
        final(s)@ == old(s)@.push(c),
{
    s.push(c);
}

/// The characters of `text`, in order.
pub fn chars_of(text: &str) -> (r: Vec<char>)
    ensures
        r@ == text@,
{
    let mut out: Vec<char> = Vec::new();
    for c in it: text.chars()
        invariant
            out@ == it.seq().take(it.index() as int),
    {
        out.push(c);
    }
    out
}

/// The characters of `s`, in order.
pub fn chars_of_string(s: &String) -> (r: Vec<char>)
    ensures
        r@ == s@,
{
    chars_of(s.as_str())
}

/// A `String` holding `cs[lo..hi]`.
pub fn string_of(cs: &[char], lo: usize, hi: usize) -> (r: String)
    requires
        lo <= hi <= cs@.len(),
    ensures
        r@ == cs@.subrange(lo as int, hi as int),
{
    let mut out = String::new();
    let mut i = lo;
    while i < hi
        invariant
            lo <= i <= hi <= cs@.len(),
            out@ == cs@.subrange(lo as int, i as int),
        decreases hi - i,
    {
        push_char(&mut out, cs[i]);
        assert(cs@.subrange(lo as int, i + 1) =~= cs@.subrange(lo as int, i as int).push(cs@[i as int]));
        i += 1;
    }
    out
}

/// A `String` holding the characters of `text`.
pub fn string_from(text: &str) -> (r: String)
    ensures
        r@ == text@,
{
    let cs = chars_of(text);
    proof {
        assert(cs@.subrange(0, cs@.len() as int) =~= cs@);
    }
    string_of(&cs, 0, cs.len())
}

/// `a` followed by `b`, as a new `String`.
pub fn concat(a: &String, b: &str) -> (r: String)
    ensures
        r@ == a@ + b@,
{
    let mut out = a.clone();
    let bs = chars_of(b);
    let mut i: usize = 0;
    while i < bs.len()
        invariant
            i <= bs@.len(),
            bs@ == b@,
            out@ == a@ + bs@.take(i as int),
        decreases bs.len() - i,
    {
        push_char(&mut out, bs[i]);
        assert(bs@.take(i + 1) =~= bs@.take(i as int).push(bs@[i as int]));
        i += 1;
    }
    assert(bs@.take(bs@.len() as int) =~= bs@);
    out
}

/// `a` followed by the characters of `b`.
pub fn concat_string(a: &String, b: &String) -> (r: String)
    ensures
        r@ == a@ + b@,
{
    concat(a, b.as_str())
}

/// Whether two character runs are equal.
pub fn chars_equal(a: &[char], b: &[char]) -> (r: bool)
    ensures
        r == (a@ == b@),
{
    if a.len() != b.len() {
        return false;
    }
    let mut i: usize = 0;
    while i < a.len()
        invariant
            i <= a@.len(),
            a@.len() == b@.len(),
            forall|j: int| 0 <= j < i ==> a@[j] == b@[j],
        decreases a.len() - i,
    {
        if a[i] != b[i] {
            return false;
        }
        i += 1;
    }
    assert(a@ =~= b@);
    true
}

/// Whether `cs[lo..hi]` spells `word`.
pub fn range_is(cs: &[char], lo: usize, hi: usize, word: &str) -> (r: bool)
    requires
        lo <= hi <= cs@.len(),
    ensures
        r == (cs@.subrange(lo as int, hi as int) == word@),
{
    let w = chars_of(word);
    if hi - lo != w.len() {
        return false;
    }
    let mut i: usize = 0;
    while i < w.len()
        invariant
            i <= w@.len(),
            w@ == word@,
            lo <= hi <= cs@.len(),
            hi - lo == w@.len(),
            forall|j: int| 0 <= j < i ==> cs@[lo + j] == w@[j],
        decreases w.len() - i,
    {
        if cs[lo + i] != w[i] {
            return false;
        }
        i += 1;
    }
    assert(cs@.subrange(lo as int, hi as int) =~= w@);
    true
}

/// Whether `text` spells `word`.
pub fn str_is(text: &str, word: &str) -> (r: bool)
    ensures
        r == (text@ == word@),
{
    let cs = chars_of(text);
    assert(cs@.subrange(0, cs@.len() as int) =~= cs@);
    range_is(&cs, 0, cs.len(), word)
}

/// Whether `cs[lo..hi]` begins with `word`.
pub fn range_starts_with(cs: &[char], lo: usize, hi: usize, word: &str) -> (r: bool)
    requires
        lo <= hi <= cs@.len(),
    ensures
        r == (word@.len() <= hi - lo && cs@.subrange(lo as int, lo + word@.len()) == word@),
{
    let w = chars_of(word);
    if w.len() > hi - lo {
        return false;
    }
    range_is(cs, lo, lo + w.len(), word)
}

/// The part of `s` left after dropping leading whitespace (`str::trim_start`).
pub open spec fn trim_start(s: Seq<char>) -> Seq<char>
    decreases s.len(),
{
    if s.len() > 0 && is_white(s[0]) {
        trim_start(s.drop_first())
    } else {
        s
    }
}

/// The part of `s` left after dropping trailing whitespace (`str::trim_end`).
pub open spec fn trim_end(s: Seq<char>) -> Seq<char>
    decreases s.len(),
{
    if s.len() > 0 && is_white(s.last()) {
        trim_end(s.drop_last())
    } else {
        s
    }
}

/// `s` with whitespace dropped at both ends (`str::trim`).
pub open spec fn trim(s: Seq<char>) -> Seq<char> {
    trim_end(trim_start(s))
}

/// Where `cs[lo..hi]` starts once leading whitespace is skipped.
pub fn skip_white(cs: &[char], lo: usize, hi: usize) -> (r: usize)
    requires
        lo <= hi <= cs@.len(),
    ensures
        lo <= r <= hi,
        cs@.subrange(r as int, hi as int) == trim_start(cs@.subrange(lo as int, hi as int)),
{
    let mut i = lo;
    while i < hi && is_whitespace(cs[i])
        invariant
            lo <= i <= hi <= cs@.len(),
            trim_start(cs@.subrange(i as int, hi as int)) == trim_start(
                cs@.subrange(lo as int, hi as int),
            ),
        decreases hi - i,
    {
        assert(cs@.subrange(i as int, hi as int).drop_first() =~= cs@.subrange(i + 1, hi as int));
        i += 1;
    }
    i
}

/// Where `cs[lo..hi]` ends once trailing whitespace is dropped.
pub fn drop_white_end(cs: &[char], lo: usize, hi: usize) -> (r: usize)
    requires
        lo <= hi <= cs@.len(),
    ensures
        lo <= r <= hi,
        cs@.subrange(lo as int, r as int) == trim_end(cs@.subrange(lo as int, hi as int)),
{
    let mut j = hi;
    while j > lo && is_whitespace(cs[j - 1])
        invariant
            lo <= j <= hi <= cs@.len(),
            trim_end(cs@.subrange(lo as int, j as int)) == trim_end(
                cs@.subrange(lo as int, hi as int),
            ),
        decreases j - lo,
    {
        assert(cs@.subrange(lo as int, j as int).drop_last() =~= cs@.subrange(lo as int, j - 1));
        j -= 1;
    }
    j
}

/// The bounds of `cs[lo..hi]` with whitespace trimmed at both ends.
pub fn trim_range(cs: &[char], lo: usize, hi: usize) -> (r: (usize, usize))
    requires
        lo <= hi <= cs@.len(),
    ensures
        lo <= r.0 <= r.1 <= hi,
        cs@.subrange(r.0 as int, r.1 as int) == trim(cs@.subrange(lo as int, hi as int)),
{
    let a = skip_white(cs, lo, hi);
    let b = drop_white_end(cs, a, hi);
    (a, b)
}

/// The position of the first `c` in `s`, or `s.len()` when there is none.
pub open spec fn find_char(s: Seq<char>, c: char) -> int
    decreases s.len(),
{
    if s.len() == 0 {
        0
    } else if s[0] == c {
        0
    } else {
        1 + find_char(s.drop_first(), c)
    }
}

/// `find_char` lands inside `s` exactly on an occurrence, after none.
pub proof fn lemma_find_char(s: Seq<char>, c: char)
    ensures
        0 <= find_char(s, c) <= s.len(),
        find_char(s, c) < s.len() ==> s[find_char(s, c)] == c,
        forall|j: int| 0 <= j < find_char(s, c) ==> s[j] != c,
    decreases s.len(),
{
    if s.len() > 0 && s[0] != c {
        lemma_find_char(s.drop_first(), c);
        assert forall|j: int| 0 <= j < find_char(s, c) implies s[j] != c by {
            if j > 0 {
                assert(s[j] == s.drop_first()[j - 1]);
            }
        }
    }
}

/// The position in `cs[lo..hi]` of the first `c`, or `hi`.
pub fn find_in(cs: &[char], lo: usize, hi: usize, c: char) -> (r: usize)
    requires
        lo <= hi <= cs@.len(),
    ensures
        lo <= r <= hi,
        r - lo == find_char(cs@.subrange(lo as int, hi as int), c),
{
    let mut i = lo;
    while i < hi && cs[i] != c
        invariant
            lo <= i <= hi <= cs@.len(),
            find_char(cs@.subrange(lo as int, hi as int), c) == (i - lo) + find_char(
                cs@.subrange(i as int, hi as int),
                c,
            ),
        decreases hi - i,
    {
        assert(cs@.subrange(i as int, hi as int).drop_first() =~= cs@.subrange(i + 1, hi as int));
        i += 1;
    }
    i
}

/// The line a `\n`-terminated chunk reads as: the `\n` and a `\r` before it
/// removed.
pub open spec fn strip_cr(line: Seq<char>) -> Seq<char> {
    if line.len() > 0 && line.last() == '\r' {
        line.drop_last()
    } else {
        line
    }
}

/// The lines of `s` exactly as `str::lines` yields them: split after each
/// `\n`, the `\n` and a `\r` just before it dropped, and no empty final line.
pub open spec fn lines(s: Seq<char>) -> Seq<Seq<char>>
    decreases s.len(),
{
    if s.len() == 0 {
        seq![]
    } else {
        let e = find_char(s, '\n');
        proof {
            lemma_find_char(s, '\n');
        }
        if e < s.len() {
            seq![strip_cr(s.take(e))] + lines(s.skip(e + 1))
        } else {
            seq![s]
        }
    }
}

/// The `(start, end)` bounds of every line of `cs`, in order.
pub fn line_ranges(cs: &[char]) -> (r: Vec<(usize, usize)>)
    ensures
        r@.len() == lines(cs@).len(),
        forall|k: int|
            0 <= k < r@.len() ==> {
                &&& (#[trigger] r@[k]).0 <= r@[k].1 <= cs@.len()
                &&& cs@.subrange(r@[k].0 as int, r@[k].1 as int) == lines(cs@)[k]
            },
{
    let mut out: Vec<(usize, usize)> = Vec::new();
    let mut pos: usize = 0;
    let n = cs.len();
    let ghost done: Seq<Seq<char>> = seq![];
    assert(cs@.skip(0) =~= cs@);
    while pos < n
        invariant
            pos <= n == cs@.len(),
            out@.len() == done.len(),
            done + lines(cs@.skip(pos as int)) == lines(cs@),
            forall|k: int|
                0 <= k < out@.len() ==> {
                    &&& (#[trigger] out@[k]).0 <= out@[k].1 <= cs@.len()
                    &&& cs@.subrange(out@[k].0 as int, out@[k].1 as int) == done[k]
                },
        decreases n - pos,
    {
        let e = find_in(cs, pos, n, '\n');
        let ghost rest = cs@.skip(pos as int);
        assert(cs@.subrange(pos as int, n as int) =~= rest);
        if e < n {
            let end = if e > pos && cs[e - 1] == '\r' {
                e - 1
            } else {
                e
            };
            proof {
                assert(rest.take(e - pos) =~= cs@.subrange(pos as int, e as int));
                assert(rest.skip(e - pos + 1) =~= cs@.skip(e + 1));
                if e > pos && cs@[e - 1] == '\r' {
                    assert(cs@.subrange(pos as int, e as int).drop_last() =~= cs@.subrange(
                        pos as int,
                        e - 1,
                    ));
                }
                assert(seq![strip_cr(rest.take(e - pos))] + lines(rest.skip(e - pos + 1)) == lines(
                    rest,
                ));
                assert((done.push(strip_cr(rest.take(e - pos)))) + lines(cs@.skip(e + 1)) =~= done
                    + lines(rest));
                done = done.push(strip_cr(rest.take(e - pos)));
            }
            out.push((pos, end));
            pos = e + 1;
        } else {
            proof {
                assert(lines(rest) == seq![rest]);
                assert(cs@.skip(n as int) =~= Seq::<char>::empty());
                assert(lines(cs@.skip(n as int)) =~= Seq::<Seq<char>>::empty());
                assert(done.push(rest) + lines(cs@.skip(n as int)) =~= done + lines(rest));
                done = done.push(rest);
            }
            out.push((pos, n));
            pos = n;
        }
    }
    assert(cs@.skip(n as int) =~= Seq::<char>::empty());
    assert(lines(cs@.skip(n as int)) =~= Seq::<Seq<char>>::empty());
    assert(done =~= lines(cs@));
    out
}

/// The pieces of `s` between occurrences of `c` (`str::split`): one more piece
/// than there are separators, empty pieces kept.
pub open spec fn split_on(s: Seq<char>, c: char) -> Seq<Seq<char>>
    decreases s.len(),
{
    let e = find_char(s, c);
    if e < s.len() {
        proof {
            lemma_find_char(s, c);
        }
        seq![s.take(e)] + split_on(s.skip(e + 1), c)
    } else {
        seq![s]
    }
}

/// The pieces of `cs[lo..hi]` between occurrences of `c`, as `String`s.
pub fn split_pieces(cs: &[char], lo: usize, hi: usize, c: char) -> (r: Vec<String>)
    requires
        lo <= hi <= cs@.len(),
    ensures
        strings_view(r@) == split_on(cs@.subrange(lo as int, hi as int), c),
{
    let mut out: Vec<String> = Vec::new();
    let mut pos: usize = lo;
    let ghost done: Seq<Seq<char>> = seq![];
    loop
        invariant
            lo <= pos <= hi <= cs@.len(),
            strings_view(out@) == done,
            done + split_on(cs@.subrange(pos as int, hi as int), c) == split_on(
                cs@.subrange(lo as int, hi as int),
                c,
            ),
        decreases hi - pos,
    {
        let e = find_in(cs, pos, hi, c);
        let ghost rest = cs@.subrange(pos as int, hi as int);
        let piece = string_of(cs, pos, e);
        let ghost prev = out@;
        out.push(piece);
        assert(strings_view(out@) =~= strings_view(prev).push(cs@.subrange(pos as int, e as int)));
        if e < hi {
            proof {
                lemma_find_char(rest, c);
                assert(rest.take(e - pos) =~= cs@.subrange(pos as int, e as int));
                assert(rest.skip(e - pos + 1) =~= cs@.subrange(e + 1, hi as int));
                assert(done.push(cs@.subrange(pos as int, e as int)) + split_on(
                    cs@.subrange(e + 1, hi as int),
                    c,
                ) =~= done + split_on(rest, c));
                done = done.push(cs@.subrange(pos as int, e as int));
            }
            pos = e + 1;
        } else {
            proof {
                assert(rest =~= cs@.subrange(pos as int, e as int));
                assert(done.push(rest) =~= done + split_on(rest, c));
                done = done.push(rest);
            }
            return out;
        }
    }
}

/// The character sequences a run of `String`s holds.
pub open spec fn strings_view(v: Seq<String>) -> Seq<Seq<char>> {
    v.map_values(|s: String| s@)
}

/// `pieces` joined with `sep` between neighbours (`join`).
pub open spec fn join_with(pieces: Seq<Seq<char>>, sep: Seq<char>) -> Seq<char>
    decreases pieces.len(),
{
    if pieces.len() == 0 {
        seq![]
    } else if pieces.len() == 1 {
        pieces[0]
    } else {
        join_with(pieces.drop_last(), sep) + sep + pieces.last()
    }
}

/// `pieces` joined with `sep`.
pub fn join_strings(pieces: &Vec<String>, sep: &str) -> (r: String)
    ensures
        r@ == join_with(strings_view(pieces@), sep@),
{
    let mut out = String::new();
    let mut i: usize = 0;
    while i < pieces.len()
        invariant
            i <= pieces@.len(),
            out@ == join_with(strings_view(pieces@.take(i as int)), sep@),
        decreases pieces.len() - i,
    {
        let ghost before = pieces@.take(i as int);
        assert(strings_view(pieces@.take(i + 1)).drop_last() =~= strings_view(before));
        if i > 0 {
            out = concat(&out, sep);
        }
        out = concat_string(&out, &pieces[i]);
        assert(strings_view(pieces@.take(i + 1)).last() == pieces@[i as int]@);
        if i == 0 {
            assert(out@ =~= pieces@[0]@);
        }
        i += 1;
    }
    assert(pieces@.take(i as int) =~= pieces@);
    out
}

/// `a` sorts strictly before `b`: the first differing character decides, by
/// code point, and a proper prefix sorts first. This is `str`'s own order, since
/// UTF-8 keeps code point order byte for byte.
pub open spec fn lex_lt(a: Seq<char>, b: Seq<char>) -> bool
    decreases a.len(),
{
    if b.len() == 0 {
        false
    } else if a.len() == 0 {
        true
    } else if a[0] < b[0] {
        true
    } else if a[0] > b[0] {
        false
    } else {
        lex_lt(a.drop_first(), b.drop_first())
    }
}

/// `lex_lt` is a strict total order: irreflexive and asymmetric.
pub proof fn lemma_lex_asymmetric(a: Seq<char>, b: Seq<char>)
    ensures
        !(lex_lt(a, b) && lex_lt(b, a)),
        !lex_lt(a, a),
    decreases a.len(),
{
    if a.len() > 0 && b.len() > 0 && a[0] == b[0] {
        lemma_lex_asymmetric(a.drop_first(), b.drop_first());
    }
    if a.len() > 0 {
        lemma_lex_asymmetric(a.drop_first(), a.drop_first());
    }
}

/// `lex_lt` is transitive.
pub proof fn lemma_lex_transitive(a: Seq<char>, b: Seq<char>, c: Seq<char>)
    requires
        lex_lt(a, b),
        lex_lt(b, c),
    ensures
        lex_lt(a, c),
    decreases a.len(),
{
    if a.len() > 0 && b.len() > 0 && c.len() > 0 && a[0] == b[0] && b[0] == c[0] {
        lemma_lex_transitive(a.drop_first(), b.drop_first(), c.drop_first());
    }
}

/// Of two different texts, one sorts before the other.
pub proof fn lemma_lex_total(a: Seq<char>, b: Seq<char>)
    requires
        a != b,
    ensures
        lex_lt(a, b) || lex_lt(b, a),
    decreases a.len(),
{
    if a.len() > 0 && b.len() > 0 && a[0] == b[0] {
        if a.drop_first() == b.drop_first() {
            assert(a =~= seq![a[0]] + a.drop_first());
            assert(b =~= seq![b[0]] + b.drop_first());
        }
        lemma_lex_total(a.drop_first(), b.drop_first());
    } else if a.len() == 0 && b.len() == 0 {
        assert(a =~= b);
    }
}

/// Whether `a` sorts strictly before `b`.
pub fn chars_lt(a: &[char], b: &[char]) -> (r: bool)
    ensures
        r == lex_lt(a@, b@),
{
    let mut i: usize = 0;
    assert(a@.skip(0) =~= a@);
    assert(b@.skip(0) =~= b@);
    while i < a.len() && i < b.len() && a[i] == b[i]
        invariant
            i <= a@.len(),
            i <= b@.len(),
            lex_lt(a@, b@) == lex_lt(a@.skip(i as int), b@.skip(i as int)),
        decreases a.len() - i,
    {
        assert(a@.skip(i as int).drop_first() =~= a@.skip(i + 1));
        assert(b@.skip(i as int).drop_first() =~= b@.skip(i + 1));
        i += 1;
    }
    if i == b.len() {
        false
    } else if i == a.len() {
        true
    } else {
        let x = a[i];
        let y = b[i];
        assert(a@.skip(i as int)[0] == x);
        assert(b@.skip(i as int)[0] == y);
        x < y
    }
}

/// Lower-case letters (`str::to_lowercase`), as Unicode defines them.
pub uninterp spec fn lowercase(s: Seq<char>) -> Seq<char>;

/// `str::to_lowercase`: the Unicode lower-casing of `text`, a function of the
/// text alone.
#[verifier::external_body]
pub(crate) fn to_lowercase(text: &str) -> (r: String)
    ensures
        r@ == lowercase(text@),
{
    text.to_lowercase()
}

/// `c` with an ASCII capital folded to lower case; other characters unchanged.
pub open spec fn ascii_lower(c: char) -> char {
    if 'A' <= c && c <= 'Z' {
        ((c as u32) + 32) as char
    } else {
        c
    }
}

/// Equal ignoring ASCII case (`str::eq_ignore_ascii_case`).
pub open spec fn eq_ignore_ascii_case(a: Seq<char>, b: Seq<char>) -> bool {
    a.len() == b.len() && forall|i: int| 0 <= i < a.len() ==> ascii_lower(a[i]) == ascii_lower(b[i])
}

/// `c` with an ASCII capital folded to lower case.
pub fn to_ascii_lower(c: char) -> (r: char)
    ensures
        r == ascii_lower(c),
{
    if 'A' <= c && c <= 'Z' {
        ((c as u8) + 32) as char
    } else {
        c
    }
}

/// Whether `a` and `b` are equal ignoring ASCII case.
pub fn chars_eq_ignore_ascii_case(a: &[char], b: &[char]) -> (r: bool)
    ensures
        r == eq_ignore_ascii_case(a@, b@),
{
    if a.len() != b.len() {
        return false;
    }
    let mut i: usize = 0;
    while i < a.len()
        invariant
            i <= a@.len(),
            a@.len() == b@.len(),
            forall|j: int| 0 <= j < i ==> ascii_lower(a@[j]) == ascii_lower(b@[j]),
        decreases a.len() - i,
    {
        if to_ascii_lower(a[i]) != to_ascii_lower(b[i]) {
            return false;
        }
        i += 1;
    }
    true
}


/// The decimal digit `d` (below ten) as a character.
pub open spec fn digit_char(d: nat) -> char {
    if d == 0 {
        '0'
    } else if d == 1 {
        '1'
    } else if d == 2 {
        '2'
    } else if d == 3 {
        '3'
    } else if d == 4 {
        '4'
    } else if d == 5 {
        '5'
    } else if d == 6 {
        '6'
    } else if d == 7 {
        '7'
    } else if d == 8 {
        '8'
    } else {
        '9'
    }
}

/// `n` written in decimal, without leading zeros.
pub open spec fn decimal_text(n: nat) -> Seq<char>
    decreases n,
{
    if n < 10 {
        seq![digit_char(n)]
    } else {
        decimal_text(n / 10).push(digit_char(n % 10))
    }
}

/// The digit `d` as a character.
fn digit_of(d: usize) -> (r: char)
    requires
        d < 10,
    ensures
        r == digit_char(d as nat),
{
    if d == 0 {
        '0'
    } else if d == 1 {
        '1'
    } else if d == 2 {
        '2'
    } else if d == 3 {
        '3'
    } else if d == 4 {
        '4'
    } else if d == 5 {
        '5'
    } else if d == 6 {
        '6'
    } else if d == 7 {
        '7'
    } else if d == 8 {
        '8'
    } else {
        '9'
    }
}

/// `n` in decimal (`n.to_string()`).
pub fn usize_text(n: usize) -> (r: String)
    ensures
        r@ == decimal_text(n as nat),
    decreases n,
{
    if n < 10 {
        let mut out = String::new();
        push_char(&mut out, digit_of(n));
        assert(out@ =~= seq![digit_char(n as nat)]);
        out
    } else {
        let mut out = usize_text(n / 10);
        push_char(&mut out, digit_of(n % 10));
        out
    }
}


/// An integer written in decimal, with a leading `-` when negative.
pub open spec fn int_text(n: int) -> Seq<char> {
    if n < 0 {
        seq!['-'] + decimal_text((-n) as nat)
    } else {
        decimal_text(n as nat)
    }
}

/// `n` in decimal (`n.to_string()`).
pub fn u64_text(n: u64) -> (r: String)
    ensures
        r@ == decimal_text(n as nat),
    decreases n,
{
    if n < 10 {
        let mut out = String::new();
        push_char(&mut out, digit_of(n as usize));
        assert(out@ =~= seq![digit_char(n as nat)]);
        out
    } else {
        let mut out = u64_text(n / 10);
        push_char(&mut out, digit_of((n % 10) as usize));
        out
    }
}

/// `n` in decimal, signed (`n.to_string()`).
pub fn i64_text(n: i64) -> (r: String)
    ensures
        r@ == int_text(n as int),
{
    if n < 0 {
        let m: u64 = if n == i64::MIN {
            9223372036854775808u64
        } else {
            (-n) as u64
        };
        let mut out = String::new();
        push_char(&mut out, '-');
        let digits = u64_text(m);
        let joined = concat_string(&out, &digits);
        assert(out@ =~= seq!['-']);
        joined
    } else {
        u64_text(n as u64)
    }
}

} // verus!
