//! Structure of a `log.md` reserved file: its date headings must be ISO
//! 8601 `YYYY-MM-DD` (an explicit MUST) and are meant to run newest-first. This
//! module reads only the headings; entry resolution is the bundle's job.

use vstd::prelude::*;

use crate::concept::is_code_fence;
use crate::links::ranges_match;
use crate::text::{
    chars_lt, chars_of, chars_of_string, lex_lt, line_ranges, lines, range_starts_with,
    skip_white, string_of, strings_view, trim, trim_range, trim_start,
};
use crate::timestamp::number;

verus! {

/// A `YYYY-MM-DD` date: ten characters, hyphens in place, digits elsewhere, and
/// a plausible month (1 to 12) and day (1 to 31). Full calendar validity is
/// more than a log needs.
pub open spec fn is_iso_date(s: Seq<char>) -> bool {
    &&& s.len() == 10
    &&& s[4] == '-'
    &&& s[7] == '-'
    &&& number(s.subrange(0, 4)) is Some
    &&& number(s.subrange(5, 7)) matches Some(m) && 1 <= m <= 12
    &&& number(s.subrange(8, 10)) matches Some(d) && 1 <= d <= 31
}

/// The `## ` heading texts among `ls`, trimmed, outside fenced code.
pub open spec fn headings_from(ls: Seq<Seq<char>>, in_fence: bool) -> Seq<Seq<char>>
    decreases ls.len(),
{
    if ls.len() == 0 {
        seq![]
    } else if is_code_fence(ls[0]) {
        headings_from(ls.drop_first(), !in_fence)
    } else {
        let t = trim_start(ls[0]);
        if !in_fence && t.len() >= 3 && t[0] == '#' && t[1] == '#' && t[2] == ' ' {
            seq![trim(t.skip(3))] + headings_from(ls.drop_first(), in_fence)
        } else {
            headings_from(ls.drop_first(), in_fence)
        }
    }
}

/// The headings of `hs` that are (`iso`) or are not ISO dates, in order.
pub open spec fn keep_dates(hs: Seq<Seq<char>>, iso: bool) -> Seq<Seq<char>>
    decreases hs.len(),
{
    if hs.len() == 0 {
        seq![]
    } else if is_iso_date(hs.last()) == iso {
        keep_dates(hs.drop_last(), iso).push(hs.last())
    } else {
        keep_dates(hs.drop_last(), iso)
    }
}

/// Some date sorts before the one after it: not newest-first.
pub open spec fn ascending_somewhere(ds: Seq<Seq<char>>) -> bool {
    exists|i: int| 0 <= i < ds.len() - 1 && lex_lt(#[trigger] ds[i], ds[i + 1])
}

/// A plausible `YYYY-MM-DD` is never held against a log: four digits, `-`,
/// a month 01 to 12, `-`, and a day 01 to 31 is an ISO date heading, and no
/// list of headings reports it as one that is not.
pub proof fn lemma_plausible_dates_are_iso(s: Seq<char>, hs: Seq<Seq<char>>)
    requires
        s.len() == 10,
        s[4] == '-',
        s[7] == '-',
        forall|i: int| 0 <= i < 10 && i != 4 && i != 7 ==> crate::text::is_digit(#[trigger] s[i]),
        1 <= crate::timestamp::digit_value(s[5]) * 10 + crate::timestamp::digit_value(s[6]) <= 12,
        1 <= crate::timestamp::digit_value(s[8]) * 10 + crate::timestamp::digit_value(s[9]) <= 31,
    ensures
        is_iso_date(s),
        !keep_dates(hs, false).contains(s),
    decreases hs.len(),
{
    assert(crate::text::is_digit(s[5]) && crate::text::is_digit(s[6]));
    assert(crate::text::is_digit(s[8]) && crate::text::is_digit(s[9]));
    crate::timestamp::lemma_two_digits(s[5], s[6]);
    crate::timestamp::lemma_two_digits(s[8], s[9]);
    assert(s.subrange(5, 7) =~= seq![s[5], s[6]]);
    assert(s.subrange(8, 10) =~= seq![s[8], s[9]]);
    assert(crate::timestamp::all_digits(s.subrange(0, 4))) by {
        assert forall|i: int| 0 <= i < 4 implies crate::text::is_digit(#[trigger] s.subrange(0, 4)[i]) by {
            assert(s.subrange(0, 4)[i] == s[i]);
        }
    }
    if hs.len() > 0 {
        lemma_plausible_dates_are_iso(s, hs.drop_last());
        if keep_dates(hs, false).contains(s) {
            let k = choose|k: int| 0 <= k < keep_dates(hs, false).len() && keep_dates(hs, false)[k] == s;
            if is_iso_date(hs.last()) == false {
                assert(keep_dates(hs, false) == keep_dates(hs.drop_last(), false).push(hs.last()));
                if k < keep_dates(hs.drop_last(), false).len() {
                    assert(keep_dates(hs.drop_last(), false)[k] == s);
                } else {
                    assert(hs.last() == s);
                }
            } else {
                assert(keep_dates(hs.drop_last(), false)[k] == s);
            }
        }
    }
}

/// What a log's date headings violate.
pub struct HeadingCheck {
    /// The `## ` heading texts that are not `YYYY-MM-DD`.
    pub non_iso: Vec<String>,
    /// Whether the valid dates are out of newest-first (descending) order.
    pub out_of_order: bool,
}

/// Whether `cs[lo..hi]` is an ISO date.
fn iso_date_at(cs: &[char], lo: usize, hi: usize) -> (r: bool)
    requires
        lo <= hi <= cs@.len(),
    ensures
        r == is_iso_date(cs@.subrange(lo as int, hi as int)),
{
    let ghost s = cs@.subrange(lo as int, hi as int);
    if hi - lo != 10 || cs[lo + 4] != '-' || cs[lo + 7] != '-' {
        return false;
    }
    assert(s.subrange(0, 4) =~= cs@.subrange(lo as int, lo + 4));
    assert(s.subrange(5, 7) =~= cs@.subrange(lo + 5, lo + 7));
    assert(s.subrange(8, 10) =~= cs@.subrange(lo + 8, lo + 10));
    let y = crate::timestamp::digits(cs, lo, lo + 4);
    let m = crate::timestamp::digits(cs, lo + 5, lo + 7);
    let d = crate::timestamp::digits(cs, lo + 8, lo + 10);
    match (y, m, d) {
        (Some(_), Some(m), Some(d)) => 1 <= m && m <= 12 && 1 <= d && d <= 31,
        _ => false,
    }
}

/// The `## ` heading texts of a body, trimmed, outside fenced code.
fn headings(cs: &[char]) -> (r: Vec<String>)
    ensures
        strings_view(r@) == headings_from(lines(cs@), false),
{
    let ranges = line_ranges(cs);
    let ghost ls = lines(cs@);
    let mut out: Vec<String> = Vec::new();
    let mut in_fence = false;
    let mut k: usize = 0;
    assert(ls.skip(0) =~= ls);
    while k < ranges.len()
        invariant
            k <= ranges@.len(),
            ls == lines(cs@),
            ranges_match(cs@, ranges@, ls),
            strings_view(out@) + headings_from(ls.skip(k as int), in_fence) == headings_from(
                ls,
                false,
            ),
        decreases ranges.len() - k,
    {
        let (lo, hi) = ranges[k];
        let ghost rest = ls.skip(k + 1);
        let ghost line = cs@.subrange(lo as int, hi as int);
        assert(ls.skip(k as int)[0] == ls[k as int]);
        assert(ls.skip(k as int).drop_first() =~= rest);
        assert(ls[k as int] == line);
        let ghost prev = strings_view(out@);
        let ghost was = in_fence;
        if crate::links::fence_at(cs, lo, hi) {
            in_fence = !in_fence;
            assert(headings_from(ls.skip(k as int), was) == headings_from(rest, in_fence));
        } else {
            let a = skip_white(cs, lo, hi);
            let ghost t = cs@.subrange(a as int, hi as int);
            assert(t == trim_start(line));
            let opens = range_starts_with(cs, a, hi, "## ");
            proof {
                reveal_strlit("## ");
                if t.len() >= 3 {
                    assert(t[0] == cs@[a as int] && t[1] == cs@[a + 1] && t[2] == cs@[a + 2]);
                    let w = cs@.subrange(a as int, a + 3);
                    assert(w[0] == cs@[a as int] && w[1] == cs@[a + 1] && w[2] == cs@[a + 2]);
                    assert(opens == (t[0] == '#' && t[1] == '#' && t[2] == ' ')) by {
                        if t[0] == '#' && t[1] == '#' && t[2] == ' ' {
                            assert(w =~= "## "@);
                        }
                    }
                }
            }
            if !in_fence && opens {
                let (x, y) = trim_range(cs, a + 3, hi);
                proof {
                    assert(t.skip(3) =~= cs@.subrange(a + 3, hi as int));
                    assert(headings_from(ls.skip(k as int), was) == seq![
                        cs@.subrange(x as int, y as int),
                    ] + headings_from(rest, in_fence));
                }
                out.push(string_of(cs, x, y));
                assert(strings_view(out@) =~= prev.push(cs@.subrange(x as int, y as int)));
                assert(strings_view(out@) + headings_from(rest, in_fence) =~= prev + (seq![
                    cs@.subrange(x as int, y as int),
                ] + headings_from(rest, in_fence)));
            } else {
                assert(headings_from(ls.skip(k as int), was) == headings_from(rest, in_fence));
            }
        }
        k += 1;
    }
    assert(ls.skip(k as int) =~= Seq::<Seq<char>>::empty());
    out
}

/// Read a log's `## ` date headings, skipping fenced code: the ones that are
/// not ISO dates, and whether the ISO ones fail to run newest-first.
pub fn check_headings(body: &str) -> (r: HeadingCheck)
    ensures
        strings_view(r.non_iso@) == keep_dates(headings_from(lines(body@), false), false),
        r.out_of_order == ascending_somewhere(
            keep_dates(headings_from(lines(body@), false), true),
        ),
{
    let cs = chars_of(body);
    let hs = headings(&cs);
    let ghost hv = strings_view(hs@);
    let mut non_iso: Vec<String> = Vec::new();
    let mut dates: Vec<Vec<char>> = Vec::new();
    let mut i: usize = 0;
    while i < hs.len()
        invariant
            i <= hs@.len(),
            hv == strings_view(hs@),
            strings_view(non_iso@) == keep_dates(hv.take(i as int), false),
            dates@.map_values(|d: Vec<char>| d@) == keep_dates(hv.take(i as int), true),
        decreases hs.len() - i,
    {
        assert(hv.take(i + 1).drop_last() =~= hv.take(i as int));
        assert(hv.take(i + 1).last() == hs@[i as int]@);
        let h = chars_of_string(&hs[i]);
        assert(h@.subrange(0, h@.len() as int) =~= h@);
        if iso_date_at(&h, 0, h.len()) {
            let ghost prev = dates@;
            dates.push(h);
            assert(dates@.map_values(|d: Vec<char>| d@) =~= prev.map_values(|d: Vec<char>| d@).push(
                hs@[i as int]@,
            ));
        } else {
            let ghost prev = non_iso@;
            non_iso.push(hs[i].clone());
            assert(strings_view(non_iso@) =~= strings_view(prev).push(hs@[i as int]@));
        }
        i += 1;
    }
    assert(hv.take(i as int) =~= hv);
    let ghost dv = dates@.map_values(|d: Vec<char>| d@);
    let mut out_of_order = false;
    let n = dates.len();
    let mut j: usize = 1;
    while j < n
        invariant
            1 <= j,
            j <= n || j == 1,
            n == dates@.len(),
            dv == dates@.map_values(|d: Vec<char>| d@),
            out_of_order == exists|k: int| 0 <= k < j - 1 && lex_lt(#[trigger] dv[k], dv[k + 1]),
        decreases n - j,
    {
        assert(dv[j - 1] == dates@[j - 1]@);
        assert(dv[j as int] == dates@[j as int]@);
        let up = chars_lt(&dates[j - 1], &dates[j]);
        let ghost before = out_of_order;
        if up {
            out_of_order = true;
        }
        proof {
            if up {
                assert(lex_lt(dv[j - 1], dv[(j - 1) + 1]));
            } else if before {
                let k = choose|k: int| 0 <= k < j - 1 && lex_lt(#[trigger] dv[k], dv[k + 1]);
                assert(0 <= k < j && lex_lt(dv[k], dv[k + 1]));
            } else {
                assert forall|k: int| 0 <= k < j implies !lex_lt(#[trigger] dv[k], dv[k + 1]) by {
                    if k == j - 1 {
                    } else {
                        assert(0 <= k < j - 1);
                    }
                }
            }
        }
        j += 1;
    }
    proof {
        assert(dv.len() == n);
        if ascending_somewhere(dv) {
            let k = choose|k: int| 0 <= k < dv.len() - 1 && lex_lt(#[trigger] dv[k], dv[k + 1]);
            assert(0 <= k < j - 1);
        }
        if out_of_order {
            let k = choose|k: int| 0 <= k < j - 1 && lex_lt(#[trigger] dv[k], dv[k + 1]);
            assert(n > 0 && j == n);
            assert(0 <= k < dv.len() - 1);
        }
    }
    HeadingCheck { non_iso, out_of_order }
}

} // verus!
