//! A whole OKF Knowledge Bundle held in memory: the concepts a directory tree
//! yields, keyed by Concept ID, and the findings reading it produced.
//!
//! This crate owns identity: a Concept ID is the file's bundle-relative path
//! with `.md` removed, and the reserved `index.md` / `log.md` are excluded from
//! the concept set; their own structure is checked once the whole tree is known.
//! Walking a directory and reading files is the caller's part: it hands each
//! file over with [`Bundle::add_file`] (or all at once to
//! [`Bundle::from_files`]), and everything read from there on happens here.

use vstd::prelude::*;

use crate::concept::{
    empty_section_from, field_attester, field_executor, field_generated, field_parameters,
    field_receipt_malformed, field_sources, field_string, field_usage_window, field_verified,
    has_heading_from, Concept, SourceReading,
};
use crate::finding::{Finding, Rule, RuleId, RuleName};
use crate::text::{
    concat, concat_string, decimal_text, find_char, find_in, is_alnum, join_strings, join_with,
    lemma_find_char, lines, string_from, strings_view, trim, usize_text,
};
use crate::timestamp::{calendar_date, rfc3339, Date, Timestamp};
use crate::yaml::{lookup, Yaml};

verus! {

// ---------------------------------------------------------------------------
// Findings as values.
// ---------------------------------------------------------------------------
/// A finding by its parts: file, rule, detail.
pub open spec fn finding_parts(f: Finding) -> (Seq<char>, RuleName, Seq<char>) {
    (f.file@, f.rule@, f.detail@)
}

/// A run of findings by their parts.
pub open spec fn findings_view(v: Seq<Finding>) -> Seq<(Seq<char>, RuleName, Seq<char>)> {
    v.map_values(|f: Finding| finding_parts(f))
}

/// A finding under one of the format's own rules.
pub open spec fn rule_finding(file: Seq<char>, rule: Rule, detail: Seq<char>) -> (
    Seq<char>,
    RuleName,
    Seq<char>,
) {
    (file, RuleName::Spec(rule), detail)
}

/// Append a finding under one of the format's own rules.
fn push_finding(out: &mut Vec<Finding>, file: &str, rule: Rule, detail: String)
    ensures
        findings_view(final(out)@) == findings_view(old(out)@).push(
            rule_finding(file@, rule, detail@),
        ),
{
    let ghost before = out@;
    out.push(Finding::new(string_from(file), RuleId::Spec(rule), detail));
    assert(findings_view(out@) =~= findings_view(before).push(rule_finding(file@, rule, detail@)));
}

/// Whether a present value is blank: missing, or only whitespace.
pub open spec fn blank(v: Option<Seq<char>>) -> bool {
    match v {
        Some(s) => trim(s).len() == 0,
        None => true,
    }
}

/// Whether a value is only whitespace.
fn is_blank(s: &str) -> (r: bool)
    ensures
        r == (trim(s@).len() == 0),
{
    let cs = crate::text::chars_of(s);
    let (a, b) = crate::text::trim_range(&cs, 0, cs.len());
    assert(cs@.subrange(0, cs@.len() as int) =~= cs@);
    a == b
}

/// A field name with a list position: `prefix` + `i` + `rest`, as in
/// `verified[0].by`.
pub open spec fn field_at(prefix: Seq<char>, i: nat, rest: Seq<char>) -> Seq<char> {
    prefix + decimal_text(i) + rest
}

/// Build [`field_at`].
fn field_name(prefix: &str, i: usize, rest: &str) -> (r: String)
    ensures
        r@ == field_at(prefix@, i as nat, rest@),
{
    concat(&concat_string(&string_from(prefix), &usize_text(i)), rest)
}

/// `` `field` = `value` `` followed by `tail`.
pub open spec fn quoted(field: Seq<char>, value: Seq<char>, tail: Seq<char>) -> Seq<char> {
    "`"@ + field + "` = `"@ + value + tail
}

/// Build [`quoted`].
fn quote(field: &str, value: &str, tail: &str) -> (r: String)
    ensures
        r@ == quoted(field@, value@, tail@),
{
    let mut d = string_from("`");
    d = concat(&d, field);
    d = concat(&d, "` = `");
    d = concat(&d, value);
    concat(&d, tail)
}

// ---------------------------------------------------------------------------
// Actors, dates and datetimes.
// ---------------------------------------------------------------------------
/// Every character of a scheme is an ASCII letter or digit, `_` or `-`.
pub open spec fn is_scheme_name(s: Seq<char>) -> bool {
    forall|j: int| 0 <= j < s.len() ==> is_alnum(#[trigger] s[j]) || s[j] == '_' || s[j] == '-'
}

/// A well-formed actor, read permissively: a `producer/version` pair split at
/// the first `/`, or — with no `/` — a `scheme:id` split at the first `:`,
/// with a non-empty scheme of letters, digits, `_` and `-`, and a non-empty id.
pub open spec fn is_actor(v: Seq<char>) -> bool {
    let slash = find_char(v, '/');
    let colon = find_char(v, ':');
    if slash < v.len() {
        0 < slash && slash + 1 < v.len()
    } else if colon < v.len() {
        0 < colon && colon + 1 < v.len() && is_scheme_name(v.take(colon))
    } else {
        false
    }
}

/// Who may be named as an actor: any `scheme:id` with no `/`, whose scheme
/// is ASCII letters, digits, `_` and `-` and not empty and whose id is
/// anything not empty; and any `producer/version` with both sides not empty
/// and no `/` in the producer.
pub proof fn lemma_actors_accepted(scheme: Seq<char>, id: Seq<char>, producer: Seq<char>, version: Seq<char>)
    ensures
        scheme.len() > 0 && id.len() > 0 && (forall|j: int|
            0 <= j < scheme.len() ==> ('a' <= #[trigger] scheme[j] && scheme[j] <= 'z') || ('A'
                <= scheme[j] && scheme[j] <= 'Z') || ('0' <= scheme[j] && scheme[j] <= '9')
                || scheme[j] == '_' || scheme[j] == '-') && (forall|j: int|
            0 <= j < id.len() ==> #[trigger] id[j] != '/') ==> is_actor(scheme + seq![':'] + id),
        producer.len() > 0 && version.len() > 0 && (forall|j: int|
            0 <= j < producer.len() ==> #[trigger] producer[j] != '/') ==> is_actor(
            producer + seq!['/'] + version,
        ),
{
    let v = scheme + seq![':'] + id;
    if scheme.len() > 0 && id.len() > 0 && (forall|j: int|
        0 <= j < scheme.len() ==> ('a' <= #[trigger] scheme[j] && scheme[j] <= 'z') || ('A'
            <= scheme[j] && scheme[j] <= 'Z') || ('0' <= scheme[j] && scheme[j] <= '9')
            || scheme[j] == '_' || scheme[j] == '-') && (forall|j: int|
        0 <= j < id.len() ==> #[trigger] id[j] != '/') {
        lemma_find_char(v, '/');
        lemma_find_char(v, ':');
        let n = scheme.len() as int;
        assert forall|j: int| 0 <= j < v.len() implies v[j] != '/' by {
            if j < n {
                assert(v[j] == scheme[j]);
            } else if j > n {
                assert(v[j] == id[j - n - 1]);
            }
        }
        assert(v[n] == ':');
        assert(find_char(v, ':') == n) by {
            if find_char(v, ':') < n {
                assert(v[find_char(v, ':')] == scheme[find_char(v, ':')]);
            }
        }
        if find_char(v, '/') < v.len() {
            assert(v[find_char(v, '/')] == '/');
        }
        assert(v.take(n) =~= scheme);
    }
    let w = producer + seq!['/'] + version;
    if producer.len() > 0 && version.len() > 0 && (forall|j: int|
        0 <= j < producer.len() ==> #[trigger] producer[j] != '/') {
        lemma_find_char(w, '/');
        let n = producer.len() as int;
        assert(w[n] == '/');
        assert(find_char(w, '/') == n) by {
            if find_char(w, '/') < n {
                assert(w[find_char(w, '/')] == producer[find_char(w, '/')]);
            }
        }
    }
}

/// Whether `value` is a well-formed actor (see [`is_actor`]).
pub fn actor_ok(value: &str) -> (r: bool)
    ensures
        r == is_actor(value@),
{
    let cs = crate::text::chars_of(value);
    let n = cs.len();
    assert(cs@.subrange(0, n as int) =~= cs@);
    let slash = find_in(&cs, 0, n, '/');
    if slash < n {
        return 0 < slash && slash + 1 < n;
    }
    let colon = find_in(&cs, 0, n, ':');
    if colon < n {
        if !(0 < colon && colon + 1 < n) {
            return false;
        }
        let mut j: usize = 0;
        while j < colon
            invariant
                colon < n == cs@.len(),
                cs@ == value@,
                find_char(cs@, '/') == n,
                find_char(cs@, ':') == colon,
                0 < colon && colon + 1 < n,
                j <= colon,
                forall|k: int|
                    0 <= k < j ==> is_alnum(#[trigger] cs@[k]) || cs@[k] == '_' || cs@[k] == '-',
            decreases colon - j,
        {
            let c = cs[j];
            if !(crate::text::is_ascii_alnum(c) || c == '_' || c == '-') {
                assert(cs@.take(colon as int)[j as int] == c);
                return false;
            }
            j += 1;
        }
        assert(is_scheme_name(cs@.take(colon as int))) by {
            assert forall|k: int| 0 <= k < colon implies is_alnum(#[trigger] cs@.take(
                colon as int,
            )[k]) || cs@.take(colon as int)[k] == '_' || cs@.take(colon as int)[k] == '-' by {
                assert(cs@.take(colon as int)[k] == cs@[k]);
            }
        }
        return true;
    }
    false
}

/// A `CONCEPT-5` finding when `value` is not a well-formed actor.
pub open spec fn actor_part(file: Seq<char>, field: Seq<char>, value: Seq<char>) -> Seq<
    (Seq<char>, RuleName, Seq<char>),
> {
    if is_actor(value) {
        seq![]
    } else {
        seq![
            rule_finding(
                file,
                Rule::MalformedActor,
                quoted(field, value, "` is not a `producer/version` or `scheme:id` actor"@),
            ),
        ]
    }
}

/// A `CONCEPT-14` finding when `value` is not a `YYYY-MM-DD` date.
pub open spec fn date_part(file: Seq<char>, field: Seq<char>, value: Seq<char>) -> Seq<
    (Seq<char>, RuleName, Seq<char>),
> {
    if calendar_date(value) is Some {
        seq![]
    } else {
        seq![
            rule_finding(
                file,
                Rule::MalformedSourceSignal,
                quoted(field, value, "` is not a `YYYY-MM-DD` date"@),
            ),
        ]
    }
}

/// A `CONCEPT-12` finding when `value` is not an RFC 3339 datetime. The finding
/// quotes the value, because the failure it exists for is a timestamp that
/// looks right: `2026-W01-1T00:00:00Z` differs from the calendar form in one
/// character and denotes a date eight days earlier.
pub open spec fn timestamp_part(file: Seq<char>, field: Seq<char>, value: Seq<char>) -> Seq<
    (Seq<char>, RuleName, Seq<char>),
> {
    if rfc3339(value) is Some {
        seq![]
    } else if trim(value).len() == 0 {
        seq![rule_finding(file, Rule::MalformedTimestamp, "`"@ + field + "` is empty"@)]
    } else {
        seq![
            rule_finding(
                file,
                Rule::MalformedTimestamp,
                quoted(field, value, "` is not an RFC 3339 datetime"@),
            ),
        ]
    }
}

/// A part that applies only to a present value.
pub open spec fn present_actor(file: Seq<char>, field: Seq<char>, v: Option<Seq<char>>) -> Seq<
    (Seq<char>, RuleName, Seq<char>),
> {
    match v {
        Some(s) => actor_part(file, field, s),
        None => seq![],
    }
}

/// [`date_part`] for a present value.
pub open spec fn present_date(file: Seq<char>, field: Seq<char>, v: Option<Seq<char>>) -> Seq<
    (Seq<char>, RuleName, Seq<char>),
> {
    match v {
        Some(s) => date_part(file, field, s),
        None => seq![],
    }
}

/// [`timestamp_part`] for a present value.
pub open spec fn present_timestamp(file: Seq<char>, field: Seq<char>, v: Option<Seq<char>>) -> Seq<
    (Seq<char>, RuleName, Seq<char>),
> {
    match v {
        Some(s) => timestamp_part(file, field, s),
        None => seq![],
    }
}

/// The `CONCEPT-14` findings for a `{ from, to }` window, `from` first.
pub open spec fn window_part(
    file: Seq<char>,
    field: Seq<char>,
    w: Option<(Option<Seq<char>>, Option<Seq<char>>)>,
) -> Seq<(Seq<char>, RuleName, Seq<char>)> {
    match w {
        Some((from, to)) => present_date(file, field + ".from"@, from) + present_date(
            file,
            field + ".to"@,
            to,
        ),
        None => seq![],
    }
}

/// Append [`actor_part`].
fn push_actor(out: &mut Vec<Finding>, file: &str, field: &str, value: &str)
    ensures
        findings_view(final(out)@) == findings_view(old(out)@) + actor_part(file@, field@, value@),
{
    if actor_ok(value) {
        assert(findings_view(out@) =~= findings_view(out@) + actor_part(file@, field@, value@));
    } else {
        let ghost before = findings_view(out@);
        let d = quote(field, value, "` is not a `producer/version` or `scheme:id` actor");
        push_finding(out, file, Rule::MalformedActor, d);
        assert(findings_view(out@) =~= before + actor_part(file@, field@, value@));
    }
}

/// Append [`date_part`].
fn push_date(out: &mut Vec<Finding>, file: &str, field: &str, value: &str)
    ensures
        findings_view(final(out)@) == findings_view(old(out)@) + date_part(file@, field@, value@),
{
    if Date::parse(value).is_some() {
        assert(findings_view(out@) =~= findings_view(out@) + date_part(file@, field@, value@));
    } else {
        let ghost before = findings_view(out@);
        let d = quote(field, value, "` is not a `YYYY-MM-DD` date");
        push_finding(out, file, Rule::MalformedSourceSignal, d);
        assert(findings_view(out@) =~= before + date_part(file@, field@, value@));
    }
}

/// Append [`timestamp_part`].
fn push_timestamp(out: &mut Vec<Finding>, file: &str, field: &str, value: &str)
    ensures
        findings_view(final(out)@) == findings_view(old(out)@) + timestamp_part(
            file@,
            field@,
            value@,
        ),
{
    let ghost before = findings_view(out@);
    if Timestamp::parse(value).is_some() {
        assert(findings_view(out@) =~= before + timestamp_part(file@, field@, value@));
    } else if is_blank(value) {
        let d = concat(&concat(&string_from("`"), field), "` is empty");
        push_finding(out, file, Rule::MalformedTimestamp, d);
        assert(findings_view(out@) =~= before + timestamp_part(file@, field@, value@));
    } else {
        let d = quote(field, value, "` is not an RFC 3339 datetime");
        push_finding(out, file, Rule::MalformedTimestamp, d);
        assert(findings_view(out@) =~= before + timestamp_part(file@, field@, value@));
    }
}

/// Append [`window_part`].
fn push_window(
    out: &mut Vec<Finding>,
    file: &str,
    field: &str,
    w: &Option<crate::concept::UsageWindow>,
)
    ensures
        findings_view(final(out)@) == findings_view(old(out)@) + window_part(
            file@,
            field@,
            crate::concept::opt_window(*w),
        ),
{
    let ghost before = findings_view(out@);
    match w {
        Some(window) => {
            let f = concat(&string_from(field), ".from");
            let t = concat(&string_from(field), ".to");
            let ghost mid = before;
            match &window.from {
                Some(v) => {
                    push_date(out, file, f.as_str(), v.as_str());
                },
                None => {},
            }
            let ghost after_from = findings_view(out@);
            assert(after_from =~= before + present_date(file@, f@, crate::concept::opt_str(
                window.from,
            )));
            match &window.to {
                Some(v) => {
                    push_date(out, file, t.as_str(), v.as_str());
                },
                None => {},
            }
            assert(findings_view(out@) =~= after_from + present_date(
                file@,
                t@,
                crate::concept::opt_str(window.to),
            ));
            assert(findings_view(out@) =~= before + window_part(
                file@,
                field@,
                crate::concept::opt_window(*w),
            ));
        },
        None => {
            assert(findings_view(out@) =~= before + window_part(
                file@,
                field@,
                crate::concept::opt_window(*w),
            ));
        },
    }
}


// ---------------------------------------------------------------------------
// One concept's own findings.
// ---------------------------------------------------------------------------
/// `CONCEPT-2`: `type` is required and non-empty.
pub open spec fn type_part(file: Seq<char>, e: Seq<(Yaml, Yaml)>) -> Seq<(Seq<char>, RuleName, Seq<char>)> {
    if blank(field_string(e, "type"@)) {
        seq![rule_finding(file, Rule::MissingType, "concept declares no non-empty `type`"@)]
    } else {
        seq![]
    }
}

/// `CONCEPT-3`: a declared `status` must be one of the three values.
pub open spec fn status_part(file: Seq<char>, e: Seq<(Yaml, Yaml)>) -> Seq<(Seq<char>, RuleName, Seq<char>)> {
    if lookup(e, "status"@) is Some && crate::concept::field_status(e) is None {
        seq![
            rule_finding(
                file,
                Rule::InvalidStatus,
                "`status` is not one of draft / stable / deprecated"@,
            ),
        ]
    } else {
        seq![]
    }
}

/// `CONCEPT-12` on `generated.at`, then `CONCEPT-4` / `CONCEPT-5` on a declared
/// `generated`: it needs a non-blank `by`, and that must be a well-formed actor.
pub open spec fn generated_part(file: Seq<char>, e: Seq<(Yaml, Yaml)>) -> Seq<(Seq<char>, RuleName, Seq<char>)> {
    let g = field_generated(e);
    let at = match g {
        Some((_, at)) => present_timestamp(file, "generated.at"@, at),
        None => seq![],
    };
    let by: Option<Seq<char>> = match g {
        Some((by, _)) => by,
        None => None,
    };
    let by_part = if lookup(e, "generated"@) is Some {
        match by {
            None => seq![rule_finding(file, Rule::MissingGeneratedBy, "`generated` declares no `by`"@)],
            Some(b) => if trim(b).len() == 0 {
                seq![rule_finding(file, Rule::MissingGeneratedBy, "`generated.by` is empty"@)]
            } else {
                actor_part(file, "generated.by"@, b)
            },
        }
    } else {
        seq![]
    };
    at + by_part
}

/// `CONCEPT-5` / `CONCEPT-12` on each `verified[]` event, in order.
pub open spec fn verified_part(
    file: Seq<char>,
    ev: Seq<(Option<Seq<char>>, Option<Seq<char>>)>,
) -> Seq<(Seq<char>, RuleName, Seq<char>)>
    decreases ev.len(),
{
    if ev.len() == 0 {
        seq![]
    } else {
        let i = (ev.len() - 1) as nat;
        verified_part(file, ev.drop_last()) + present_actor(
            file,
            field_at("verified["@, i, "].by"@),
            ev.last().0,
        ) + present_timestamp(file, field_at("verified["@, i, "].at"@), ev.last().1)
    }
}

/// `CONCEPT-13`: a declared `stale_after` must be a `YYYY-MM-DD` date.
pub open spec fn stale_part(file: Seq<char>, e: Seq<(Yaml, Yaml)>) -> Seq<(Seq<char>, RuleName, Seq<char>)> {
    match field_string(e, "stale_after"@) {
        Some(v) => if calendar_date(v) is Some {
            seq![]
        } else {
            seq![
                rule_finding(
                    file,
                    Rule::MalformedStaleAfter,
                    quoted("stale_after"@, v, "` is not a `YYYY-MM-DD` date"@),
                ),
            ]
        },
        None => seq![],
    }
}

/// One `sources[i]` entry: `CONCEPT-6` (a resource), `CONCEPT-5` (its author),
/// and `CONCEPT-14` (its credibility signals).
pub open spec fn source_part(file: Seq<char>, i: nat, s: SourceReading) -> Seq<(Seq<char>, RuleName, Seq<char>)> {
    (if blank(s.resource) {
        seq![
            rule_finding(
                file,
                Rule::MissingSourceResource,
                field_at("`sources["@, i, "]` declares no `resource`"@),
            ),
        ]
    } else {
        seq![]
    }) + present_actor(file, field_at("sources["@, i, "].author"@), s.author) + present_date(
        file,
        field_at("sources["@, i, "].last_modified"@),
        s.last_modified,
    ) + (if s.usage_count_malformed {
        seq![
            rule_finding(
                file,
                Rule::MalformedSourceSignal,
                field_at("`sources["@, i, "].usage_count` is not an integer"@),
            ),
        ]
    } else {
        seq![]
    }) + window_part(file, field_at("sources["@, i, "].usage_window"@), s.usage_window)
}

/// Every `sources[]` entry's findings, in order.
pub open spec fn sources_part(file: Seq<char>, ss: Seq<SourceReading>) -> Seq<(Seq<char>, RuleName, Seq<char>)>
    decreases ss.len(),
{
    if ss.len() == 0 {
        seq![]
    } else {
        sources_part(file, ss.drop_last()) + source_part(file, (ss.len() - 1) as nat, ss.last())
    }
}

/// What a parameter is missing, in the order name, type, `required`.
pub open spec fn parameter_gaps(p: (Option<Seq<char>>, Option<Seq<char>>, Option<bool>)) -> Seq<Seq<char>> {
    (if p.0 is None {
        seq!["name"@]
    } else {
        seq![]
    }) + (if p.1 is None {
        seq!["type"@]
    } else {
        seq![]
    }) + (if p.2 is None {
        seq!["a boolean `required`"@]
    } else {
        seq![]
    })
}

/// `CONCEPT-9` for each declared parameter, in order.
pub open spec fn parameters_part(
    file: Seq<char>,
    ps: Seq<(Option<Seq<char>>, Option<Seq<char>>, Option<bool>)>,
) -> Seq<(Seq<char>, RuleName, Seq<char>)>
    decreases ps.len(),
{
    if ps.len() == 0 {
        seq![]
    } else {
        let i = (ps.len() - 1) as nat;
        let gaps = parameter_gaps(ps.last());
        parameters_part(file, ps.drop_last()) + if gaps.len() == 0 {
            seq![]
        } else {
            seq![
                rule_finding(
                    file,
                    Rule::MalformedParameter,
                    field_at("`parameters["@, i, "]` is missing "@) + join_with(gaps, ", "@),
                ),
            ]
        }
    }
}

/// Whether the concept names its computation by a non-blank `computation:` path.
pub open spec fn has_computation_path(e: Seq<(Yaml, Yaml)>) -> bool {
    !blank(field_string(e, "computation"@))
}

/// `CONCEPT-7`: an `Attested Computation` declares a runtime.
pub open spec fn runtime_part(file: Seq<char>, e: Seq<(Yaml, Yaml)>) -> Seq<(Seq<char>, RuleName, Seq<char>)> {
    if blank(field_string(e, "runtime"@)) {
        seq![rule_finding(file, Rule::MissingRuntime, "an Attested Computation declares no `runtime`"@)]
    } else {
        seq![]
    }
}

/// `CONCEPT-8`: the computation comes from exactly one place — a
/// `computation:` path or a `# Computation` body block, not both, not neither.
pub open spec fn computation_source_part(file: Seq<char>, e: Seq<(Yaml, Yaml)>, body: Seq<char>) -> Seq<(Seq<char>, RuleName, Seq<char>)> {
    let has_path = has_computation_path(e);
    if has_path == has_heading_from(lines(body), false) {
        seq![
            rule_finding(
                file,
                Rule::InvalidComputationSource,
                if has_path {
                    computation_twice()
                } else {
                    computation_nowhere()
                },
            ),
        ]
    } else {
        seq![]
    }
}

/// `CONCEPT-11`: a `# Computation` heading that is the sole source but is
/// empty delivers no computation.
pub open spec fn empty_computation_part(file: Seq<char>, e: Seq<(Yaml, Yaml)>, body: Seq<char>) -> Seq<(Seq<char>, RuleName, Seq<char>)> {
    if !has_computation_path(e) && empty_section_from(lines(body), false) {
        seq![rule_finding(file, Rule::EmptyComputation, computation_empty())]
    } else {
        seq![]
    }
}

/// `CONCEPT-10`: a declared executor / attester needs a `resource`, and an
/// executor's `receipt` must be a list of field names.
pub open spec fn attestation_part(file: Seq<char>, e: Seq<(Yaml, Yaml)>) -> Seq<(Seq<char>, RuleName, Seq<char>)> {
    (match field_executor(e) {
        Some((resource, _)) => if blank(resource) {
            seq![rule_finding(file, Rule::IncompleteAttestation, "`executor` declares no `resource`"@)]
        } else {
            seq![]
        },
        None => seq![],
    }) + (if field_receipt_malformed(e) {
        seq![
            rule_finding(
                file,
                Rule::IncompleteAttestation,
                "`executor.receipt` is not a list of field names"@,
            ),
        ]
    } else {
        seq![]
    }) + (match field_attester(e) {
        Some(resource) => if blank(resource) {
            seq![rule_finding(file, Rule::IncompleteAttestation, "`attester` declares no `resource`"@)]
        } else {
            seq![]
        },
        None => seq![],
    })
}

/// The findings only an `Attested Computation` can have, in order: runtime,
/// computation source, empty computation, parameters, attestation.
pub open spec fn attested_part(file: Seq<char>, e: Seq<(Yaml, Yaml)>, body: Seq<char>) -> Seq<(Seq<char>, RuleName, Seq<char>)> {
    runtime_part(file, e) + computation_source_part(file, e, body) + empty_computation_part(
        file,
        e,
        body,
    ) + parameters_part(file, field_parameters(e)) + attestation_part(file, e)
}

/// The detail for a computation given in both places.
pub open spec fn computation_twice() -> Seq<char> {
    "an Attested Computation gives its computation twice \u{2014} a `computation:` path and a `# Computation` body block"@
}

/// The detail for a computation given in neither place.
pub open spec fn computation_nowhere() -> Seq<char> {
    "an Attested Computation gives its computation nowhere \u{2014} neither a `computation:` path nor a `# Computation` body block"@
}

/// The detail for an empty inline computation.
pub open spec fn computation_empty() -> Seq<char> {
    "the `# Computation` section is empty \u{2014} the inline computation is declared but not provided"@
}

/// The per-concept (document-level) findings for one concept read from
/// `file`, in the order they are checked. Each is one of the format's own
/// requirements: a bundle that trips one is non-conformant, not merely unusual.
pub open spec fn concept_findings(file: Seq<char>, e: Seq<(Yaml, Yaml)>, body: Seq<char>) -> Seq<(Seq<char>, RuleName, Seq<char>)> {
    type_part(file, e) + status_part(file, e) + generated_part(file, e) + verified_part(
        file,
        field_verified(e),
    ) + stale_part(file, e) + window_part(file, "usage_window"@, field_usage_window(e))
        + sources_part(file, field_sources(e)) + if field_string(e, "type"@) == Some(
        "Attested Computation"@,
    ) {
        attested_part(file, e, body)
    } else {
        seq![]
    }
}


/// Append [`generated_part`].
fn push_generated(out: &mut Vec<Finding>, file: &str, fm: &crate::concept::Frontmatter)
    ensures
        findings_view(final(out)@) == findings_view(old(out)@) + generated_part(file@, fm.entries()),
{
    let ghost e = fm.entries();
    let ghost before = findings_view(out@);
    let g = fm.generated();
    match &g {
        Some(gen) => match &gen.at {
            Some(at) => push_timestamp(out, file, "generated.at", at.as_str()),
            None => {},
        },
        None => {},
    }
    let ghost mid = findings_view(out@);
    assert(mid =~= before + match field_generated(e) {
        Some((_, at)) => present_timestamp(file@, "generated.at"@, at),
        None => seq![],
    });
    if fm.declares("generated") {
        let by: Option<&String> = match &g {
            Some(gen) => match &gen.by {
                Some(b) => Some(b),
                None => None,
            },
            None => None,
        };
        match by {
            None => {
                push_finding(
                    out,
                    file,
                    Rule::MissingGeneratedBy,
                    string_from("`generated` declares no `by`"),
                );
            },
            Some(b) => {
                if is_blank(b.as_str()) {
                    push_finding(
                        out,
                        file,
                        Rule::MissingGeneratedBy,
                        string_from("`generated.by` is empty"),
                    );
                } else {
                    push_actor(out, file, "generated.by", b.as_str());
                }
            },
        }
    }
    assert(findings_view(out@) =~= before + generated_part(file@, e));
}

/// Append [`verified_part`].
fn push_verified(out: &mut Vec<Finding>, file: &str, fm: &crate::concept::Frontmatter)
    ensures
        findings_view(final(out)@) == findings_view(old(out)@) + verified_part(
            file@,
            field_verified(fm.entries()),
        ),
{
    let ghost before = findings_view(out@);
    let events = fm.verified();
    let ghost ev = field_verified(fm.entries());
    let mut i: usize = 0;
    while i < events.len()
        invariant
            i <= events@.len(),
            ev == events@.map_values(|x: crate::concept::Verification| x@),
            findings_view(out@) == before + verified_part(file@, ev.take(i as int)),
        decreases events.len() - i,
    {
        assert(ev.take(i + 1).drop_last() =~= ev.take(i as int));
        assert(ev.take(i + 1).last() == events@[i as int]@);
        let ghost base = findings_view(out@);
        match &events[i].by {
            Some(by) => {
                let f = field_name("verified[", i, "].by");
                push_actor(out, file, f.as_str(), by.as_str());
            },
            None => {},
        }
        let ghost mid = findings_view(out@);
        assert(mid =~= base + present_actor(
            file@,
            field_at("verified["@, i as nat, "].by"@),
            events@[i as int]@.0,
        ));
        match &events[i].at {
            Some(at) => {
                let f = field_name("verified[", i, "].at");
                push_timestamp(out, file, f.as_str(), at.as_str());
            },
            None => {},
        }
        assert(findings_view(out@) =~= mid + present_timestamp(
            file@,
            field_at("verified["@, i as nat, "].at"@),
            events@[i as int]@.1,
        ));
        assert(findings_view(out@) =~= before + verified_part(file@, ev.take(i + 1)));
        i += 1;
    }
    assert(ev.take(i as int) =~= ev);
}

/// Append [`source_part`] for `sources[i]`.
#[verifier::rlimit(40)]
fn push_source(out: &mut Vec<Finding>, file: &str, i: usize, source: &crate::concept::Source)
    ensures
        findings_view(final(out)@) == findings_view(old(out)@) + source_part(file@, i as nat, source@),
{
    let ghost before = findings_view(out@);
    let missing = match &source.resource {
        Some(r) => is_blank(r.as_str()),
        None => true,
    };
    if missing {
        push_finding(
            out,
            file,
            Rule::MissingSourceResource,
            field_name("`sources[", i, "]` declares no `resource`"),
        );
    }
    let ghost p1 = findings_view(out@);
    assert(p1 =~= before + (if blank(source@.resource) {
        seq![
            rule_finding(
                file@,
                Rule::MissingSourceResource,
                field_at("`sources["@, i as nat, "]` declares no `resource`"@),
            ),
        ]
    } else {
        seq![]
    }));
    match &source.author {
        Some(a) => {
            let f = field_name("sources[", i, "].author");
            push_actor(out, file, f.as_str(), a.as_str());
        },
        None => {},
    }
    let ghost p2 = findings_view(out@);
    assert(p2 =~= p1 + present_actor(file@, field_at("sources["@, i as nat, "].author"@), source@.author));
    match &source.last_modified {
        Some(d) => {
            let f = field_name("sources[", i, "].last_modified");
            push_date(out, file, f.as_str(), d.as_str());
        },
        None => {},
    }
    let ghost p3 = findings_view(out@);
    assert(p3 =~= p2 + present_date(
        file@,
        field_at("sources["@, i as nat, "].last_modified"@),
        source@.last_modified,
    ));
    if source.usage_count_malformed {
        push_finding(
            out,
            file,
            Rule::MalformedSourceSignal,
            field_name("`sources[", i, "].usage_count` is not an integer"),
        );
    }
    let ghost p4 = findings_view(out@);
    assert(p4 =~= p3 + (if source@.usage_count_malformed {
        seq![
            rule_finding(
                file@,
                Rule::MalformedSourceSignal,
                field_at("`sources["@, i as nat, "].usage_count` is not an integer"@),
            ),
        ]
    } else {
        seq![]
    }));
    let f = field_name("sources[", i, "].usage_window");
    push_window(out, file, f.as_str(), &source.usage_window);
    assert(findings_view(out@) =~= before + source_part(file@, i as nat, source@));
}

/// Append [`sources_part`].
fn push_sources(out: &mut Vec<Finding>, file: &str, fm: &crate::concept::Frontmatter)
    ensures
        findings_view(final(out)@) == findings_view(old(out)@) + sources_part(
            file@,
            field_sources(fm.entries()),
        ),
{
    let ghost before = findings_view(out@);
    let sources = fm.sources();
    let ghost ss = field_sources(fm.entries());
    let mut i: usize = 0;
    while i < sources.len()
        invariant
            i <= sources@.len(),
            ss == sources@.map_values(|x: crate::concept::Source| x@),
            findings_view(out@) == before + sources_part(file@, ss.take(i as int)),
        decreases sources.len() - i,
    {
        assert(ss.take(i + 1).drop_last() =~= ss.take(i as int));
        assert(ss.take(i + 1).last() == sources@[i as int]@);
        push_source(out, file, i, &sources[i]);
        assert(findings_view(out@) =~= before + sources_part(file@, ss.take(i + 1)));
        i += 1;
    }
    assert(ss.take(i as int) =~= ss);
}

/// Append [`parameters_part`].
fn push_parameters(out: &mut Vec<Finding>, file: &str, fm: &crate::concept::Frontmatter)
    ensures
        findings_view(final(out)@) == findings_view(old(out)@) + parameters_part(
            file@,
            field_parameters(fm.entries()),
        ),
{
    let ghost before = findings_view(out@);
    let params = fm.parameters();
    let ghost ps = field_parameters(fm.entries());
    let mut i: usize = 0;
    while i < params.len()
        invariant
            i <= params@.len(),
            ps == params@.map_values(|x: crate::concept::Parameter| x@),
            findings_view(out@) == before + parameters_part(file@, ps.take(i as int)),
        decreases params.len() - i,
    {
        assert(ps.take(i + 1).drop_last() =~= ps.take(i as int));
        assert(ps.take(i + 1).last() == params@[i as int]@);
        let p = &params[i];
        let mut gaps: Vec<String> = Vec::new();
        if p.name.is_none() {
            gaps.push(string_from("name"));
        }
        let ghost g1 = strings_view(gaps@);
        if p.kind.is_none() {
            gaps.push(string_from("type"));
        }
        let ghost g2 = strings_view(gaps@);
        if p.required.is_none() {
            gaps.push(string_from("a boolean `required`"));
        }
        proof {
            let pv = params@[i as int]@;
            assert(g1 =~= if pv.0 is None {
                seq!["name"@]
            } else {
                seq![]
            });
            assert(g2 =~= g1 + if pv.1 is None {
                seq!["type"@]
            } else {
                seq![]
            });
            assert(strings_view(gaps@) =~= g2 + if pv.2 is None {
                seq!["a boolean `required`"@]
            } else {
                seq![]
            });
            assert(strings_view(gaps@) =~= parameter_gaps(pv));
        }
        if gaps.len() > 0 {
            let head = field_name("`parameters[", i, "]` is missing ");
            let list = join_strings(&gaps, ", ");
            push_finding(out, file, Rule::MalformedParameter, concat_string(&head, &list));
        }
        assert(findings_view(out@) =~= before + parameters_part(file@, ps.take(i + 1)));
        i += 1;
    }
    assert(ps.take(i as int) =~= ps);
}

/// Whether an optional string is missing or blank.
fn is_blank_opt(v: Option<&str>) -> (r: bool)
    ensures
        r == blank(crate::concept::opt_text(v)),
{
    match v {
        Some(s) => is_blank(s),
        None => true,
    }
}

/// Append [`attested_part`].
#[verifier::spinoff_prover]
#[verifier::rlimit(40)]
fn push_attested(out: &mut Vec<Finding>, file: &str, concept: &Concept)
    ensures
        findings_view(final(out)@) == findings_view(old(out)@) + attested_part(
            file@,
            concept.reading().1,
            concept.reading().2,
        ),
{
    let fm = concept.frontmatter();
    let ghost e = fm.entries();
    let ghost body = concept.reading().2;
    let ghost before = findings_view(out@);
    if is_blank_opt(fm.runtime()) {
        push_finding(
            out,
            file,
            Rule::MissingRuntime,
            string_from("an Attested Computation declares no `runtime`"),
        );
    }
    let ghost p1 = findings_view(out@);
    assert(p1 =~= before + runtime_part(file@, e));
    let has_path = !is_blank_opt(fm.computation());
    let has_body = concept.body().has_computation_section();
    if has_path == has_body {
        let detail = if has_path {
            string_from(
                "an Attested Computation gives its computation twice \u{2014} a `computation:` path and a `# Computation` body block",
            )
        } else {
            string_from(
                "an Attested Computation gives its computation nowhere \u{2014} neither a `computation:` path nor a `# Computation` body block",
            )
        };
        push_finding(out, file, Rule::InvalidComputationSource, detail);
    }
    let ghost p2 = findings_view(out@);
    assert(p2 =~= p1 + computation_source_part(file@, e, body));
    if !has_path && concept.body().has_empty_computation_section() {
        push_finding(
            out,
            file,
            Rule::EmptyComputation,
            string_from(
                "the `# Computation` section is empty \u{2014} the inline computation is declared but not provided",
            ),
        );
    }
    let ghost p3 = findings_view(out@);
    assert(p3 =~= p2 + empty_computation_part(file@, e, body));
    push_parameters(out, file, fm);
    let ghost p4 = findings_view(out@);
    attestation_findings(out, file, fm);
    assert(findings_view(out@) =~= before + attested_part(file@, e, body));
}

/// Append [`attestation_part`].
fn attestation_findings(out: &mut Vec<Finding>, file: &str, fm: &crate::concept::Frontmatter)
    ensures
        findings_view(final(out)@) == findings_view(old(out)@) + attestation_part(file@, fm.entries()),
{
    let ghost e = fm.entries();
    let ghost p4 = findings_view(out@);
    match fm.executor() {
        Some(x) => {
            let missing = match &x.resource {
                Some(r) => is_blank(r.as_str()),
                None => true,
            };
            if missing {
                push_finding(
                    out,
                    file,
                    Rule::IncompleteAttestation,
                    string_from("`executor` declares no `resource`"),
                );
            }
        },
        None => {},
    }
    let ghost p5 = findings_view(out@);
    if fm.executor_receipt_malformed() {
        push_finding(
            out,
            file,
            Rule::IncompleteAttestation,
            string_from("`executor.receipt` is not a list of field names"),
        );
    }
    let ghost p6 = findings_view(out@);
    match fm.attester() {
        Some(x) => {
            let missing = match &x.resource {
                Some(r) => is_blank(r.as_str()),
                None => true,
            };
            if missing {
                push_finding(
                    out,
                    file,
                    Rule::IncompleteAttestation,
                    string_from("`attester` declares no `resource`"),
                );
            }
        },
        None => {},
    }
    assert(findings_view(out@) =~= p4 + attestation_part(file@, e));
}

/// The per-concept (document-level) findings for one concept, located at its
/// file (see [`concept_findings`]).
pub fn check_concept(file: &str, concept: &Concept) -> (r: Vec<Finding>)
    ensures
        findings_view(r@) == concept_findings(file@, concept.reading().1, concept.reading().2),
{
    let fm = concept.frontmatter();
    let ghost e = fm.entries();
    let mut out: Vec<Finding> = Vec::new();
    if is_blank_opt(fm.concept_type()) {
        push_finding(
            &mut out,
            file,
            Rule::MissingType,
            string_from("concept declares no non-empty `type`"),
        );
    }
    let ghost p1 = findings_view(out@);
    assert(p1 =~= type_part(file@, e));
    if fm.declares("status") && fm.status().is_none() {
        push_finding(
            &mut out,
            file,
            Rule::InvalidStatus,
            string_from("`status` is not one of draft / stable / deprecated"),
        );
    }
    let ghost p2 = findings_view(out@);
    assert(p2 =~= p1 + status_part(file@, e));
    push_generated(&mut out, file, fm);
    let ghost p3 = findings_view(out@);
    push_verified(&mut out, file, fm);
    let ghost p4 = findings_view(out@);
    match fm.stale_after() {
        Some(v) => {
            if Date::parse(v).is_none() {
                push_finding(
                    &mut out,
                    file,
                    Rule::MalformedStaleAfter,
                    quote("stale_after", v, "` is not a `YYYY-MM-DD` date"),
                );
            }
        },
        None => {},
    }
    let ghost p5 = findings_view(out@);
    assert(p5 =~= p4 + stale_part(file@, e));
    push_window(&mut out, file, "usage_window", &fm.usage_window());
    let ghost p6 = findings_view(out@);
    push_sources(&mut out, file, fm);
    let ghost p7 = findings_view(out@);
    let attested = match fm.concept_type() {
        Some(t) => crate::text::str_is(t, "Attested Computation"),
        None => false,
    };
    if attested {
        push_attested(&mut out, file, concept);
    }
    assert(findings_view(out@) =~= concept_findings(file@, e, concept.reading().2));
    out
}


// ---------------------------------------------------------------------------
// File names.
// ---------------------------------------------------------------------------
/// Whether `s` ends in `.md`.
pub open spec fn ends_with_md(s: Seq<char>) -> bool {
    s.len() >= 3 && s[s.len() - 3] == '.' && s[s.len() - 2] == 'm' && s[s.len() - 1] == 'd'
}

/// The Concept ID for a relative path: the trailing `.md` removed.
/// `tables/orders.md` → `tables/orders`.
pub open spec fn without_md(s: Seq<char>) -> Seq<char> {
    if ends_with_md(s) {
        s.take(s.len() - 3)
    } else {
        s
    }
}

/// Whether `cs` ends in `.md`.
fn chars_end_md(cs: &[char]) -> (r: bool)
    ensures
        r == ends_with_md(cs@),
{
    let n = cs.len();
    n >= 3 && cs[n - 3] == '.' && cs[n - 2] == 'm' && cs[n - 1] == 'd'
}

/// [`without_md`].
pub fn strip_md(file: &str) -> (r: String)
    ensures
        r@ == without_md(file@),
{
    let cs = crate::text::chars_of(file);
    if chars_end_md(&cs) {
        crate::text::string_of(&cs, 0, cs.len() - 3)
    } else {
        assert(cs@.subrange(0, cs@.len() as int) =~= cs@);
        crate::text::string_of(&cs, 0, cs.len())
    }
}

/// The final `/`-separated segment of a bundle-relative path: a file's name.
pub open spec fn last_segment(s: Seq<char>) -> Seq<char>
    decreases s.len(),
{
    if s.len() == 0 {
        s
    } else if s.last() == '/' {
        seq![]
    } else {
        last_segment(s.drop_last()).push(s.last())
    }
}

/// The final segment of a bundle-relative path — the reserved file's name.
pub fn reserved_name(path: &str) -> (r: String)
    ensures
        r@ == last_segment(path@),
{
    let cs = crate::text::chars_of(path);
    let mut i = cs.len();
    assert(cs@.take(i as int) =~= cs@);
    assert(cs@.subrange(i as int, cs@.len() as int) =~= Seq::<char>::empty());
    while i > 0 && cs[i - 1] != '/'
        invariant
            i <= cs@.len(),
            last_segment(cs@) == last_segment(cs@.take(i as int)) + cs@.subrange(
                i as int,
                cs@.len() as int,
            ),
        decreases i,
    {
        assert(cs@.take(i as int).drop_last() =~= cs@.take(i - 1));
        assert(cs@.take(i as int).last() == cs@[i - 1]);
        assert(cs@.subrange(i - 1, cs@.len() as int) =~= seq![cs@[i - 1]] + cs@.subrange(
            i as int,
            cs@.len() as int,
        ));
        i -= 1;
    }
    if i > 0 {
        assert(cs@.take(i as int).last() == '/');
    } else {
        assert(cs@.take(0) =~= Seq::<char>::empty());
    }
    crate::text::string_of(&cs, i, cs.len())
}

/// A reserved file name: `index.md` or `log.md`, at any level.
pub open spec fn is_reserved_path(path: Seq<char>) -> bool {
    last_segment(path) == "index.md"@ || last_segment(path) == "log.md"@
}

/// A `*.md` file: its name has the extension `md` (so `.md` alone does not).
pub open spec fn is_markdown_path(path: Seq<char>) -> bool {
    last_segment(path).len() > 3 && ends_with_md(last_segment(path))
}

/// Whether the file's text is read when the bundle is built: a reserved file
/// is checked, and a `*.md` one is a concept.
pub fn needs_text(file: &str) -> (r: bool)
    ensures
        r == (is_reserved_path(file@) || is_markdown_path(file@)),
{
    let name = reserved_name(file);
    let cs = crate::text::chars_of(name.as_str());
    crate::text::str_is(name.as_str(), "index.md") || crate::text::str_is(name.as_str(), "log.md")
        || (cs.len() > 3 && chars_end_md(&cs))
}


// ---------------------------------------------------------------------------
// The bundle.
// ---------------------------------------------------------------------------
/// A resolved body-link edge: the linking concept points at another concept in
/// the same bundle. A link that resolves to no concept is a dangling
/// `BUNDLE-2` report instead, and never an edge.
#[derive(Debug, Clone, PartialEq, Eq)]
#[non_exhaustive]
pub struct BodyLink {
    /// Concept ID of the concept whose body carries the link.
    pub from: String,
    /// Concept ID the link resolves to.
    pub to: String,
}

/// What a concept was read from: its block's text and entries, and its body.
pub type Reading = (Seq<char>, Seq<(Yaml, Yaml)>, Seq<char>);

/// A bundle as values.
#[verifier::ext_equal]
pub ghost struct BundleView {
    /// Each concept's reading, by Concept ID.
    pub concepts: Map<Seq<char>, Reading>,
    /// Every file of the tree, bundle-relative, in the order they were added.
    pub files: Seq<Seq<char>>,
    /// The reserved files and their text, in the order they were added.
    pub reserved: Seq<(Seq<char>, Seq<char>)>,
    /// The body-link edges, as `(from, to)`.
    pub links: Seq<(Seq<char>, Seq<char>)>,
    /// The derivation edges, as `(from, to)`.
    pub derivations: Seq<(Seq<char>, Seq<char>)>,
    /// Every finding, in the order found.
    pub findings: Seq<(Seq<char>, RuleName, Seq<char>)>,
}

/// Keyed entries as a map; a later entry for a key wins.
pub open spec fn entries_map(es: Seq<(Seq<char>, Reading)>) -> Map<Seq<char>, Reading>
    decreases es.len(),
{
    if es.len() == 0 {
        Map::empty()
    } else {
        entries_map(es.drop_last()).insert(es.last().0, es.last().1)
    }
}

/// The keys of keyed entries, in order.
pub open spec fn entry_keys(es: Seq<(Seq<char>, Reading)>) -> Seq<Seq<char>> {
    es.map_values(|e: (Seq<char>, Reading)| e.0)
}

/// The concepts held, as `(id, reading)`.
pub open spec fn concept_entries(v: Seq<(String, Concept)>) -> Seq<(Seq<char>, Reading)> {
    v.map_values(|p: (String, Concept)| (p.0@, p.1.reading()))
}

/// The Concept IDs of a map in sorted order.
pub open spec fn ids_in_order(m: Map<Seq<char>, Reading>) -> Seq<Seq<char>> {
    choose|s: Seq<Seq<char>>| crate::provenance::sorted_strictly(s) && s.to_set() == m.dom()
}

/// Two strictly sorted runs with the same members are the same run.
pub proof fn lemma_sorted_unique_order(a: Seq<Seq<char>>, b: Seq<Seq<char>>)
    requires
        crate::provenance::sorted_strictly(a),
        crate::provenance::sorted_strictly(b),
        a.to_set() == b.to_set(),
    ensures
        a == b,
    decreases a.len(),
{
    if a.len() == 0 {
        if b.len() > 0 {
            assert(b.to_set().contains(b[0]));
        }
        assert(a =~= b);
    } else if b.len() == 0 {
        assert(a.to_set().contains(a[0]));
    } else {
        assert(b.to_set().contains(a[0]));
        assert(a.to_set().contains(b[0]));
        let i = choose|i: int| 0 <= i < b.len() && b[i] == a[0];
        let j = choose|j: int| 0 <= j < a.len() && a[j] == b[0];
        if a[0] != b[0] {
            assert(i > 0 && j > 0);
            assert(crate::text::lex_lt(b[0], b[i]));
            assert(crate::text::lex_lt(a[0], a[j]));
            crate::text::lemma_lex_asymmetric(a[0], b[0]);
        }
        let a1 = a.drop_first();
        let b1 = b.drop_first();
        assert(a1.to_set() =~= b1.to_set()) by {
            assert forall|x: Seq<char>| a1.to_set().contains(x) implies b1.to_set().contains(x) by {
                let k = choose|k: int| 0 <= k < a1.len() && a1[k] == x;
                assert(crate::text::lex_lt(a[0], a[k + 1]));
                crate::text::lemma_lex_asymmetric(a[0], a[0]);
                assert(x != b[0]);
                assert(b.to_set().contains(x));
                let m = choose|m: int| 0 <= m < b.len() && b[m] == x;
                assert(m > 0);
                assert(b1[m - 1] == x);
            }
            assert forall|x: Seq<char>| b1.to_set().contains(x) implies a1.to_set().contains(x) by {
                let k = choose|k: int| 0 <= k < b1.len() && b1[k] == x;
                assert(crate::text::lex_lt(b[0], b[k + 1]));
                crate::text::lemma_lex_asymmetric(b[0], b[0]);
                assert(x != a[0]);
                assert(a.to_set().contains(x));
                let m = choose|m: int| 0 <= m < a.len() && a[m] == x;
                assert(m > 0);
                assert(a1[m - 1] == x);
            }
        }
        assert(crate::provenance::sorted_strictly(a1)) by {
            assert forall|p: int, q: int| 0 <= p < q < a1.len() implies crate::text::lex_lt(
                #[trigger] a1[p],
                #[trigger] a1[q],
            ) by {
                assert(crate::text::lex_lt(a[p + 1], a[q + 1]));
            }
        }
        assert(crate::provenance::sorted_strictly(b1)) by {
            assert forall|p: int, q: int| 0 <= p < q < b1.len() implies crate::text::lex_lt(
                #[trigger] b1[p],
                #[trigger] b1[q],
            ) by {
                assert(crate::text::lex_lt(b[p + 1], b[q + 1]));
            }
        }
        lemma_sorted_unique_order(a1, b1);
        assert(a =~= seq![a[0]] + a1);
        assert(b =~= seq![b[0]] + b1);
    }
}

/// For entries with distinct keys, the map holds exactly the keys, each with
/// its entry's reading.
pub proof fn lemma_entries_map(es: Seq<(Seq<char>, Reading)>)
    requires
        entry_keys(es).no_duplicates(),
    ensures
        entries_map(es).dom() == entry_keys(es).to_set(),
        forall|i: int| 0 <= i < es.len() ==> entries_map(es)[#[trigger] es[i].0] == es[i].1,
    decreases es.len(),
{
    if es.len() > 0 {
        let d = es.drop_last();
        assert(entry_keys(d) =~= entry_keys(es).drop_last());
        assert(entry_keys(d).no_duplicates()) by {
            assert forall|p: int, q: int| 0 <= p < entry_keys(d).len() && 0 <= q < entry_keys(d).len() && p != q implies entry_keys(d)[p] != entry_keys(d)[q] by {
                assert(entry_keys(es)[p] != entry_keys(es)[q]);
            }
        }
        lemma_entries_map(d);
        assert(entries_map(es).dom() =~= entry_keys(es).to_set()) by {
            assert forall|x: Seq<char>| entry_keys(es).to_set().contains(x) implies entries_map(es).dom().contains(x) by {
                let k = choose|k: int| 0 <= k < entry_keys(es).len() && entry_keys(es)[k] == x;
                if k < es.len() - 1 {
                    assert(entry_keys(d)[k] == x);
                    assert(entry_keys(d).to_set().contains(x));
                }
            }
            assert forall|x: Seq<char>| entries_map(es).dom().contains(x) implies entry_keys(es).to_set().contains(x) by {
                if x != es.last().0 {
                    assert(entry_keys(d).to_set().contains(x));
                    let k = choose|k: int| 0 <= k < entry_keys(d).len() && entry_keys(d)[k] == x;
                    assert(entry_keys(es)[k] == x);
                } else {
                    assert(entry_keys(es)[es.len() - 1] == x);
                }
            }
        }
        assert forall|i: int| 0 <= i < es.len() implies entries_map(es)[#[trigger] es[i].0] == es[i].1 by {
            if i < es.len() - 1 {
                assert(d[i] == es[i]);
                assert(entry_keys(es)[i] != entry_keys(es)[es.len() - 1]);
            }
        }
    }
}

/// An OKF Knowledge Bundle: its concepts by Concept ID, the resolved body-link
/// edges, and the findings reading it produced.
pub struct Bundle {
    concepts: Vec<(String, Concept)>,
    files: Vec<String>,
    reserved: Vec<(String, String)>,
    links: Vec<BodyLink>,
    derivations: Vec<crate::provenance::Derivation>,
    findings: Vec<Finding>,
}

/// Body-link edges as pairs.
pub open spec fn body_link_pairs(v: Seq<BodyLink>) -> Seq<(Seq<char>, Seq<char>)> {
    v.map_values(|l: BodyLink| (l.from@, l.to@))
}

/// Reserved files as pairs.
pub open spec fn text_pairs(v: Seq<(String, String)>) -> Seq<(Seq<char>, Seq<char>)> {
    v.map_values(|p: (String, String)| (p.0@, p.1@))
}

impl View for Bundle {
    type V = BundleView;

    closed spec fn view(&self) -> BundleView {
        BundleView {
            concepts: entries_map(concept_entries(self.concepts@)),
            files: strings_view(self.files@),
            reserved: text_pairs(self.reserved@),
            links: body_link_pairs(self.links@),
            derivations: crate::provenance::edge_pairs(self.derivations@),
            findings: findings_view(self.findings@),
        }
    }
}

impl Bundle {
    /// The concepts are held in strictly increasing Concept ID order, which
    /// makes each ID appear once.
    pub closed spec fn wf(&self) -> bool {
        crate::provenance::sorted_strictly(entry_keys(concept_entries(self.concepts@)))
    }

    /// The Concept IDs in the order they are held: sorted.
    pub closed spec fn held_ids(&self) -> Seq<Seq<char>> {
        entry_keys(concept_entries(self.concepts@))
    }

    /// A valid bundle holds finitely many concepts, and `ids_in_order` lists
    /// each of their IDs once, in ascending order.
    pub proof fn lemma_ids_listed(&self)
        requires
            self.wf(),
        ensures
            self@.concepts.dom().finite(),
            crate::provenance::sorted_strictly(ids_in_order(self@.concepts)),
            ids_in_order(self@.concepts).to_set() == self@.concepts.dom(),
            ids_in_order(self@.concepts).no_duplicates(),
    {
        self.lemma_wf();
        vstd::seq_lib::seq_to_set_is_finite(self.held_ids());
    }

    /// What `wf` gives: the held IDs are the map's keys in sorted order.
    proof fn lemma_wf(&self)
        requires
            self.wf(),
        ensures
            self.held_ids() == ids_in_order(self@.concepts),
            self.held_ids().no_duplicates(),
            self@.concepts.dom() == self.held_ids().to_set(),
            forall|i: int|
                0 <= i < self.concepts@.len() ==> self@.concepts[#[trigger] self.concepts@[i].0@]
                    == self.concepts@[i].1.reading(),
    {
        let es = concept_entries(self.concepts@);
        crate::provenance::lemma_sorted_unique(entry_keys(es));
        lemma_entries_map(es);
        let ids = ids_in_order(self@.concepts);
        assert(crate::provenance::sorted_strictly(entry_keys(es)) && entry_keys(es).to_set()
            == self@.concepts.dom());
        lemma_sorted_unique_order(ids, entry_keys(es));
        assert forall|i: int| 0 <= i < self.concepts@.len() implies self@.concepts[
            #[trigger] self.concepts@[i].0@] == self.concepts@[i].1.reading() by {
            assert(es[i].0 == self.concepts@[i].0@);
        }
    }

    /// An empty bundle: no files, no concepts, no findings.
    pub fn new() -> (r: Bundle)
        ensures
            r.wf(),
            r@.concepts == Map::<Seq<char>, Reading>::empty(),
            r@.files.len() == 0,
            r@.reserved.len() == 0,
            r@.links.len() == 0,
            r@.derivations.len() == 0,
            r@.findings.len() == 0,
    {
        let b = Bundle {
            concepts: Vec::new(),
            files: Vec::new(),
            reserved: Vec::new(),
            links: Vec::new(),
            derivations: Vec::new(),
            findings: Vec::new(),
        };
        assert(b@.concepts =~= Map::<Seq<char>, Reading>::empty());
        b
    }
}


/// The last `/` in `s`, or `-1` when there is none.
pub open spec fn last_slash(s: Seq<char>) -> int
    decreases s.len(),
{
    if s.len() == 0 {
        -1
    } else if s.last() == '/' {
        s.len() - 1
    } else {
        last_slash(s.drop_last())
    }
}

/// `last_slash` lands on a `/` inside `s`, or reports none.
pub proof fn lemma_last_slash(s: Seq<char>)
    ensures
        -1 <= last_slash(s) < s.len(),
        last_slash(s) >= 0 ==> s[last_slash(s)] == '/',
        forall|j: int| last_slash(s) < j < s.len() ==> s[j] != '/',
    decreases s.len(),
{
    if s.len() > 0 && s.last() != '/' {
        lemma_last_slash(s.drop_last());
        assert forall|j: int| last_slash(s) < j < s.len() implies s[j] != '/' by {
            if j < s.len() - 1 {
                assert(s.drop_last()[j] == s[j]);
            }
        }
    }
}

/// The parent of a concept in the directory hierarchy: the nearest path
/// ancestor of `id` that is itself a concept.
pub open spec fn parent_of(m: Map<Seq<char>, Reading>, id: Seq<char>) -> Option<Seq<char>>
    decreases id.len(),
{
    let k = last_slash(id);
    if k < 0 {
        None
    } else {
        proof {
            lemma_last_slash(id);
        }
        let ancestor = id.take(k);
        if m.contains_key(ancestor) {
            Some(ancestor)
        } else {
            parent_of(m, ancestor)
        }
    }
}

/// The parent is the nearest concept among a concept's path ancestors: it is
/// `None` exactly when no prefix of `id` ending before one of its `/`s is a
/// concept, and otherwise it is such a prefix, with no longer one a concept.
pub proof fn lemma_parent_is_nearest_ancestor(m: Map<Seq<char>, Reading>, id: Seq<char>)
    ensures
        parent_of(m, id) is None <==> !exists|k: int|
            0 <= k < id.len() && id[k] == '/' && m.contains_key(#[trigger] id.take(k)),
        parent_of(m, id) matches Some(p) ==> exists|k: int|
            0 <= k < id.len() && id[k] == '/' && p == #[trigger] id.take(k) && m.contains_key(p)
                && forall|j: int| k < j < id.len() && id[j] == '/' ==> !m.contains_key(id.take(j)),
    decreases id.len(),
{
    lemma_last_slash(id);
    let k = last_slash(id);
    if k < 0 {
        assert forall|j: int| 0 <= j < id.len() implies id[j] != '/' by {}
    } else {
        let a = id.take(k);
        assert forall|j: int| k < j < id.len() implies id[j] != '/' by {}
        if m.contains_key(a) {
            assert(0 <= k < id.len() && id[k] == '/' && m.contains_key(id.take(k)));
        } else {
            lemma_parent_is_nearest_ancestor(m, a);
            assert forall|j: int| 0 <= j < k implies a[j] == id[j] && a.take(j) == id.take(j) by {
                assert(a.take(j) =~= id.take(j));
            }
            if parent_of(m, a) is None {
                if exists|j: int| 0 <= j < id.len() && id[j] == '/' && m.contains_key(#[trigger] id.take(j)) {
                    let j = choose|j: int| 0 <= j < id.len() && id[j] == '/' && m.contains_key(#[trigger] id.take(j));
                    assert(j <= k);
                    assert(j != k);
                    assert(a[j] == '/' && a.take(j) == id.take(j));
                    assert(m.contains_key(a.take(j)));
                }
            } else {
                let p = parent_of(m, a)->0;
                let j0 = choose|j0: int|
                    0 <= j0 < a.len() && a[j0] == '/' && p == #[trigger] a.take(j0) && m.contains_key(p)
                        && forall|j: int| j0 < j < a.len() && a[j] == '/' ==> !m.contains_key(a.take(j));
                assert(id[j0] == '/' && p == id.take(j0));
                assert forall|j: int| j0 < j < id.len() && id[j] == '/' implies !m.contains_key(id.take(j)) by {
                    if j < k {
                        assert(a[j] == '/' && a.take(j) == id.take(j));
                    } else {
                        assert(j == k);
                    }
                }
                assert(m.contains_key(id.take(j0)));
            }
        }
    }
}

/// Children are the inverse of parents: a concept is among `p`'s children
/// exactly when `p` is its parent.
pub proof fn lemma_children_are_inverse(m: Map<Seq<char>, Reading>, p: Seq<char>, c: Seq<char>)
    requires
        m.dom().finite(),
    ensures
        ids_in_order(m).filter(|x: Seq<char>| parent_of(m, x) == Some(p)).contains(c) <==> (
        m.contains_key(c) && parent_of(m, c) == Some(p)),
{
    lemma_ids_exist(m);
    let ids = ids_in_order(m);
    let f = |x: Seq<char>| parent_of(m, x) == Some(p);
    if ids.filter(f).contains(c) {
        ids.lemma_filter_contains_rev(f, c);
        let i = choose|i: int| 0 <= i < ids.filter(f).len() && ids.filter(f)[i] == c;
        ids.lemma_filter_pred(f, i);
        assert(ids.to_set().contains(c));
    }
    if m.contains_key(c) && f(c) {
        assert(ids.to_set().contains(c));
        let k = choose|k: int| 0 <= k < ids.len() && ids[k] == c;
        ids.lemma_filter_contains(f, k);
    }
}

/// A finite map's keys can be listed in sorted order.
pub proof fn lemma_ids_exist(m: Map<Seq<char>, Reading>)
    requires
        m.dom().finite(),
    ensures
        crate::provenance::sorted_strictly(ids_in_order(m)),
        ids_in_order(m).to_set() == m.dom(),
    decreases m.dom().len(),
{
    if m.dom().len() == 0 {
        let e = Seq::<Seq<char>>::empty();
        assert(e.to_set() =~= m.dom());
    } else {
        let x = m.dom().choose();
        let rest = m.remove(x);
        assert(rest.dom() =~= m.dom().remove(x));
        lemma_ids_exist(rest);
        let s = ids_in_order(rest);
        let r = insert_in_order(s, x);
        assert(!s.to_set().contains(x));
        lemma_insert_in_order(s, x);
        assert(r.to_set() =~= m.dom());
    }
}

/// `s` with `x` inserted before the first member it sorts before.
pub open spec fn insert_in_order(s: Seq<Seq<char>>, x: Seq<char>) -> Seq<Seq<char>>
    decreases s.len(),
{
    if s.len() == 0 {
        seq![x]
    } else if crate::text::lex_lt(x, s[0]) {
        seq![x] + s
    } else {
        seq![s[0]] + insert_in_order(s.drop_first(), x)
    }
}

/// Inserting a new member in order keeps a run strictly sorted.
pub proof fn lemma_insert_in_order(s: Seq<Seq<char>>, x: Seq<char>)
    requires
        crate::provenance::sorted_strictly(s),
        !s.to_set().contains(x),
    ensures
        crate::provenance::sorted_strictly(insert_in_order(s, x)),
        insert_in_order(s, x).to_set() == s.to_set().insert(x),
        insert_in_order(s, x).len() == s.len() + 1,
        insert_in_order(s, x).len() > 0 && (insert_in_order(s, x)[0] == x || (s.len() > 0
            && insert_in_order(s, x)[0] == s[0])),
    decreases s.len(),
{
    let r = insert_in_order(s, x);
    if s.len() == 0 {
        assert forall|y: Seq<char>| r.to_set().contains(y) <==> s.to_set().insert(x).contains(y) by {
            if r.to_set().contains(y) {
                let k = choose|k: int| 0 <= k < r.len() && r[k] == y;
                assert(k == 0);
            }
            if y == x {
                assert(r[0] == y);
            }
        }
        assert(r.to_set() =~= s.to_set().insert(x));
    } else if crate::text::lex_lt(x, s[0]) {
        assert forall|p: int, q: int| 0 <= p < q < r.len() implies crate::text::lex_lt(
            #[trigger] r[p],
            #[trigger] r[q],
        ) by {
            if p == 0 {
                if q > 1 {
                    assert(crate::text::lex_lt(s[0], s[q - 1]));
                    crate::text::lemma_lex_transitive(x, s[0], s[q - 1]);
                }
            } else {
                assert(crate::text::lex_lt(s[p - 1], s[q - 1]));
            }
        }
        assert(r.to_set() =~= s.to_set().insert(x)) by {
            assert forall|y: Seq<char>| r.to_set().contains(y) <==> s.to_set().insert(x).contains(y) by {
                if r.to_set().contains(y) {
                    let k = choose|k: int| 0 <= k < r.len() && r[k] == y;
                    if k > 0 {
                        assert(s[k - 1] == y);
                    }
                }
                if s.to_set().contains(y) {
                    let k = choose|k: int| 0 <= k < s.len() && s[k] == y;
                    assert(r[k + 1] == y);
                }
                if y == x {
                    assert(r[0] == y);
                }
            }
        }
    } else {
        let t = s.drop_first();
        assert(crate::provenance::sorted_strictly(t)) by {
            assert forall|p: int, q: int| 0 <= p < q < t.len() implies crate::text::lex_lt(
                #[trigger] t[p],
                #[trigger] t[q],
            ) by {
                assert(crate::text::lex_lt(s[p + 1], s[q + 1]));
            }
        }
        assert(!t.to_set().contains(x)) by {
            if t.to_set().contains(x) {
                let k = choose|k: int| 0 <= k < t.len() && t[k] == x;
                assert(s[k + 1] == x);
                assert(s.to_set().contains(x));
            }
        }
        assert(s[0] != x) by {
            assert(s.to_set().contains(s[0]));
        }
        crate::text::lemma_lex_total(x, s[0]);
        lemma_insert_in_order(t, x);
        let rt = insert_in_order(t, x);
        assert(r =~= seq![s[0]] + rt);
        assert forall|p: int, q: int| 0 <= p < q < r.len() implies crate::text::lex_lt(
            #[trigger] r[p],
            #[trigger] r[q],
        ) by {
            if p == 0 {
                let y = r[q];
                assert(rt.to_set().contains(rt[q - 1]));
                assert(y == rt[q - 1]);
                if y == x {
                } else {
                    assert(t.to_set().contains(y));
                    let k = choose|k: int| 0 <= k < t.len() && t[k] == y;
                    assert(crate::text::lex_lt(s[0], s[k + 1]));
                }
            } else {
                assert(crate::text::lex_lt(rt[p - 1], rt[q - 1]));
            }
        }
        assert(r.to_set() =~= s.to_set().insert(x)) by {
            assert forall|y: Seq<char>| r.to_set().contains(y) <==> s.to_set().insert(x).contains(y) by {
                if r.to_set().contains(y) {
                    let k = choose|k: int| 0 <= k < r.len() && r[k] == y;
                    if k > 0 {
                        assert(rt.to_set().contains(rt[k - 1]));
                        if y != x {
                            assert(t.to_set().contains(y));
                            let j = choose|j: int| 0 <= j < t.len() && t[j] == y;
                            assert(s[j + 1] == y);
                        }
                    }
                }
                if s.to_set().contains(y) {
                    let k = choose|k: int| 0 <= k < s.len() && s[k] == y;
                    if k == 0 {
                        assert(r[0] == y);
                    } else {
                        assert(t[k - 1] == y);
                        assert(rt.to_set().contains(y));
                        let j = choose|j: int| 0 <= j < rt.len() && rt[j] == y;
                        assert(r[j + 1] == y);
                    }
                }
                if y == x {
                    assert(rt.to_set().contains(x));
                    let j = choose|j: int| 0 <= j < rt.len() && rt[j] == x;
                    assert(r[j + 1] == x);
                }
            }
        }
    }
}


/// Whether a finding does anything under the levels `set`: reports or fails.
pub open spec fn reported(set: Map<RuleName, crate::policy::Level>, f: (Seq<char>, RuleName, Seq<char>)) -> bool {
    crate::policy::level_rank(crate::policy::policy_level(set, f.1)) > 0
}

/// Whether a finding fails the run under the levels `set`.
pub open spec fn failing(set: Map<RuleName, crate::policy::Level>, f: (Seq<char>, RuleName, Seq<char>)) -> bool {
    crate::policy::policy_level(set, f.1) == crate::policy::Level::Defect
}

/// Borrowed findings by their parts.
pub open spec fn finding_refs_view(v: Seq<&Finding>) -> Seq<(Seq<char>, RuleName, Seq<char>)> {
    v.map_values(|f: &Finding| finding_parts(*f))
}

/// Borrowed IDs as characters.
pub open spec fn strs_view(v: Seq<&str>) -> Seq<Seq<char>> {
    v.map_values(|s: &str| s@)
}

/// The last `/` in `cs[0..end]`, or `end` when there is none.
fn last_slash_in(cs: &[char], end: usize) -> (r: usize)
    requires
        end <= cs@.len(),
    ensures
        r <= end,
        r == end ==> last_slash(cs@.take(end as int)) == -1,
        r < end ==> last_slash(cs@.take(end as int)) == r,
{
    let mut i = end;
    while i > 0 && cs[i - 1] != '/'
        invariant
            i <= end <= cs@.len(),
            last_slash(cs@.take(end as int)) == last_slash(cs@.take(i as int)),
        decreases i,
    {
        assert(cs@.take(i as int).drop_last() =~= cs@.take(i - 1));
        i -= 1;
    }
    if i == 0 {
        assert(cs@.take(0) =~= Seq::<char>::empty());
        end
    } else {
        assert(cs@.take(i as int).last() == '/');
        i - 1
    }
}

impl Bundle {
    /// The index of the concept with this ID, if the bundle has one.
    fn find_concept(&self, id: &[char]) -> (r: Option<usize>)
        requires
            self.wf(),
        ensures
            match r {
                Some(i) => i < self.concepts@.len() && self.concepts@[i as int].0@ == id@,
                None => !self@.concepts.contains_key(id@),
            },
    {
        proof {
            self.lemma_wf();
        }
        let mut i: usize = 0;
        while i < self.concepts.len()
            invariant
                i <= self.concepts@.len(),
                forall|j: int| 0 <= j < i ==> self.concepts@[j].0@ != id@,
            decreases self.concepts.len() - i,
        {
            let key = crate::text::chars_of_string(&self.concepts[i].0);
            if crate::text::chars_equal(&key, id) {
                return Some(i);
            }
            i += 1;
        }
        proof {
            if self@.concepts.contains_key(id@) {
                assert(self.held_ids().to_set().contains(id@));
                let j = choose|j: int| 0 <= j < self.held_ids().len() && self.held_ids()[j] == id@;
                assert(self.concepts@[j].0@ == id@);
            }
        }
        None
    }

    /// The concept with this Concept ID, if the bundle has one.
    pub fn concept(&self, id: &str) -> (r: Option<&Concept>)
        requires
            self.wf(),
        ensures
            match r {
                Some(c) => self@.concepts.contains_key(id@) && c.reading() == self@.concepts[id@],
                None => !self@.concepts.contains_key(id@),
            },
    {
        proof {
            self.lemma_wf();
        }
        let cs = crate::text::chars_of(id);
        match self.find_concept(&cs) {
            Some(i) => {
                assert(self@.concepts.contains_key(id@)) by {
                    assert(self.held_ids()[i as int] == id@);
                    assert(self.held_ids().to_set().contains(id@));
                }
                Some(&self.concepts[i].1)
            },
            None => None,
        }
    }

    /// Every concept, as `(id, concept)` pairs, in Concept ID order.
    pub fn concepts(&self) -> (r: Vec<(&str, &Concept)>)
        requires
            self.wf(),
        ensures
            r@.len() == ids_in_order(self@.concepts).len(),
            forall|i: int|
                0 <= i < r@.len() ==> (#[trigger] r@[i]).0@ == ids_in_order(self@.concepts)[i]
                    && r@[i].1.reading() == self@.concepts[r@[i].0@],
    {
        proof {
            self.lemma_wf();
        }
        let mut out: Vec<(&str, &Concept)> = Vec::new();
        let mut i: usize = 0;
        while i < self.concepts.len()
            invariant
                i <= self.concepts@.len(),
                self.held_ids() == ids_in_order(self@.concepts),
                forall|j: int|
                    0 <= j < self.concepts@.len() ==> self@.concepts[#[trigger] self.concepts@[j].0@]
                        == self.concepts@[j].1.reading(),
                out@.len() == i,
                forall|j: int|
                    0 <= j < i ==> (#[trigger] out@[j]).0@ == self.held_ids()[j] && out@[j].1.reading()
                        == self@.concepts[out@[j].0@],
            decreases self.concepts.len() - i,
        {
            let entry = &self.concepts[i];
            assert(self.held_ids()[i as int] == entry.0@);
            out.push((entry.0.as_str(), &entry.1));
            i += 1;
        }
        out
    }

    /// Every resolved body-link edge, in Concept ID order of the linking
    /// concept, then document order within a body.
    pub fn links(&self) -> (r: &Vec<BodyLink>)
        ensures
            body_link_pairs(r@) == self@.links,
    {
        &self.links
    }

    /// Every derivation edge: a `sources[].resource` that resolves to a
    /// concept, so `from` derives from `to`.
    pub fn derivations(&self) -> (r: &Vec<crate::provenance::Derivation>)
        ensures
            crate::provenance::edge_pairs(r@) == self@.derivations,
    {
        &self.derivations
    }

    /// The concepts `id` transitively derives from — the credibility
    /// propagation walk, sorted, deduplicated, and cycle-safe.
    pub fn derivation_ancestors(&self, id: &str) -> (r: Vec<String>)
        ensures
            crate::provenance::sorted_strictly(strings_view(r@)),
            forall|x: Seq<char>|
                strings_view(r@).contains(x) <==> (x != id@ && crate::provenance::derives_from(
                    self@.derivations,
                    id@,
                    x,
                )),
    {
        crate::provenance::ancestors(self.derivations.as_slice(), id)
    }

    /// Every finding reading the bundle produced, at the format's own
    /// severities, in the order found.
    pub fn findings(&self) -> (r: &Vec<Finding>)
        ensures
            findings_view(r@) == self@.findings,
    {
        &self.findings
    }

    /// Number of concepts (reserved files excluded).
    pub fn len(&self) -> (r: usize)
        requires
            self.wf(),
        ensures
            r == self@.concepts.dom().len(),
    {
        proof {
            self.lemma_wf();
            self.held_ids().unique_seq_to_set();
        }
        self.concepts.len()
    }

    /// Whether the bundle has no concepts.
    pub fn is_empty(&self) -> (r: bool)
        requires
            self.wf(),
        ensures
            r == (self@.concepts.dom().len() == 0),
    {
        self.len() == 0
    }

    /// The parent of a concept in the directory hierarchy: the nearest path
    /// ancestor that is itself a concept. `datasets/sales/detail` →
    /// `datasets/sales` if that is a concept, else `datasets`, else `None` — a
    /// directory with only an `index.md` is a scope, not a concept, so it links
    /// nothing.
    pub fn parent(&self, id: &str) -> (r: Option<&str>)
        requires
            self.wf(),
        ensures
            match r {
                Some(p) => parent_of(self@.concepts, id@) == Some(p@),
                None => parent_of(self@.concepts, id@) is None,
            },
    {
        proof {
            self.lemma_wf();
        }
        let cs = crate::text::chars_of(id);
        let mut end = cs.len();
        assert(cs@.take(end as int) =~= cs@);
        loop
            invariant
                end <= cs@.len(),
                parent_of(self@.concepts, id@) == parent_of(self@.concepts, cs@.take(end as int)),
                cs@ == id@,
                self.wf(),
                self@.concepts.dom() == self.held_ids().to_set(),
            decreases end,
        {
            let k = last_slash_in(&cs, end);
            if k == end {
                return None;
            }
            let ghost rest = cs@.take(end as int);
            assert(rest.take(k as int) =~= cs@.take(k as int));
            let ancestor = crate::text::string_of(&cs, 0, k);
            let key = crate::text::chars_of_string(&ancestor);
            assert(cs@.subrange(0, k as int) =~= cs@.take(k as int));
            match self.find_concept(&key) {
                Some(i) => {
                    assert(self@.concepts.contains_key(key@)) by {
                        assert(self.held_ids()[i as int] == key@);
                        assert(self.held_ids().to_set().contains(key@));
                    }
                    return Some(self.concepts[i].0.as_str());
                },
                None => {},
            }
            end = k;
        }
    }

    /// The concepts whose parent is `id`, in Concept ID order — the inverse of
    /// [`Bundle::parent`], so a grandchild attaches to its nearest concept
    /// ancestor, not to every ancestor.
    pub fn children(&self, id: &str) -> (r: Vec<&str>)
        requires
            self.wf(),
        ensures
            strs_view(r@) == ids_in_order(self@.concepts).filter(
                |x: Seq<char>| parent_of(self@.concepts, x) == Some(id@),
            ),
    {
        proof {
            self.lemma_wf();
        }
        let ghost ids = self.held_ids();
        let ghost f = |x: Seq<char>| parent_of(self@.concepts, x) == Some(id@);
        let mut out: Vec<&str> = Vec::new();
        let mut i: usize = 0;
        while i < self.concepts.len()
            invariant
                i <= self.concepts@.len(),
                ids == self.held_ids(),
                self.wf(),
                f == (|x: Seq<char>| parent_of(self@.concepts, x) == Some(id@)),
                strs_view(out@) == ids.take(i as int).filter(f),
            decreases self.concepts.len() - i,
        {
            let key = self.concepts[i].0.as_str();
            assert(ids[i as int] == key@);
            let p = self.parent(key);
            let hit = match p {
                Some(pv) => crate::text::str_is(pv, id),
                None => false,
            };
            let ghost prev = strs_view(out@);
            if hit {
                out.push(key);
            }
            proof {
                reveal(Seq::filter);
                assert(ids.take(i + 1).drop_last() =~= ids.take(i as int));
                assert(ids.take(i + 1).last() == key@);
                assert(hit == f(key@));
                if hit {
                    assert(strs_view(out@) =~= prev.push(key@));
                } else {
                    assert(strs_view(out@) =~= prev);
                }
            }
            i += 1;
        }
        assert(ids.take(i as int) =~= ids);
        out
    }

    /// The findings `policy` does not silence, in the order they were found.
    ///
    /// Filtering rather than skipping the work: every check runs while the
    /// bundle is read, so a silenced rule costs nothing to have computed, and a
    /// consumer that changes its mind about a level does not read it again.
    pub fn findings_at(&self, policy: &crate::policy::Policy) -> (r: Vec<&Finding>)
        ensures
            finding_refs_view(r@) == self@.findings.filter(
                |f: (Seq<char>, RuleName, Seq<char>)| reported(policy@, f),
            ),
    {
        let ghost fs = self@.findings;
        let ghost pred = |f: (Seq<char>, RuleName, Seq<char>)| reported(policy@, f);
        let mut out: Vec<&Finding> = Vec::new();
        let mut i: usize = 0;
        while i < self.findings.len()
            invariant
                i <= self.findings@.len(),
                fs == findings_view(self.findings@),
                pred == (|f: (Seq<char>, RuleName, Seq<char>)| reported(policy@, f)),
                finding_refs_view(out@) == fs.take(i as int).filter(pred),
            decreases self.findings.len() - i,
        {
            let f = &self.findings[i];
            let level = policy.level(&f.rule);
            let ghost prev = finding_refs_view(out@);
            let keep = crate::policy::is_reported(level);
            if keep {
                out.push(f);
            }
            proof {
                reveal(Seq::filter);
                assert(fs.take(i + 1).drop_last() =~= fs.take(i as int));
                assert(fs.take(i + 1).last() == finding_parts(*f));
                assert(keep == pred(finding_parts(*f)));
                if keep {
                    assert(finding_refs_view(out@) =~= prev.push(finding_parts(*f)));
                } else {
                    assert(finding_refs_view(out@) =~= prev);
                }
            }
            i += 1;
        }
        assert(fs.take(i as int) =~= fs);
        out
    }

    /// Whether the bundle fails under `policy` — whether any finding reaches
    /// [`Level::Defect`](crate::policy::Level::Defect). This is the exit
    /// code's question, and the only one a caller has to ask to gate on it.
    pub fn fails(&self, policy: &crate::policy::Policy) -> (r: bool)
        ensures
            r == exists|i: int| 0 <= i < self@.findings.len() && failing(policy@, #[trigger] self@.findings[i]),
    {
        let ghost fs = self@.findings;
        let mut i: usize = 0;
        while i < self.findings.len()
            invariant
                i <= self.findings@.len(),
                fs == findings_view(self.findings@),
                forall|j: int| 0 <= j < i ==> !failing(policy@, #[trigger] fs[j]),
            decreases self.findings.len() - i,
        {
            let level = policy.level(&self.findings[i].rule);
            assert(fs[i as int] == finding_parts(self.findings@[i as int]));
            match level {
                crate::policy::Level::Defect => {
                    assert(self@.findings == fs);
                    assert(failing(policy@, self@.findings[i as int]));
                    return true;
                },
                _ => {},
            }
            i += 1;
        }
        false
    }
}

/// A run that fails has something to show: a finding that fails is also one
/// that is reported, so `fails` implies `findings_at` is not empty.
pub proof fn lemma_failing_is_reported(
    set: Map<RuleName, crate::policy::Level>,
    fs: Seq<(Seq<char>, RuleName, Seq<char>)>,
    i: int,
)
    requires
        0 <= i < fs.len(),
        failing(set, fs[i]),
    ensures
        fs.filter(|f: (Seq<char>, RuleName, Seq<char>)| reported(set, f)).len() > 0,
{
    let pred = |f: (Seq<char>, RuleName, Seq<char>)| reported(set, f);
    assert(pred(fs[i]));
    fs.lemma_filter_contains(pred, i);
}

/// With no levels set, nothing is silenced: every finding of the format's own
/// rules and of a caller's rules is reported.
pub proof fn lemma_defaults_silence_nothing(fs: Seq<(Seq<char>, RuleName, Seq<char>)>)
    ensures
        fs.filter(|f: (Seq<char>, RuleName, Seq<char>)| reported(Map::empty(), f)) == fs,
    decreases fs.len(),
{
    reveal(Seq::filter);
    if fs.len() > 0 {
        lemma_defaults_silence_nothing(fs.drop_last());
        let last = fs.last();
        match last.1 {
            RuleName::Spec(rule) => {
                assert(crate::policy::level_rank(crate::policy::rule_default_level(rule)) > 0);
            },
            RuleName::Custom(_) => {},
        }
        assert(fs.drop_last().push(last) =~= fs);
    }
}


// ---------------------------------------------------------------------------
// Reading the tree.
// ---------------------------------------------------------------------------
/// The detail of a `BUNDLE-1` finding.
pub open spec fn duplicate_detail(id: Seq<char>) -> Seq<char> {
    "Concept ID `"@ + id + "` is already declared by another file"@
}

/// Add a concept under its ID, or report a duplicate: the first file to claim
/// an ID keeps it.
pub open spec fn after_concept(b: BundleView, id: Seq<char>, file: Seq<char>, reading: Reading) -> BundleView {
    if b.concepts.contains_key(id) {
        BundleView {
            findings: b.findings.push(rule_finding(file, Rule::DuplicateId, duplicate_detail(id))),
            ..b
        }
    } else {
        BundleView { concepts: b.concepts.insert(id, reading), ..b }
    }
}

/// The detail of a `CONCEPT-1` finding.
pub open spec fn not_a_concept_detail(u: crate::concept::Unreadable) -> Seq<char> {
    "not a concept document: "@ + crate::concept::unreadable_message(u)
}

/// Read one file of the tree: record it; keep a reserved file's text for
/// later; read a `*.md` file as a concept (its own findings, then its ID), or
/// report that it is not one. A file handed over without text is only
/// recorded.
pub open spec fn after_file(b: BundleView, file: Seq<char>, text: Option<Seq<char>>) -> BundleView {
    let b1 = BundleView { files: b.files.push(file), ..b };
    match text {
        None => b1,
        Some(t) => if is_reserved_path(file) {
            BundleView { reserved: b1.reserved.push((file, t)), ..b1 }
        } else if is_markdown_path(file) {
            match crate::concept::concept_reading(t) {
                Ok(reading) => after_concept(
                    BundleView {
                        findings: b1.findings + concept_findings(file, reading.1, reading.2),
                        ..b1
                    },
                    without_md(file),
                    file,
                    reading,
                ),
                Err(u) => BundleView {
                    findings: b1.findings.push(
                        rule_finding(file, Rule::NotAConcept, not_a_concept_detail(u)),
                    ),
                    ..b1
                },
            }
        } else {
            b1
        },
    }
}

/// Inserting a new key anywhere among keyed entries inserts it into their map.
proof fn lemma_map_insert(es: Seq<(Seq<char>, Reading)>, i: int, e: (Seq<char>, Reading))
    requires
        entry_keys(es).no_duplicates(),
        !entry_keys(es).contains(e.0),
        0 <= i <= es.len(),
    ensures
        entry_keys(es.insert(i, e)).no_duplicates(),
        entries_map(es.insert(i, e)) == entries_map(es).insert(e.0, e.1),
{
    let ns = es.insert(i, e);
    let nk = entry_keys(ns);
    let ok = entry_keys(es);
    assert(nk =~= ok.insert(i, e.0));
    assert(nk.no_duplicates()) by {
        assert forall|p: int, q: int| 0 <= p < nk.len() && 0 <= q < nk.len() && p != q implies nk[p] != nk[q] by {
            if p == i {
                assert(ok.contains(nk[q]) ==> nk[q] != e.0);
                if q < i {
                    assert(nk[q] == ok[q]);
                } else {
                    assert(nk[q] == ok[q - 1]);
                }
            } else if q == i {
                if p < i {
                    assert(nk[p] == ok[p]);
                } else {
                    assert(nk[p] == ok[p - 1]);
                }
            } else {
                let pp = if p < i { p } else { p - 1 };
                let qq = if q < i { q } else { q - 1 };
                assert(nk[p] == ok[pp] && nk[q] == ok[qq]);
            }
        }
    }
    lemma_entries_map(es);
    lemma_entries_map(ns);
    let m1 = entries_map(ns);
    let m2 = entries_map(es).insert(e.0, e.1);
    assert(m1.dom() =~= m2.dom()) by {
        assert forall|x: Seq<char>| m1.dom().contains(x) <==> m2.dom().contains(x) by {
            if nk.to_set().contains(x) {
                let k = choose|k: int| 0 <= k < nk.len() && nk[k] == x;
                if k < i {
                    assert(ok[k] == x);
                    assert(ok.to_set().contains(x));
                } else if k > i {
                    assert(ok[k - 1] == x);
                    assert(ok.to_set().contains(x));
                }
            }
            if ok.to_set().contains(x) {
                let k = choose|k: int| 0 <= k < ok.len() && ok[k] == x;
                if k < i {
                    assert(nk[k] == x);
                } else {
                    assert(nk[k + 1] == x);
                }
                assert(nk.to_set().contains(x));
            }
            if x == e.0 {
                assert(nk[i] == x);
                assert(nk.to_set().contains(x));
            }
        }
    }
    assert forall|x: Seq<char>| m1.dom().contains(x) implies m1[x] == m2[x] by {
        let k = choose|k: int| 0 <= k < nk.len() && nk[k] == x;
        assert(ns[k].0 == x);
        if k == i {
        } else if k < i {
            assert(ns[k] == es[k]);
            assert(entries_map(es)[es[k].0] == es[k].1);
        } else {
            assert(ns[k] == es[k - 1]);
            assert(entries_map(es)[es[k - 1].0] == es[k - 1].1);
        }
    }
    assert(m1 =~= m2);
}

impl Bundle {
    /// Add a concept under its id, or report a duplicate.
    ///
    /// Distinct files give distinct ids within one tree, so `BUNDLE-1` cannot
    /// fire from a well-formed bundle; the guard is defensive (a merged or
    /// overlaid bundle, or symlink/case-fold aliasing, could collide). The first
    /// file to claim an id keeps it, so resolution stays deterministic.
    pub fn add_concept(&mut self, id: String, file: String, concept: Concept)
        requires
            old(self).wf(),
        ensures
            final(self).wf(),
            final(self)@ == after_concept(old(self)@, id@, file@, concept.reading()),
    {
        proof {
            self.lemma_wf();
        }
        let ghost before = self@;
        let ghost keys = self.held_ids();
        let key = crate::text::chars_of_string(&id);
        let mut i: usize = 0;
        while i < self.concepts.len() && crate::text::chars_lt(
            &crate::text::chars_of_string(&self.concepts[i].0),
            &key,
        )
            invariant
                i <= self.concepts@.len(),
                keys == self.held_ids(),
                crate::provenance::sorted_strictly(keys),
                key@ == id@,
                forall|j: int| 0 <= j < i ==> crate::text::lex_lt(#[trigger] keys[j], id@),
            decreases self.concepts.len() - i,
        {
            assert(keys[i as int] == self.concepts@[i as int].0@);
            i += 1;
        }
        assert(i < self.concepts@.len() ==> keys[i as int] == self.concepts@[i as int].0@);
        if i < self.concepts.len() {
            let k = crate::text::chars_of_string(&self.concepts[i].0);
            if crate::text::chars_equal(&k, &key) {
                assert(keys[i as int] == id@);
                assert(self@.concepts.contains_key(id@)) by {
                    assert(keys.to_set().contains(id@));
                }
                let mut d = string_from("Concept ID `");
                d = concat_string(&d, &id);
                d = concat(&d, "` is already declared by another file");
                push_finding(&mut self.findings, file.as_str(), Rule::DuplicateId, d);
                assert(self@ =~= after_concept(before, id@, file@, concept.reading()));
                return;
            }
        }
        proof {
            assert(!keys.contains(id@)) by {
                if keys.contains(id@) {
                    let j = choose|j: int| 0 <= j < keys.len() && keys[j] == id@;
                    if j < i {
                        crate::text::lemma_lex_asymmetric(id@, id@);
                    } else {
                        assert(keys[i as int] != id@);
                        if j > i {
                            assert(crate::text::lex_lt(keys[i as int], keys[j]));
                            assert(!crate::text::lex_lt(keys[i as int], id@));
                        }
                    }
                }
            }
            assert(!before.concepts.contains_key(id@)) by {
                if before.concepts.contains_key(id@) {
                    assert(keys.to_set().contains(id@));
                }
            }
        }
        let ghost es = concept_entries(self.concepts@);
        let ghost entry = (id@, concept.reading());
        self.concepts.insert(i, (id, concept));
        proof {
            assert(concept_entries(self.concepts@) =~= es.insert(i as int, entry));
            lemma_map_insert(es, i as int, entry);
            let nk = self.held_ids();
            assert(nk =~= keys.insert(i as int, entry.0));
            assert forall|p: int, q: int| 0 <= p < q < nk.len() implies crate::text::lex_lt(
                #[trigger] nk[p],
                #[trigger] nk[q],
            ) by {
                if q < i {
                    assert(crate::text::lex_lt(keys[p], keys[q]));
                } else if q == i {
                    assert(crate::text::lex_lt(keys[p], entry.0));
                } else if p < i {
                    assert(crate::text::lex_lt(keys[p], entry.0));
                    assert(keys[q - 1] != entry.0);
                    assert(!crate::text::lex_lt(keys[i as int], entry.0));
                    crate::text::lemma_lex_total(keys[i as int], entry.0);
                    if q - 1 > i {
                        assert(crate::text::lex_lt(keys[i as int], keys[q - 1]));
                        crate::text::lemma_lex_transitive(entry.0, keys[i as int], keys[q - 1]);
                    }
                    crate::text::lemma_lex_transitive(keys[p], entry.0, keys[q - 1]);
                } else if p == i {
                    assert(keys[i as int] != entry.0);
                    crate::text::lemma_lex_total(keys[i as int], entry.0);
                    if q - 1 > i {
                        assert(crate::text::lex_lt(keys[i as int], keys[q - 1]));
                        crate::text::lemma_lex_transitive(entry.0, keys[i as int], keys[q - 1]);
                    }
                } else {
                    assert(crate::text::lex_lt(keys[p - 1], keys[q - 1]));
                }
            }
            assert(self@ =~= after_concept(before, id@, file@, concept.reading()));
        }
    }

    /// Read one file of the tree (see [`after_file`]).
    fn add_file(&mut self, file: String, text: Option<String>)
        requires
            old(self).wf(),
        ensures
            final(self).wf(),
            final(self)@ == after_file(old(self)@, file@, crate::concept::opt_str(text)),
    {
        let ghost before = self@;
        self.files.push(file.clone());
        let ghost b1 = self@;
        assert(b1 =~= BundleView { files: before.files.push(file@), ..before });
        match text {
            None => {},
            Some(t) => {
                let name = reserved_name(file.as_str());
                let reserved = crate::text::str_is(name.as_str(), "index.md")
                    || crate::text::str_is(name.as_str(), "log.md");
                if reserved {
                    let ghost tv = t@;
                    self.reserved.push((file, t));
                    assert(self@ =~= BundleView { reserved: b1.reserved.push((file@, tv)), ..b1 });
                } else if needs_text(file.as_str()) {
                    match Concept::parse(t.as_str()) {
                        Ok(concept) => {
                            let found = check_concept(file.as_str(), &concept);
                            let mut k: usize = 0;
                            while k < found.len()
                                invariant
                                    k <= found@.len(),
                                    self.wf(),
                                    self@ == (BundleView {
                                        findings: b1.findings + findings_view(found@).take(k as int),
                                        ..b1
                                    }),
                                decreases found.len() - k,
                            {
                                let ghost prev = self@;
                                let ghost pf = self.findings@;
                                let f = Finding::new(
                                    found[k].file.clone(),
                                    found[k].rule.duplicate(),
                                    found[k].detail.clone(),
                                );
                                assert(finding_parts(f) == finding_parts(found@[k as int]));
                                self.findings.push(f);
                                assert(findings_view(self.findings@) =~= findings_view(pf).push(
                                    finding_parts(found@[k as int]),
                                ));
                                assert(findings_view(found@).take(k + 1) =~= findings_view(
                                    found@,
                                ).take(k as int).push(finding_parts(found@[k as int])));
                                assert(self@ =~= (BundleView {
                                    findings: b1.findings + findings_view(found@).take(k + 1),
                                    ..b1
                                }));
                                k += 1;
                            }
                            assert(findings_view(found@).take(k as int) =~= findings_view(found@));
                            let id = strip_md(file.as_str());
                            self.add_concept(id, file, concept);
                        },
                        Err(e) => {
                            let d = concat_string(&string_from("not a concept document: "), &e.message());
                            push_finding(&mut self.findings, file.as_str(), Rule::NotAConcept, d);
                        },
                    }
                }
            },
        }
        assert(self@ =~= after_file(before, file@, crate::concept::opt_str(text)));
    }
}


// ---------------------------------------------------------------------------
// Body links.
// ---------------------------------------------------------------------------
/// The Concept ID a body link points at, or `None` when the link cannot name a
/// concept (external, a bare fragment, or a target that is not a `.md` file):
/// the target is resolved as a path against `from`, then the `.md` a concept
/// link must carry is removed.
pub open spec fn concept_target(from: Seq<char>, target: Seq<char>, kind: crate::links::LinkKind) -> Option<Seq<char>> {
    match kind {
        crate::links::LinkKind::BundleAbsolute | crate::links::LinkKind::Relative => {
            if ends_with_md(target.take(find_char(target, '#'))) {
                Some(without_md(crate::paths::resolved(from, target)))
            } else {
                None
            }
        },
        _ => None,
    }
}

/// The Concept ID a body link points at (see [`concept_target`]).
pub fn resolve_concept_target(from: &str, link: &crate::links::Link) -> (r: Option<String>)
    ensures
        crate::concept::opt_str(r) == concept_target(from@, link.target@, link.kind),
{
    match link.kind {
        crate::links::LinkKind::BundleAbsolute | crate::links::LinkKind::Relative => {},
        _ => {
            return None;
        },
    }
    let cs = crate::text::chars_of(link.target.as_str());
    let n = cs.len();
    assert(cs@.subrange(0, n as int) =~= cs@);
    let hash = find_in(&cs, 0, n, '#');
    let path = crate::text::string_of(&cs, 0, hash);
    assert(cs@.subrange(0, hash as int) =~= cs@.take(hash as int));
    let pc = crate::text::chars_of(path.as_str());
    if !chars_end_md(&pc) {
        return None;
    }
    let resolved = crate::paths::resolve_path(from, link.target.as_str());
    Some(strip_md(resolved.as_str()))
}

/// The body-link edges and `BUNDLE-2` reports of one concept's links, in
/// document order.
pub open spec fn link_results(m: Map<Seq<char>, Reading>, from: Seq<char>, targets: Seq<Seq<char>>) -> (
    Seq<(Seq<char>, Seq<char>)>,
    Seq<(Seq<char>, RuleName, Seq<char>)>,
)
    decreases targets.len(),
{
    if targets.len() == 0 {
        (seq![], seq![])
    } else {
        let (es, fs) = link_results(m, from, targets.drop_last());
        let t = targets.last();
        match concept_target(from, t, crate::links::link_kind(t)) {
            None => (es, fs),
            Some(to) => if m.contains_key(to) {
                (es.push((from, to)), fs)
            } else {
                (
                    es,
                    fs.push(
                        rule_finding(
                            from + ".md"@,
                            Rule::DanglingLink,
                            "link to `"@ + t + "` resolves to no concept in the bundle"@,
                        ),
                    ),
                )
            },
        }
    }
}

/// Every concept's body-link results, concept by concept in the order of `ids`.
pub open spec fn all_link_results(m: Map<Seq<char>, Reading>, ids: Seq<Seq<char>>) -> (
    Seq<(Seq<char>, Seq<char>)>,
    Seq<(Seq<char>, RuleName, Seq<char>)>,
)
    decreases ids.len(),
{
    if ids.len() == 0 {
        (seq![], seq![])
    } else {
        let (es, fs) = all_link_results(m, ids.drop_last());
        let id = ids.last();
        let (e1, f1) = link_results(m, id, crate::links::body_links(m[id].2));
        (es + e1, fs + f1)
    }
}

impl Bundle {
    /// Whether a concept with this ID is held.
    fn holds_concept(&self, id: &str) -> (r: bool)
        requires
            self.wf(),
        ensures
            r == self@.concepts.contains_key(id@),
    {
        proof {
            self.lemma_wf();
        }
        let cs = crate::text::chars_of(id);
        match self.find_concept(&cs) {
            Some(i) => {
                assert(self.held_ids()[i as int] == id@);
                assert(self.held_ids().to_set().contains(id@));
                true
            },
            None => false,
        }
    }

    /// Resolve every concept's body links against the held concepts: a link
    /// that lands on a concept becomes an edge, one that lands nowhere becomes
    /// a dangling `BUNDLE-2` report. Runs after every concept is known, so a
    /// forward reference resolves regardless of the order files were read.
    fn resolve_links(&mut self)
        requires
            old(self).wf(),
        ensures
            final(self).wf(),
            final(self)@ == (BundleView {
                links: all_link_results(old(self)@.concepts, ids_in_order(old(self)@.concepts)).0,
                findings: old(self)@.findings + all_link_results(
                    old(self)@.concepts,
                    ids_in_order(old(self)@.concepts),
                ).1,
                ..old(self)@
            }),
    {
        proof {
            self.lemma_wf();
        }
        let ghost m = self@.concepts;
        let ghost ids = self.held_ids();
        let mut edges: Vec<BodyLink> = Vec::new();
        let mut found: Vec<Finding> = Vec::new();
        let mut i: usize = 0;
        while i < self.concepts.len()
            invariant
                i <= self.concepts@.len(),
                self.wf(),
                m == self@.concepts,
                ids == self.held_ids(),
                forall|j: int|
                    0 <= j < self.concepts@.len() ==> m[#[trigger] self.concepts@[j].0@]
                        == self.concepts@[j].1.reading(),
                (body_link_pairs(edges@), findings_view(found@)) == all_link_results(m, ids.take(i as int)),
            decreases self.concepts.len() - i,
        {
            let from = &self.concepts[i].0;
            let links = crate::links::links_in(self.concepts[i].1.body().as_str());
            let ghost body = self.concepts@[i as int].1.reading().2;
            assert(ids[i as int] == from@);
            assert(m[from@].2 == body);
            let ghost targets = crate::links::body_links(body);
            let ghost e0 = body_link_pairs(edges@);
            let ghost f0 = findings_view(found@);
            let mut k: usize = 0;
            while k < links.len()
                invariant
                    k <= links@.len(),
                    self.wf(),
                    m == self@.concepts,
                    crate::links::link_targets(links@) == targets,
                    crate::links::links_classified(links@),
                    (body_link_pairs(edges@), findings_view(found@)) == ({
                        let (e1, f1) = link_results(m, from@, targets.take(k as int));
                        (e0 + e1, f0 + f1)
                    }),
                decreases links.len() - k,
            {
                let link = &links[k];
                assert(targets[k as int] == link.target@);
                assert(link.kind == crate::links::link_kind(link.target@));
                assert(targets.take(k + 1).drop_last() =~= targets.take(k as int));
                assert(targets.take(k + 1).last() == link.target@);
                let ghost pe = edges@;
                let ghost pf = found@;
                match resolve_concept_target(from.as_str(), link) {
                    None => {},
                    Some(to) => {
                        if self.holds_concept(to.as_str()) {
                            edges.push(BodyLink { from: from.clone(), to });
                            assert(body_link_pairs(edges@) =~= body_link_pairs(pe).push(
                                (from@, edges@.last().to@),
                            ));
                        } else {
                            let file = concat(from, ".md");
                            let mut d = string_from("link to `");
                            d = concat_string(&d, &link.target);
                            d = concat(&d, "` resolves to no concept in the bundle");
                            push_finding(&mut found, file.as_str(), Rule::DanglingLink, d);
                        }
                    },
                }
                k += 1;
            }
            assert(targets.take(k as int) =~= targets);
            assert(ids.take(i + 1).drop_last() =~= ids.take(i as int));
            assert(ids.take(i + 1).last() == from@);
            i += 1;
        }
        assert(ids.take(i as int) =~= ids);
        let ghost before = self@;
        self.links = edges;
        let mut j: usize = 0;
        while j < found.len()
            invariant
                j <= found@.len(),
                self.wf(),
                self@ == (BundleView {
                    links: body_link_pairs(edges@),
                    findings: before.findings + findings_view(found@).take(j as int),
                    ..before
                }),
            decreases found.len() - j,
        {
            let ghost pf = self.findings@;
            let f = Finding::new(
                found[j].file.clone(),
                found[j].rule.duplicate(),
                found[j].detail.clone(),
            );
            assert(finding_parts(f) == finding_parts(found@[j as int]));
            self.findings.push(f);
            assert(findings_view(self.findings@) =~= findings_view(pf).push(
                finding_parts(found@[j as int]),
            ));
            assert(findings_view(found@).take(j + 1) =~= findings_view(found@).take(j as int).push(
                finding_parts(found@[j as int]),
            ));
            j += 1;
        }
        assert(findings_view(found@).take(j as int) =~= findings_view(found@));
    }
}


// ---------------------------------------------------------------------------
// Path-valued fields.
// ---------------------------------------------------------------------------
/// Whether a path-valued field's value is a path to check: a bundle path or a
/// relative one, not a URL or a scope descriptor.
pub open spec fn is_checked_path(kind: crate::paths::PathKind) -> bool {
    kind is BundlePath || kind is Relative
}

/// A `BUNDLE-3` finding when a path-valued field names a bundle file that is
/// not present. Only bundle-path and relative targets are checked; a URL or a
/// `sources` scope descriptor is not a path and is skipped, and so is a blank
/// value.
pub open spec fn path_part(
    from: Seq<char>,
    files: Seq<Seq<char>>,
    field: Seq<char>,
    value: Seq<char>,
    allow_scope: bool,
) -> Seq<(Seq<char>, RuleName, Seq<char>)> {
    if trim(value).len() == 0 {
        seq![]
    } else if is_checked_path(crate::paths::path_kind(value, allow_scope)) && !files.contains(
        crate::paths::resolved(from, value),
    ) {
        seq![
            rule_finding(
                from + ".md"@,
                Rule::DanglingPath,
                "`"@ + field + "` path `"@ + value + "` resolves to no file in the bundle"@,
            ),
        ]
    } else {
        seq![]
    }
}

/// [`path_part`] for a present value.
pub open spec fn present_path(
    from: Seq<char>,
    files: Seq<Seq<char>>,
    field: Seq<char>,
    value: Option<Seq<char>>,
    allow_scope: bool,
) -> Seq<(Seq<char>, RuleName, Seq<char>)> {
    match value {
        Some(v) => path_part(from, files, field, v, allow_scope),
        None => seq![],
    }
}

/// The `sources[i].resource` paths, in order.
pub open spec fn source_paths(from: Seq<char>, files: Seq<Seq<char>>, ss: Seq<SourceReading>) -> Seq<(Seq<char>, RuleName, Seq<char>)>
    decreases ss.len(),
{
    if ss.len() == 0 {
        seq![]
    } else {
        source_paths(from, files, ss.drop_last()) + present_path(
            from,
            files,
            field_at("sources["@, (ss.len() - 1) as nat, "].resource"@),
            ss.last().resource,
            true,
        )
    }
}

/// One concept's path-valued fields: `resource`, `computation`, each
/// `sources[i].resource`, `executor.resource`, `attester.resource`.
pub open spec fn concept_paths(from: Seq<char>, files: Seq<Seq<char>>, e: Seq<(Yaml, Yaml)>) -> Seq<(Seq<char>, RuleName, Seq<char>)> {
    present_path(from, files, "resource"@, field_string(e, "resource"@), false) + present_path(
        from,
        files,
        "computation"@,
        field_string(e, "computation"@),
        false,
    ) + source_paths(from, files, field_sources(e)) + (match field_executor(e) {
        Some((resource, _)) => present_path(from, files, "executor.resource"@, resource, false),
        None => seq![],
    }) + (match field_attester(e) {
        Some(resource) => present_path(from, files, "attester.resource"@, resource, false),
        None => seq![],
    })
}

/// Every concept's path findings, concept by concept in the order of `ids`.
pub open spec fn all_paths(m: Map<Seq<char>, Reading>, ids: Seq<Seq<char>>, files: Seq<Seq<char>>) -> Seq<(Seq<char>, RuleName, Seq<char>)>
    decreases ids.len(),
{
    if ids.len() == 0 {
        seq![]
    } else {
        all_paths(m, ids.drop_last(), files) + concept_paths(ids.last(), files, m[ids.last()].1)
    }
}

/// Whether `files` holds `x`.
fn holds_string(files: &Vec<String>, x: &str) -> (r: bool)
    ensures
        r == strings_view(files@).contains(x@),
{
    let mut i: usize = 0;
    while i < files.len()
        invariant
            i <= files@.len(),
            forall|j: int| 0 <= j < i ==> files@[j]@ != x@,
        decreases files.len() - i,
    {
        if crate::text::str_is(files[i].as_str(), x) {
            assert(strings_view(files@)[i as int] == x@);
            return true;
        }
        i += 1;
    }
    proof {
        if strings_view(files@).contains(x@) {
            let j = choose|j: int| 0 <= j < strings_view(files@).len() && strings_view(files@)[j] == x@;
            assert(files@[j]@ == x@);
        }
    }
    false
}

/// Append [`path_part`].
fn check_path(
    from: &str,
    field: &str,
    value: &str,
    allow_scope: bool,
    files: &Vec<String>,
    out: &mut Vec<Finding>,
)
    ensures
        findings_view(final(out)@) == findings_view(old(out)@) + path_part(
            from@,
            strings_view(files@),
            field@,
            value@,
            allow_scope,
        ),
{
    let ghost before = findings_view(out@);
    if is_blank(value) {
        assert(findings_view(out@) =~= before + path_part(from@, strings_view(files@), field@, value@, allow_scope));
        return;
    }
    let kind = crate::paths::classify_path(value, allow_scope);
    let checked = match kind {
        crate::paths::PathKind::BundlePath | crate::paths::PathKind::Relative => true,
        _ => false,
    };
    if checked {
        let target = crate::paths::resolve_path(from, value);
        if !holds_string(files, target.as_str()) {
            let file = concat(&string_from(from), ".md");
            let mut d = string_from("`");
            d = concat(&d, field);
            d = concat(&d, "` path `");
            d = concat(&d, value);
            d = concat(&d, "` resolves to no file in the bundle");
            push_finding(out, file.as_str(), Rule::DanglingPath, d);
        }
    }
    assert(findings_view(out@) =~= before + path_part(from@, strings_view(files@), field@, value@, allow_scope));
}

/// Append [`present_path`].
fn check_present_path(
    from: &str,
    field: &str,
    value: Option<&str>,
    allow_scope: bool,
    files: &Vec<String>,
    out: &mut Vec<Finding>,
)
    ensures
        findings_view(final(out)@) == findings_view(old(out)@) + present_path(
            from@,
            strings_view(files@),
            field@,
            crate::concept::opt_text(value),
            allow_scope,
        ),
{
    match value {
        Some(v) => check_path(from, field, v, allow_scope, files, out),
        None => {
            assert(findings_view(out@) =~= findings_view(old(out)@) + present_path(
                from@,
                strings_view(files@),
                field@,
                crate::concept::opt_text(value),
                allow_scope,
            ));
        },
    }
}

/// A borrowed view of an owned optional string.
fn as_ref_string(o: &Option<String>) -> (r: Option<&str>)
    ensures
        crate::concept::opt_text(r) == crate::concept::opt_str(*o),
{
    match o {
        Some(s) => Some(s.as_str()),
        None => None,
    }
}

/// Append [`concept_paths`].
fn check_concept_paths(from: &str, concept: &Concept, files: &Vec<String>, out: &mut Vec<Finding>)
    ensures
        findings_view(final(out)@) == findings_view(old(out)@) + concept_paths(
            from@,
            strings_view(files@),
            concept.reading().1,
        ),
{
    let fm = concept.frontmatter();
    let ghost e = fm.entries();
    let ghost fv = strings_view(files@);
    let ghost before = findings_view(out@);
    check_present_path(from, "resource", fm.resource(), false, files, out);
    let ghost p1 = findings_view(out@);
    check_present_path(from, "computation", fm.computation(), false, files, out);
    let ghost p2 = findings_view(out@);
    let sources = fm.sources();
    let ghost ss = field_sources(e);
    let mut i: usize = 0;
    while i < sources.len()
        invariant
            i <= sources@.len(),
            ss == sources@.map_values(|x: crate::concept::Source| x@),
            fv == strings_view(files@),
            findings_view(out@) == p2 + source_paths(from@, fv, ss.take(i as int)),
        decreases sources.len() - i,
    {
        assert(ss.take(i + 1).drop_last() =~= ss.take(i as int));
        assert(ss.take(i + 1).last() == sources@[i as int]@);
        let f = field_name("sources[", i, "].resource");
        let ghost base = findings_view(out@);
        check_present_path(from, f.as_str(), as_ref_string(&sources[i].resource), true, files, out);
        assert(findings_view(out@) =~= p2 + source_paths(from@, fv, ss.take(i + 1)));
        i += 1;
    }
    assert(ss.take(i as int) =~= ss);
    let ghost p3 = findings_view(out@);
    match fm.executor() {
        Some(x) => check_present_path(from, "executor.resource", as_ref_string(&x.resource), false, files, out),
        None => {},
    }
    let ghost p4 = findings_view(out@);
    match fm.attester() {
        Some(x) => check_present_path(from, "attester.resource", as_ref_string(&x.resource), false, files, out),
        None => {},
    }
    assert(findings_view(out@) =~= before + concept_paths(from@, fv, e));
}

impl Bundle {
    /// Append findings to the bundle's own, in order.
    fn append_findings(&mut self, found: Vec<Finding>)
        requires
            old(self).wf(),
        ensures
            final(self).wf(),
            final(self)@ == (BundleView {
                findings: old(self)@.findings + findings_view(found@),
                ..old(self)@
            }),
    {
        let ghost before = self@;
        let mut j: usize = 0;
        while j < found.len()
            invariant
                j <= found@.len(),
                self.wf(),
                self@ == (BundleView {
                    findings: before.findings + findings_view(found@).take(j as int),
                    ..before
                }),
            decreases found.len() - j,
        {
            let ghost pf = self.findings@;
            let f = Finding::new(
                found[j].file.clone(),
                found[j].rule.duplicate(),
                found[j].detail.clone(),
            );
            assert(finding_parts(f) == finding_parts(found@[j as int]));
            self.findings.push(f);
            assert(findings_view(self.findings@) =~= findings_view(pf).push(
                finding_parts(found@[j as int]),
            ));
            assert(findings_view(found@).take(j + 1) =~= findings_view(found@).take(j as int).push(
                finding_parts(found@[j as int]),
            ));
            j += 1;
        }
        assert(findings_view(found@).take(j as int) =~= findings_view(found@));
    }

    /// Resolve each concept's path-valued fields against the file set: a
    /// bundle-path or relative target that names no file is a dangling
    /// `BUNDLE-3` report. URLs and `sources` scope descriptors are not paths and
    /// are left alone.
    fn resolve_paths(&mut self)
        requires
            old(self).wf(),
        ensures
            final(self).wf(),
            final(self)@ == (BundleView {
                findings: old(self)@.findings + all_paths(
                    old(self)@.concepts,
                    ids_in_order(old(self)@.concepts),
                    old(self)@.files,
                ),
                ..old(self)@
            }),
    {
        proof {
            self.lemma_wf();
        }
        let ghost m = self@.concepts;
        let ghost ids = self.held_ids();
        let mut found: Vec<Finding> = Vec::new();
        let mut i: usize = 0;
        while i < self.concepts.len()
            invariant
                i <= self.concepts@.len(),
                self.wf(),
                m == self@.concepts,
                ids == self.held_ids(),
                forall|j: int|
                    0 <= j < self.concepts@.len() ==> m[#[trigger] self.concepts@[j].0@]
                        == self.concepts@[j].1.reading(),
                findings_view(found@) == all_paths(m, ids.take(i as int), self@.files),
            decreases self.concepts.len() - i,
        {
            let from = &self.concepts[i].0;
            assert(ids[i as int] == from@);
            check_concept_paths(from.as_str(), &self.concepts[i].1, &self.files, &mut found);
            assert(ids.take(i + 1).drop_last() =~= ids.take(i as int));
            assert(ids.take(i + 1).last() == from@);
            i += 1;
        }
        assert(ids.take(i as int) =~= ids);
        self.append_findings(found);
    }
}


// ---------------------------------------------------------------------------
// Derivation.
// ---------------------------------------------------------------------------
/// The Concept ID a `sources[].resource` derives from, or `None` when it is
/// not a concept: a URL or scope descriptor, or a path to a non-`.md` file (an
/// external leaf mirrored under `references/`), or a `.md` path that names no
/// concept.
pub open spec fn derivation_target_of(m: Map<Seq<char>, Reading>, from: Seq<char>, resource: Seq<char>) -> Option<Seq<char>> {
    if is_checked_path(crate::paths::path_kind(resource, true)) {
        let path = crate::paths::resolved(from, resource);
        if ends_with_md(path) && m.contains_key(without_md(path)) {
            Some(without_md(path))
        } else {
            None
        }
    } else {
        None
    }
}

/// The derivation edges of one concept's sources, in order.
pub open spec fn source_edges(m: Map<Seq<char>, Reading>, from: Seq<char>, ss: Seq<SourceReading>) -> Seq<(Seq<char>, Seq<char>)>
    decreases ss.len(),
{
    if ss.len() == 0 {
        seq![]
    } else {
        source_edges(m, from, ss.drop_last()) + match ss.last().resource {
            Some(r) => match derivation_target_of(m, from, r) {
                Some(to) => seq![(from, to)],
                None => seq![],
            },
            None => seq![],
        }
    }
}

/// Every concept's derivation edges, concept by concept in the order of `ids`.
pub open spec fn all_edges(m: Map<Seq<char>, Reading>, ids: Seq<Seq<char>>) -> Seq<(Seq<char>, Seq<char>)>
    decreases ids.len(),
{
    if ids.len() == 0 {
        seq![]
    } else {
        all_edges(m, ids.drop_last()) + source_edges(m, ids.last(), field_sources(m[ids.last()].1))
    }
}

/// The `BUNDLE-4` finding for one cycle: located at its first member, spelling
/// the loop out back to where it started.
pub open spec fn cycle_finding(c: Seq<Seq<char>>) -> (Seq<char>, RuleName, Seq<char>) {
    rule_finding(
        c[0] + ".md"@,
        Rule::DerivationCycle,
        "derivation cycle: "@ + join_with(c.push(c[0]), " \u{2192} "@),
    )
}

impl Bundle {
    /// The Concept ID a `sources[].resource` derives from (see
    /// [`derivation_target_of`]).
    fn derivation_target(&self, from: &str, resource: &str) -> (r: Option<String>)
        requires
            self.wf(),
        ensures
            crate::concept::opt_str(r) == derivation_target_of(self@.concepts, from@, resource@),
    {
        let kind = crate::paths::classify_path(resource, true);
        match kind {
            crate::paths::PathKind::BundlePath | crate::paths::PathKind::Relative => {},
            _ => {
                return None;
            },
        }
        let path = crate::paths::resolve_path(from, resource);
        let pc = crate::text::chars_of(path.as_str());
        if !chars_end_md(&pc) {
            return None;
        }
        let id = strip_md(path.as_str());
        if self.holds_concept(id.as_str()) {
            Some(id)
        } else {
            None
        }
    }

    /// Build the derivation graph: a `sources[].resource` that resolves to a
    /// concept is an edge from the deriving concept to its source. Then report
    /// each of its cycles as `BUNDLE-4`.
    fn resolve_provenance(&mut self)
        requires
            old(self).wf(),
        ensures
            final(self).wf(),
            ({
                let es = all_edges(old(self)@.concepts, ids_in_order(old(self)@.concepts));
                final(self)@ == (BundleView {
                    derivations: es,
                    findings: old(self)@.findings + crate::provenance::dfs_cycles(es).map_values(
                        |c: Seq<Seq<char>>| cycle_finding(c),
                    ),
                    ..old(self)@
                })
            }),
    {
        proof {
            self.lemma_wf();
        }
        let ghost m = self@.concepts;
        let ghost ids = self.held_ids();
        let mut edges: Vec<crate::provenance::Derivation> = Vec::new();
        let mut i: usize = 0;
        while i < self.concepts.len()
            invariant
                i <= self.concepts@.len(),
                self.wf(),
                m == self@.concepts,
                ids == self.held_ids(),
                forall|j: int|
                    0 <= j < self.concepts@.len() ==> m[#[trigger] self.concepts@[j].0@]
                        == self.concepts@[j].1.reading(),
                crate::provenance::edge_pairs(edges@) == all_edges(m, ids.take(i as int)),
            decreases self.concepts.len() - i,
        {
            let from = &self.concepts[i].0;
            assert(ids[i as int] == from@);
            let sources = self.concepts[i].1.frontmatter().sources();
            let ghost ss = field_sources(m[from@].1);
            let ghost e0 = crate::provenance::edge_pairs(edges@);
            let mut k: usize = 0;
            while k < sources.len()
                invariant
                    k <= sources@.len(),
                    self.wf(),
                    m == self@.concepts,
                    ss == sources@.map_values(|x: crate::concept::Source| x@),
                    crate::provenance::edge_pairs(edges@) == e0 + source_edges(m, from@, ss.take(k as int)),
                decreases sources.len() - k,
            {
                assert(ss.take(k + 1).drop_last() =~= ss.take(k as int));
                assert(ss.take(k + 1).last() == sources@[k as int]@);
                let ghost pe = edges@;
                let ghost sv = sources@[k as int]@;
                match &sources[k].resource {
                    Some(r) => {
                        assert(sv.resource == Some(r@));
                        match self.derivation_target(from.as_str(), r.as_str()) {
                            Some(to) => {
                                let ghost tv = to@;
                                edges.push(crate::provenance::Derivation::new(from.clone(), to));
                                assert(crate::provenance::edge_pairs(edges@) =~= crate::provenance::edge_pairs(pe).push((from@, tv)));
                            },
                            None => {},
                        }
                    },
                    None => {},
                }
                assert(crate::provenance::edge_pairs(edges@) =~= e0 + source_edges(m, from@, ss.take(k + 1)));
                k += 1;
            }
            assert(ss.take(k as int) =~= ss);
            assert(ids.take(i + 1).drop_last() =~= ids.take(i as int));
            assert(ids.take(i + 1).last() == from@);
            i += 1;
        }
        assert(ids.take(i as int) =~= ids);
        let ghost es = crate::provenance::edge_pairs(edges@);
        let cycles = crate::provenance::cycles(edges.as_slice());
        let ghost cs = crate::provenance::cycles_view(cycles@);
        let mut found: Vec<Finding> = Vec::new();
        let mut c: usize = 0;
        while c < cycles.len()
            invariant
                c <= cycles@.len(),
                cs == crate::provenance::cycles_view(cycles@),
                forall|j: int| 0 <= j < cs.len() ==> crate::provenance::is_cycle(es, #[trigger] cs[j]),
                findings_view(found@) == cs.take(c as int).map_values(
                    |x: Seq<Seq<char>>| cycle_finding(x),
                ),
            decreases cycles.len() - c,
        {
            let cycle = &cycles[c];
            assert(cs[c as int] == strings_view(cycle@));
            assert(crate::provenance::is_cycle(es, cs[c as int]));
            let first = &cycle[0];
            let mut path: Vec<String> = Vec::new();
            let mut t: usize = 0;
            while t < cycle.len()
                invariant
                    t <= cycle@.len(),
                    strings_view(path@) == strings_view(cycle@).take(t as int),
                decreases cycle.len() - t,
            {
                let ghost pp = strings_view(path@);
                path.push(cycle[t].clone());
                assert(strings_view(path@) =~= pp.push(strings_view(cycle@)[t as int]));
                assert(strings_view(path@) =~= strings_view(cycle@).take(t + 1));
                t += 1;
            }
            let ghost pp = strings_view(path@);
            path.push(first.clone());
            assert(strings_view(cycle@).take(t as int) =~= strings_view(cycle@));
            assert(strings_view(path@) =~= strings_view(cycle@).push(strings_view(cycle@)[0]));
            let file = concat(first, ".md");
            let d = concat_string(&string_from("derivation cycle: "), &join_strings(&path, " \u{2192} "));
            let ghost pf = findings_view(found@);
            push_finding(&mut found, file.as_str(), Rule::DerivationCycle, d);
            assert(cs.take(c + 1) =~= cs.take(c as int).push(cs[c as int]));
            assert(findings_view(found@) =~= cs.take(c + 1).map_values(
                |x: Seq<Seq<char>>| cycle_finding(x),
            ));
            c += 1;
        }
        assert(cs.take(c as int) =~= cs);
        self.derivations = edges;
        self.append_findings(found);
    }
}


// ---------------------------------------------------------------------------
// Reserved files.
// ---------------------------------------------------------------------------
/// Whether a resolved entry target names a file of the bundle, or a directory
/// that holds one (an index may list a subdirectory).
pub open spec fn entry_resolves_in(files: Seq<Seq<char>>, target: Seq<char>) -> bool {
    files.contains(target) || exists|i: int|
        0 <= i < files.len() && (#[trigger] files[i]).len() > target.len() && files[i].take(
            target.len() as int,
        ) == target && files[i][target.len() as int] == '/'
}

/// The findings for the entry links of a reserved file at `path`: each bundle
/// path or relative link must resolve to a file or directory of the bundle.
pub open spec fn entry_part(
    files: Seq<Seq<char>>,
    path: Seq<char>,
    targets: Seq<Seq<char>>,
    rule: Rule,
    head: Seq<char>,
) -> Seq<(Seq<char>, RuleName, Seq<char>)>
    decreases targets.len(),
{
    if targets.len() == 0 {
        seq![]
    } else {
        let t = targets.last();
        let kind = crate::links::link_kind(t);
        entry_part(files, path, targets.drop_last(), rule, head) + if (kind is BundleAbsolute
            || kind is Relative) && !entry_resolves_in(
            files,
            crate::paths::resolved(without_md(path), t),
        ) {
            seq![
                rule_finding(
                    path,
                    rule,
                    head + t + "` resolves to no concept, file, or directory"@,
                ),
            ]
        } else {
            seq![]
        }
    }
}

/// Whether a bundle-relative path has no `/`: a file at the bundle root.
pub open spec fn at_root(path: Seq<char>) -> bool {
    !path.contains('/')
}

/// The findings for one `index.md`: its frontmatter rule, a declared
/// `okf_version`, and that each entry link resolves.
pub open spec fn index_findings(files: Seq<Seq<char>>, path: Seq<char>, text: Seq<char>) -> Seq<(Seq<char>, RuleName, Seq<char>)> {
    let (front, body) = crate::concept::frontmatter_split(text);
    let is_root = at_root(path);
    (match front {
        Some(f) => {
            let (keys, unknown) = crate::index::frontmatter_verdict(
                crate::yaml::yaml_document(f),
                is_root,
            );
            (if keys.len() > 0 {
                seq![
                    rule_finding(
                        path,
                        Rule::IndexFrontmatter,
                        (if is_root {
                            "root index.md may carry only `okf_version`; found: "@
                        } else {
                            "a nested index.md may carry no frontmatter; found: "@
                        }) + join_with(keys, ", "@),
                    ),
                ]
            } else {
                seq![]
            }) + match unknown {
                Some(v) => seq![
                    rule_finding(
                        path,
                        Rule::UnknownOkfVersion,
                        "okf_version `"@ + v + "` is not understood; this tool reads 0.1 and 0.2"@,
                    ),
                ],
                None => seq![],
            }
        },
        None => seq![],
    }) + entry_part(
        files,
        path,
        crate::links::body_links(body),
        Rule::DanglingIndexEntry,
        "index entry `"@,
    )
}

/// The findings for one `log.md`: each date heading is ISO-8601, they run
/// newest-first, and each entry link resolves.
pub open spec fn log_findings(files: Seq<Seq<char>>, path: Seq<char>, text: Seq<char>) -> Seq<(Seq<char>, RuleName, Seq<char>)> {
    let body = crate::concept::frontmatter_split(text).1;
    let hs = crate::log::headings_from(lines(body), false);
    crate::log::keep_dates(hs, false).map_values(
        |h: Seq<char>|
            rule_finding(
                path,
                Rule::NonIsoLogDate,
                "log date heading `"@ + h + "` is not ISO-8601 YYYY-MM-DD"@,
            ),
    ) + (if crate::log::ascending_somewhere(crate::log::keep_dates(hs, true)) {
        seq![
            rule_finding(
                path,
                Rule::LogOutOfOrder,
                "log date headings are not in newest-first order"@,
            ),
        ]
    } else {
        seq![]
    }) + entry_part(
        files,
        path,
        crate::links::body_links(body),
        Rule::DanglingLogEntry,
        "log entry `"@,
    )
}

/// Every reserved file's findings, in the order the files were read.
pub open spec fn reserved_findings(files: Seq<Seq<char>>, rs: Seq<(Seq<char>, Seq<char>)>) -> Seq<(Seq<char>, RuleName, Seq<char>)>
    decreases rs.len(),
{
    if rs.len() == 0 {
        seq![]
    } else {
        let (path, text) = rs.last();
        let name = last_segment(path);
        reserved_findings(files, rs.drop_last()) + if name == "index.md"@ {
            index_findings(files, path, text)
        } else if name == "log.md"@ {
            log_findings(files, path, text)
        } else {
            seq![]
        }
    }
}

/// Whether `file` is `target` itself or lies under the directory `target`.
fn under(file: &str, target: &[char]) -> (r: bool)
    ensures
        r == (file@.len() > target@.len() && file@.take(target@.len() as int) == target@
            && file@[target@.len() as int] == '/'),
{
    let f = crate::text::chars_of(file);
    if f.len() <= target.len() {
        return false;
    }
    let mut i: usize = 0;
    while i < target.len()
        invariant
            i <= target@.len() < f@.len(),
            f@ == file@,
            forall|j: int| 0 <= j < i ==> f@[j] == target@[j],
        decreases target.len() - i,
    {
        if f[i] != target[i] {
            assert(f@.take(target@.len() as int)[i as int] != target@[i as int]);
            return false;
        }
        i += 1;
    }
    assert(f@.take(target@.len() as int) =~= target@);
    f[target.len()] == '/'
}

/// Whether a resolved entry target resolves (see [`entry_resolves_in`]).
fn entry_resolves(files: &Vec<String>, target: &str) -> (r: bool)
    ensures
        r == entry_resolves_in(strings_view(files@), target@),
{
    if holds_string(files, target) {
        return true;
    }
    let t = crate::text::chars_of(target);
    let ghost fv = strings_view(files@);
    let mut i: usize = 0;
    while i < files.len()
        invariant
            i <= files@.len(),
            fv == strings_view(files@),
            t@ == target@,
            forall|j: int|
                0 <= j < i ==> !((#[trigger] fv[j]).len() > target@.len() && fv[j].take(
                    target@.len() as int,
                ) == target@ && fv[j][target@.len() as int] == '/'),
        decreases files.len() - i,
    {
        if under(files[i].as_str(), &t) {
            assert(fv[i as int] == files@[i as int]@);
            return true;
        }
        i += 1;
    }
    false
}

/// Append [`entry_part`].
fn check_entries(
    files: &Vec<String>,
    path: &str,
    body: &str,
    rule: Rule,
    head: &str,
    out: &mut Vec<Finding>,
)
    ensures
        findings_view(final(out)@) == findings_view(old(out)@) + entry_part(
            strings_view(files@),
            path@,
            crate::links::body_links(body@),
            rule,
            head@,
        ),
{
    let ghost before = findings_view(out@);
    let ghost fv = strings_view(files@);
    let ghost targets = crate::links::body_links(body@);
    let from = strip_md(path);
    let links = crate::links::links_in(body);
    let mut k: usize = 0;
    while k < links.len()
        invariant
            k <= links@.len(),
            fv == strings_view(files@),
            from@ == without_md(path@),
            crate::links::link_targets(links@) == targets,
            crate::links::links_classified(links@),
            findings_view(out@) == before + entry_part(fv, path@, targets.take(k as int), rule, head@),
        decreases links.len() - k,
    {
        let link = &links[k];
        assert(targets[k as int] == link.target@);
        assert(link.kind == crate::links::link_kind(link.target@));
        assert(targets.take(k + 1).drop_last() =~= targets.take(k as int));
        assert(targets.take(k + 1).last() == link.target@);
        let checked = match link.kind {
            crate::links::LinkKind::BundleAbsolute | crate::links::LinkKind::Relative => true,
            _ => false,
        };
        if checked {
            let target = crate::paths::resolve_path(from.as_str(), link.target.as_str());
            if !entry_resolves(files, target.as_str()) {
                let mut d = string_from(head);
                d = concat_string(&d, &link.target);
                d = concat(&d, "` resolves to no concept, file, or directory");
                push_finding(out, path, rule, d);
            }
        }
        assert(findings_view(out@) =~= before + entry_part(fv, path@, targets.take(k + 1), rule, head@));
        k += 1;
    }
    assert(targets.take(k as int) =~= targets);
}

/// Append [`index_findings`].
fn check_index(files: &Vec<String>, path: &str, text: &str, out: &mut Vec<Finding>)
    ensures
        findings_view(final(out)@) == findings_view(old(out)@) + index_findings(
            strings_view(files@),
            path@,
            text@,
        ),
{
    let ghost before = findings_view(out@);
    let (front, body) = crate::concept::split_frontmatter(text);
    let pc = crate::text::chars_of(path);
    let n = pc.len();
    assert(pc@.subrange(0, n as int) =~= pc@);
    let is_root = find_in(&pc, 0, n, '/') == n;
    proof {
        lemma_find_char(pc@, '/');
        if !is_root {
            assert(pc@.contains('/'));
        }
        if pc@.contains('/') {
            let j = choose|j: int| 0 <= j < pc@.len() && pc@[j] == '/';
            assert(find_char(pc@, '/') <= j);
        }
        assert(is_root == at_root(path@));
    }
    match &front {
        Some(f) => {
            let check = crate::index::check_frontmatter(f.as_str(), is_root);
            if check.illegal_keys.len() > 0 {
                let keys = join_strings(&check.illegal_keys, ", ");
                let head = if is_root {
                    string_from("root index.md may carry only `okf_version`; found: ")
                } else {
                    string_from("a nested index.md may carry no frontmatter; found: ")
                };
                push_finding(out, path, Rule::IndexFrontmatter, concat_string(&head, &keys));
            }
            match &check.unknown_version {
                Some(v) => {
                    let mut d = string_from("okf_version `");
                    d = concat_string(&d, v);
                    d = concat(&d, "` is not understood; this tool reads 0.1 and 0.2");
                    push_finding(out, path, Rule::UnknownOkfVersion, d);
                },
                None => {},
            }
        },
        None => {},
    }
    let ghost mid = findings_view(out@);
    check_entries(files, path, body.as_str(), Rule::DanglingIndexEntry, "index entry `", out);
    assert(findings_view(out@) =~= before + index_findings(strings_view(files@), path@, text@));
}

/// Append [`log_findings`].
fn check_log(files: &Vec<String>, path: &str, text: &str, out: &mut Vec<Finding>)
    ensures
        findings_view(final(out)@) == findings_view(old(out)@) + log_findings(
            strings_view(files@),
            path@,
            text@,
        ),
{
    let ghost before = findings_view(out@);
    let (_, body) = crate::concept::split_frontmatter(text);
    let headings = crate::log::check_headings(body.as_str());
    let ghost hs = crate::log::headings_from(lines(body@), false);
    let ghost bad = crate::log::keep_dates(hs, false);
    let ghost mk = |h: Seq<char>|
        rule_finding(path@, Rule::NonIsoLogDate, "log date heading `"@ + h + "` is not ISO-8601 YYYY-MM-DD"@);
    let mut i: usize = 0;
    while i < headings.non_iso.len()
        invariant
            i <= headings.non_iso@.len(),
            strings_view(headings.non_iso@) == bad,
            mk == (|h: Seq<char>|
                rule_finding(path@, Rule::NonIsoLogDate, "log date heading `"@ + h + "` is not ISO-8601 YYYY-MM-DD"@)),
            findings_view(out@) == before + bad.take(i as int).map_values(mk),
        decreases headings.non_iso.len() - i,
    {
        let mut d = string_from("log date heading `");
        d = concat_string(&d, &headings.non_iso[i]);
        d = concat(&d, "` is not ISO-8601 YYYY-MM-DD");
        assert(bad[i as int] == headings.non_iso@[i as int]@);
        push_finding(out, path, Rule::NonIsoLogDate, d);
        assert(bad.take(i + 1) =~= bad.take(i as int).push(bad[i as int]));
        assert(findings_view(out@) =~= before + bad.take(i + 1).map_values(mk));
        i += 1;
    }
    assert(bad.take(i as int) =~= bad);
    if headings.out_of_order {
        push_finding(
            out,
            path,
            Rule::LogOutOfOrder,
            string_from("log date headings are not in newest-first order"),
        );
    }
    let ghost mid = findings_view(out@);
    check_entries(files, path, body.as_str(), Rule::DanglingLogEntry, "log entry `", out);
    assert(findings_view(out@) =~= before + log_findings(strings_view(files@), path@, text@));
}

impl Bundle {
    /// Check each reserved file's own structure, now that the whole tree is
    /// known so an entry can be resolved against it.
    fn resolve_reserved(&mut self)
        requires
            old(self).wf(),
        ensures
            final(self).wf(),
            final(self)@ == (BundleView {
                findings: old(self)@.findings + reserved_findings(old(self)@.files, old(self)@.reserved),
                ..old(self)@
            }),
    {
        let ghost rs = self@.reserved;
        let ghost fv = self@.files;
        let mut found: Vec<Finding> = Vec::new();
        let mut i: usize = 0;
        while i < self.reserved.len()
            invariant
                i <= self.reserved@.len(),
                rs == text_pairs(self.reserved@),
                fv == strings_view(self.files@),
                findings_view(found@) == reserved_findings(fv, rs.take(i as int)),
            decreases self.reserved.len() - i,
        {
            let (path, text) = (&self.reserved[i].0, &self.reserved[i].1);
            assert(rs.take(i + 1).drop_last() =~= rs.take(i as int));
            assert(rs.take(i + 1).last() == (path@, text@));
            let name = reserved_name(path.as_str());
            let ghost base = findings_view(found@);
            if crate::text::str_is(name.as_str(), "index.md") {
                check_index(&self.files, path.as_str(), text.as_str(), &mut found);
            } else if crate::text::str_is(name.as_str(), "log.md") {
                check_log(&self.files, path.as_str(), text.as_str(), &mut found);
            }
            assert(findings_view(found@) =~= reserved_findings(fv, rs.take(i + 1)));
            i += 1;
        }
        assert(rs.take(i as int) =~= rs);
        self.append_findings(found);
    }
}


// ---------------------------------------------------------------------------
// A whole bundle.
// ---------------------------------------------------------------------------
/// A bundle with nothing read yet.
pub open spec fn empty_view() -> BundleView {
    BundleView {
        concepts: Map::empty(),
        files: seq![],
        reserved: seq![],
        links: seq![],
        derivations: seq![],
        findings: seq![],
    }
}

/// The tree's files read in order, before anything is resolved.
pub open spec fn read_files(entries: Seq<(Seq<char>, Option<Seq<char>>)>) -> BundleView
    decreases entries.len(),
{
    if entries.len() == 0 {
        empty_view()
    } else {
        after_file(read_files(entries.drop_last()), entries.last().0, entries.last().1)
    }
}

/// Files handed over, as values.
pub open spec fn entries_view(v: Seq<(String, Option<String>)>) -> Seq<(Seq<char>, Option<Seq<char>>)> {
    v.map_values(|p: (String, Option<String>)| (p.0@, crate::concept::opt_str(p.1)))
}

/// `b` is the bundle the files `entries` make: read in order, then resolved —
/// body links, path-valued fields, derivation edges and their cycles, and the
/// reserved files, each stage's findings after the last's. The cycles reported
/// are those [`crate::provenance::dfs_cycles`] closes.
pub open spec fn built_with(b: BundleView, entries: Seq<(Seq<char>, Option<Seq<char>>)>) -> bool {
    let r = read_files(entries);
    let ids = ids_in_order(r.concepts);
    let (ls, lf) = all_link_results(r.concepts, ids);
    let es = all_edges(r.concepts, ids);
    let cycles = crate::provenance::dfs_cycles(es);
    b == BundleView {
        concepts: r.concepts,
        files: r.files,
        reserved: r.reserved,
        links: ls,
        derivations: es,
        findings: r.findings + lf + all_paths(r.concepts, ids, r.files) + cycles.map_values(
            |c: Seq<Seq<char>>| cycle_finding(c),
        ) + reserved_findings(r.files, r.reserved),
    }
}

impl Bundle {
    /// A bundle read from a tree's files, given in path order as
    /// `(bundle-relative path, text)`: every `*.md` outside the reserved names
    /// becomes a concept keyed by its Concept ID, and a file that is not a
    /// well-formed concept becomes a finding, so one malformed document never
    /// blocks the rest of the bundle. A file handed over without text (one
    /// [`needs_text`] does not ask for, or a symlink, which aliases a document
    /// rather than being one) is recorded so a path can resolve to it, and
    /// nothing more.
    pub fn from_files(files: Vec<(String, Option<String>)>) -> (r: Bundle)
        ensures
            r.wf(),
            built_with(r@, entries_view(files@)),
    {
        let ghost ev = entries_view(files@);
        let mut bundle = Bundle::new();
        assert(bundle@ =~= empty_view());
        let mut i: usize = 0;
        while i < files.len()
            invariant
                i <= files@.len(),
                ev == entries_view(files@),
                bundle.wf(),
                bundle@ == read_files(ev.take(i as int)),
            decreases files.len() - i,
        {
            let file = files[i].0.clone();
            let text = match &files[i].1 {
                Some(t) => Some(t.clone()),
                None => None,
            };
            assert(ev.take(i + 1).drop_last() =~= ev.take(i as int));
            assert(ev.take(i + 1).last() == (file@, crate::concept::opt_str(text)));
            bundle.add_file(file, text);
            i += 1;
        }
        assert(ev.take(i as int) =~= ev);
        let ghost r = bundle@;
        bundle.resolve_links();
        bundle.resolve_paths();
        bundle.resolve_provenance();
        let ghost after = bundle@;
        bundle.resolve_reserved();
        proof {
            let ids = ids_in_order(r.concepts);
            let es = all_edges(r.concepts, ids);
            assert(built_with(bundle@, ev));
        }
        bundle
    }
}


/// One concept's link edges run from it to concepts of `m`.
proof fn lemma_link_results_join(m: Map<Seq<char>, Reading>, from: Seq<char>, targets: Seq<Seq<char>>)
    ensures
        forall|k: int|
            0 <= k < link_results(m, from, targets).0.len() ==> (#[trigger] link_results(
                m,
                from,
                targets,
            ).0[k]).0 == from && m.contains_key(link_results(m, from, targets).0[k].1),
    decreases targets.len(),
{
    if targets.len() > 0 {
        lemma_link_results_join(m, from, targets.drop_last());
        let es = link_results(m, from, targets.drop_last()).0;
        let t = targets.last();
        let all = link_results(m, from, targets).0;
        match concept_target(from, t, crate::links::link_kind(t)) {
            None => {
                assert(all == es);
            },
            Some(to) => {
                if m.contains_key(to) {
                    assert(all == es.push((from, to)));
                    assert forall|k: int| 0 <= k < all.len() implies (#[trigger] all[k]).0 == from
                        && m.contains_key(all[k].1) by {
                        if k < es.len() {
                            assert(all[k] == es[k]);
                        }
                    }
                } else {
                    assert(all == es);
                }
            },
        }
    }
}

/// Every body-link edge runs from one of `ids` to a concept of `m`.
proof fn lemma_all_links_join(m: Map<Seq<char>, Reading>, ids: Seq<Seq<char>>)
    ensures
        forall|k: int|
            0 <= k < all_link_results(m, ids).0.len() ==> ids.contains(
                (#[trigger] all_link_results(m, ids).0[k]).0,
            ) && m.contains_key(all_link_results(m, ids).0[k].1),
    decreases ids.len(),
{
    if ids.len() > 0 {
        let d = ids.drop_last();
        lemma_all_links_join(m, d);
        let id = ids.last();
        lemma_link_results_join(m, id, crate::links::body_links(m[id].2));
        let (es, _) = all_link_results(m, d);
        let e1 = link_results(m, id, crate::links::body_links(m[id].2)).0;
        assert forall|k: int| 0 <= k < all_link_results(m, ids).0.len() implies ids.contains(
            (#[trigger] all_link_results(m, ids).0[k]).0,
        ) && m.contains_key(all_link_results(m, ids).0[k].1) by {
            let all = all_link_results(m, ids).0;
            assert(all == es + e1);
            if k < es.len() {
                assert(all[k] == es[k]);
                assert(d.contains(es[k].0));
                let j = choose|j: int| 0 <= j < d.len() && d[j] == es[k].0;
                assert(ids[j] == d[j]);
            } else {
                assert(all[k] == e1[k - es.len()]);
                assert(ids[ids.len() - 1] == id);
            }
        }
    }
}

/// One concept's derivation edges run from it to concepts of `m`.
proof fn lemma_source_edges_join(m: Map<Seq<char>, Reading>, from: Seq<char>, ss: Seq<SourceReading>)
    ensures
        forall|k: int|
            0 <= k < source_edges(m, from, ss).len() ==> (#[trigger] source_edges(m, from, ss)[k]).0
                == from && m.contains_key(source_edges(m, from, ss)[k].1),
    decreases ss.len(),
{
    if ss.len() > 0 {
        lemma_source_edges_join(m, from, ss.drop_last());
        let es = source_edges(m, from, ss.drop_last());
        let tail = match ss.last().resource {
            Some(r) => match derivation_target_of(m, from, r) {
                Some(to) => seq![(from, to)],
                None => seq![],
            },
            None => seq![],
        };
        let all = source_edges(m, from, ss);
        assert(all == es + tail);
        assert forall|k: int| 0 <= k < all.len() implies (#[trigger] all[k]).0 == from
            && m.contains_key(all[k].1) by {
            if k < es.len() {
                assert(all[k] == es[k]);
            } else {
                assert(all[k] == tail[k - es.len()]);
            }
        }
    }
}

/// Every derivation edge runs from one of `ids` to a concept of `m`.
proof fn lemma_all_edges_join(m: Map<Seq<char>, Reading>, ids: Seq<Seq<char>>)
    ensures
        forall|k: int|
            0 <= k < all_edges(m, ids).len() ==> ids.contains((#[trigger] all_edges(m, ids)[k]).0)
                && m.contains_key(all_edges(m, ids)[k].1),
    decreases ids.len(),
{
    if ids.len() > 0 {
        let d = ids.drop_last();
        lemma_all_edges_join(m, d);
        let id = ids.last();
        lemma_source_edges_join(m, id, field_sources(m[id].1));
        let es = all_edges(m, d);
        let e1 = source_edges(m, id, field_sources(m[id].1));
        assert forall|k: int| 0 <= k < all_edges(m, ids).len() implies ids.contains(
            (#[trigger] all_edges(m, ids)[k]).0,
        ) && m.contains_key(all_edges(m, ids)[k].1) by {
            let all = all_edges(m, ids);
            assert(all == es + e1);
            if k < es.len() {
                assert(all[k] == es[k]);
                let j = choose|j: int| 0 <= j < d.len() && d[j] == es[k].0;
                assert(ids[j] == d[j]);
            } else {
                assert(all[k] == e1[k - es.len()]);
                assert(ids[ids.len() - 1] == id);
            }
        }
    }
}

/// Reading files only ever adds finitely many concepts.
proof fn lemma_read_files_finite(entries: Seq<(Seq<char>, Option<Seq<char>>)>)
    ensures
        read_files(entries).concepts.dom().finite(),
    decreases entries.len(),
{
    if entries.len() > 0 {
        lemma_read_files_finite(entries.drop_last());
    }
}

/// Every body-link edge and every derivation edge of a bundle read from files
/// runs from a concept of the bundle to a concept of the bundle: a link or a
/// source that lands nowhere is a finding or a leaf, never an edge.
pub proof fn lemma_edges_join_concepts(
    b: BundleView,
    entries: Seq<(Seq<char>, Option<Seq<char>>)>,
)
    requires
        built_with(b, entries),
    ensures
        forall|k: int|
            0 <= k < b.links.len() ==> b.concepts.contains_key((#[trigger] b.links[k]).0)
                && b.concepts.contains_key(b.links[k].1),
        forall|k: int|
            0 <= k < b.derivations.len() ==> b.concepts.contains_key(
                (#[trigger] b.derivations[k]).0,
            ) && b.concepts.contains_key(b.derivations[k].1),
{
    let r = read_files(entries);
    lemma_read_files_finite(entries);
    lemma_ids_exist(r.concepts);
    let ids = ids_in_order(r.concepts);
    lemma_all_links_join(r.concepts, ids);
    lemma_all_edges_join(r.concepts, ids);
    assert forall|k: int| 0 <= k < b.links.len() implies b.concepts.contains_key(
        (#[trigger] b.links[k]).0,
    ) && b.concepts.contains_key(b.links[k].1) by {
        assert(b.links[k] == all_link_results(r.concepts, ids).0[k]);
        assert(ids.contains(b.links[k].0));
        assert(ids.to_set().contains(b.links[k].0));
    }
    assert forall|k: int| 0 <= k < b.derivations.len() implies b.concepts.contains_key(
        (#[trigger] b.derivations[k]).0,
    ) && b.concepts.contains_key(b.derivations[k].1) by {
        assert(b.derivations[k] == all_edges(r.concepts, ids)[k]);
        assert(ids.contains(b.derivations[k].0));
        assert(ids.to_set().contains(b.derivations[k].0));
    }
}

} // verus!
