//! An OKF **concept document**: one markdown file, read as a YAML
//! [`Frontmatter`] block and a markdown [`Body`]. Those two parts are the whole
//! model.
//!
//! **Parse leniently, judge strictly.** Parsing fails only where the two parts
//! cannot be told apart, never over what the frontmatter says. A concept with no
//! `type` fails conformance and still parses.

use vstd::prelude::*;

use crate::text::{
    chars_of, chars_of_string, concat, concat_string, find_char, find_in, is_white,
    lemma_find_char, line_ranges, lines, range_is, range_starts_with, skip_white, string_of,
    strings_view, trim, trim_end, trim_range, trim_start, drop_white_end,
};
use crate::yaml::{
    as_bool, as_int, get, is_mapping, lookup, lookup_entry, parse_yaml, scalar_at, scalar_text_at, str_at, string_at,
    yaml_document, Yaml,
};

verus! {

/// A present string, as its characters.
pub open spec fn opt_str(o: Option<String>) -> Option<Seq<char>> {
    match o {
        Some(s) => Some(s@),
        None => None,
    }
}

/// A concept's lifecycle `status`.
#[derive(Debug, Clone, Copy, PartialEq, Eq, Structural)]
pub enum Status {
    /// Not yet reviewed; possibly incomplete.
    Draft,
    /// Ready for consumption (the default when `status` is absent).
    Stable,
    /// Kept for links and history; no longer current.
    Deprecated,
}

/// The `generated` trust family: who produced the current content and
/// when, both read as written.
#[derive(Debug, Clone, PartialEq, Eq)]
pub struct Generated {
    /// The actor that produced the content. Required.
    pub by: Option<String>,
    /// The datetime of the last meaningful change, as written — a number
    /// (YAML reads `2026` as one) in its decimal form — so a check can quote it.
    pub at: Option<String>,
}

impl View for Generated {
    type V = (Option<Seq<char>>, Option<Seq<char>>);

    open spec fn view(&self) -> (Option<Seq<char>>, Option<Seq<char>>) {
        (opt_str(self.by), opt_str(self.at))
    }
}

/// One `verified` event: who confirmed the content, and when.
#[derive(Debug, Clone, PartialEq, Eq)]
pub struct Verification {
    /// The actor that confirmed the content.
    pub by: Option<String>,
    /// The datetime of the confirmation, as written (a number in its decimal
    /// form).
    pub at: Option<String>,
}

impl View for Verification {
    type V = (Option<Seq<char>>, Option<Seq<char>>);

    open spec fn view(&self) -> (Option<Seq<char>>, Option<Seq<char>>) {
        (opt_str(self.by), opt_str(self.at))
    }
}

/// The `{ from, to }` date range that frames a `usage_count`.
#[derive(Debug, Clone, PartialEq, Eq)]
pub struct UsageWindow {
    /// Start of the window (`YYYY-MM-DD`).
    pub from: Option<String>,
    /// End of the window (`YYYY-MM-DD`).
    pub to: Option<String>,
}

impl View for UsageWindow {
    type V = (Option<Seq<char>>, Option<Seq<char>>);

    open spec fn view(&self) -> (Option<Seq<char>>, Option<Seq<char>>) {
        (opt_str(self.from), opt_str(self.to))
    }
}

/// A present window, as values.
pub open spec fn opt_window(o: Option<UsageWindow>) -> Option<
    (Option<Seq<char>>, Option<Seq<char>>),
> {
    match o {
        Some(w) => Some(w@),
        None => None,
    }
}

/// What one `sources` entry reads as.
pub ghost struct SourceReading {
    pub id: Option<Seq<char>>,
    pub resource: Option<Seq<char>>,
    pub title: Option<Seq<char>>,
    pub author: Option<Seq<char>>,
    pub usage_count: Option<i64>,
    pub usage_count_malformed: bool,
    pub last_modified: Option<Seq<char>>,
    pub usage_window: Option<(Option<Seq<char>>, Option<Seq<char>>)>,
}

/// One `sources` entry: a material a concept derives from, and the
/// per-source credibility signals.
#[derive(Debug, Clone, PartialEq, Eq)]
pub struct Source {
    /// A stable key used to attribute individual claims.
    pub id: Option<String>,
    /// The artifact or scope the concept derives from (required).
    pub resource: Option<String>,
    /// A human-readable label.
    pub title: Option<String>,
    /// Who or what produced the source, in the actor convention.
    pub author: Option<String>,
    /// How often `resource` was exercised over the `usage_window`.
    pub usage_count: Option<i64>,
    /// Whether a `usage_count` is present but not an integer.
    pub usage_count_malformed: bool,
    /// When the source itself last changed (`YYYY-MM-DD`).
    pub last_modified: Option<String>,
    /// A per-source `{ from, to }` range overriding the shared one.
    pub usage_window: Option<UsageWindow>,
}

impl View for Source {
    type V = SourceReading;

    open spec fn view(&self) -> SourceReading {
        SourceReading {
            id: opt_str(self.id),
            resource: opt_str(self.resource),
            title: opt_str(self.title),
            author: opt_str(self.author),
            usage_count: self.usage_count,
            usage_count_malformed: self.usage_count_malformed,
            last_modified: opt_str(self.last_modified),
            usage_window: opt_window(self.usage_window),
        }
    }
}

/// A typed, named hole an Attested Computation exposes.
#[derive(Debug, Clone, PartialEq, Eq)]
pub struct Parameter {
    /// The parameter's name.
    pub name: Option<String>,
    /// Its type, interpreted per the concept's `runtime` (`type` in YAML).
    pub kind: Option<String>,
    /// Whether a value must be supplied.
    pub required: Option<bool>,
}

impl View for Parameter {
    type V = (Option<Seq<char>>, Option<Seq<char>>, Option<bool>);

    open spec fn view(&self) -> (Option<Seq<char>>, Option<Seq<char>>, Option<bool>) {
        (opt_str(self.name), opt_str(self.kind), self.required)
    }
}

/// How an Attested Computation is run.
#[derive(Debug, Clone, PartialEq, Eq)]
pub struct Executor {
    /// A path to the run instructions or code.
    pub resource: Option<String>,
    /// The fields a run must return, the evidence the attester inspects.
    pub receipt: Vec<String>,
}

impl View for Executor {
    type V = (Option<Seq<char>>, Seq<Seq<char>>);

    open spec fn view(&self) -> (Option<Seq<char>>, Seq<Seq<char>>) {
        (opt_str(self.resource), strings_view(self.receipt@))
    }
}

/// The deterministic, consumer-side check of an Attested Computation.
#[derive(Debug, Clone, PartialEq, Eq)]
pub struct Attester {
    /// A path to the checker code.
    pub resource: Option<String>,
}

impl View for Attester {
    type V = Option<Seq<char>>;

    open spec fn view(&self) -> Option<Seq<char>> {
        opt_str(self.resource)
    }
}

// ---------------------------------------------------------------------------
// What the frontmatter readers return, stated over the block's entries.
// ---------------------------------------------------------------------------
/// The string held directly at `key` of the block.
pub open spec fn field_string(e: Seq<(Yaml, Yaml)>, key: Seq<char>) -> Option<Seq<char>> {
    match lookup(e, key) {
        Some(Yaml::String(s)) => Some(s@),
        _ => None,
    }
}

/// The strings of a list, or `None` when any item is not a string.
pub open spec fn all_strings(items: Seq<Yaml>) -> Option<Seq<Seq<char>>>
    decreases items.len(),
{
    if items.len() == 0 {
        Some(seq![])
    } else {
        match (all_strings(items.drop_last()), items.last()) {
            (Some(rest), Yaml::String(s)) => Some(rest.push(s@)),
            _ => None,
        }
    }
}

/// The string items of a list, a non-string dropped.
pub open spec fn string_items(items: Seq<Yaml>) -> Seq<Seq<char>> {
    items.filter_map(
        |v: Yaml|
            match v {
                Yaml::String(s) => Some(s@),
                _ => None,
            },
    )
}

/// `tags`: the strings of a list of strings; `None` when absent, not a list,
/// or holding a non-string.
pub open spec fn field_tags(e: Seq<(Yaml, Yaml)>) -> Option<Seq<Seq<char>>> {
    match lookup(e, "tags"@) {
        Some(Yaml::Sequence(items)) => all_strings(items@),
        _ => None,
    }
}

/// `status`: one of the three declared values, else `None`.
pub open spec fn field_status(e: Seq<(Yaml, Yaml)>) -> Option<Status> {
    match field_string(e, "status"@) {
        Some(s) => if s == "draft"@ {
            Some(Status::Draft)
        } else if s == "stable"@ {
            Some(Status::Stable)
        } else if s == "deprecated"@ {
            Some(Status::Deprecated)
        } else {
            None
        },
        None => None,
    }
}

/// The three lifecycle stages are read from their own words and no others:
/// `status` is `Draft`, `Stable` or `Deprecated` exactly when the `status`
/// string is `draft`, `stable` or `deprecated`, and none of them otherwise.
pub proof fn lemma_status_words(e: Seq<(Yaml, Yaml)>)
    ensures
        field_status(e) == Some(Status::Draft) <==> field_string(e, "status"@) == Some("draft"@),
        field_status(e) == Some(Status::Stable) <==> field_string(e, "status"@) == Some("stable"@),
        field_status(e) == Some(Status::Deprecated) <==> field_string(e, "status"@) == Some(
            "deprecated"@,
        ),
        field_status(e) is None <==> !(field_string(e, "status"@) == Some("draft"@)
            || field_string(e, "status"@) == Some("stable"@) || field_string(e, "status"@) == Some(
            "deprecated"@,
        )),
{
    reveal_strlit("draft");
    reveal_strlit("stable");
    reveal_strlit("deprecated");
    assert("draft"@ != "stable"@ && "draft"@ != "deprecated"@ && "stable"@ != "deprecated"@) by {
        assert("draft"@[0] != "stable"@[0]);
        assert("draft"@[0] != "deprecated"@[1] || "draft"@.len() != "deprecated"@.len());
        assert("stable"@.len() != "deprecated"@.len());
    }
}

/// A `{ by, at }` event read from a mapping value.
pub open spec fn event_of(v: Yaml) -> Option<(Option<Seq<char>>, Option<Seq<char>>)> {
    if is_mapping(v) {
        Some((str_at(v, "by"@), scalar_text_at(v, "at"@)))
    } else {
        None
    }
}

/// `generated`: its `by` and `at`, when it is a mapping.
pub open spec fn field_generated(e: Seq<(Yaml, Yaml)>) -> Option<
    (Option<Seq<char>>, Option<Seq<char>>),
> {
    match lookup(e, "generated"@) {
        Some(v) => event_of(v),
        None => None,
    }
}

/// `verified`: each mapping of a list is one event; a bare mapping is one
/// event, not zero; anything else is none.
pub open spec fn field_verified(e: Seq<(Yaml, Yaml)>) -> Seq<
    (Option<Seq<char>>, Option<Seq<char>>),
> {
    match lookup(e, "verified"@) {
        Some(Yaml::Sequence(items)) => items@.filter_map(|v: Yaml| event_of(v)),
        Some(Yaml::Mapping(m)) => seq![
            (str_at(Yaml::Mapping(m), "by"@), scalar_text_at(Yaml::Mapping(m), "at"@)),
        ],
        _ => seq![],
    }
}

/// A `{ from, to }` window read from a mapping value.
pub open spec fn window_of(v: Yaml) -> Option<(Option<Seq<char>>, Option<Seq<char>>)> {
    if is_mapping(v) {
        Some((str_at(v, "from"@), str_at(v, "to"@)))
    } else {
        None
    }
}

/// `usage_window`: the shared window, when it is a mapping.
pub open spec fn field_usage_window(e: Seq<(Yaml, Yaml)>) -> Option<
    (Option<Seq<char>>, Option<Seq<char>>),
> {
    match lookup(e, "usage_window"@) {
        Some(v) => window_of(v),
        None => None,
    }
}

/// One `sources` entry read from a mapping value.
pub open spec fn source_of(v: Yaml) -> Option<SourceReading> {
    if is_mapping(v) {
        Some(
            SourceReading {
                id: str_at(v, "id"@),
                resource: str_at(v, "resource"@),
                title: str_at(v, "title"@),
                author: str_at(v, "author"@),
                usage_count: match get(v, "usage_count"@) {
                    Some(c) => as_int(c),
                    None => None,
                },
                usage_count_malformed: match get(v, "usage_count"@) {
                    Some(c) => as_int(c) is None,
                    None => false,
                },
                last_modified: str_at(v, "last_modified"@),
                usage_window: match get(v, "usage_window"@) {
                    Some(w) => window_of(w),
                    None => None,
                },
            },
        )
    } else {
        None
    }
}

/// `sources`: each mapping entry of a list; anything else reads as empty.
pub open spec fn field_sources(e: Seq<(Yaml, Yaml)>) -> Seq<SourceReading> {
    match lookup(e, "sources"@) {
        Some(Yaml::Sequence(items)) => items@.filter_map(|v: Yaml| source_of(v)),
        _ => seq![],
    }
}

/// One `parameters` entry read from a mapping value.
pub open spec fn parameter_of(v: Yaml) -> Option<(Option<Seq<char>>, Option<Seq<char>>, Option<bool>)> {
    if is_mapping(v) {
        Some(
            (
                str_at(v, "name"@),
                str_at(v, "type"@),
                match get(v, "required"@) {
                    Some(b) => as_bool(b),
                    None => None,
                },
            ),
        )
    } else {
        None
    }
}

/// `parameters`: each mapping entry of a list; anything else reads as empty.
pub open spec fn field_parameters(e: Seq<(Yaml, Yaml)>) -> Seq<
    (Option<Seq<char>>, Option<Seq<char>>, Option<bool>),
> {
    match lookup(e, "parameters"@) {
        Some(Yaml::Sequence(items)) => items@.filter_map(|v: Yaml| parameter_of(v)),
        _ => seq![],
    }
}

/// The string items of the list at `key` of a mapping value; empty when absent
/// or not a list.
pub open spec fn string_list_at(v: Yaml, key: Seq<char>) -> Seq<Seq<char>> {
    match get(v, key) {
        Some(Yaml::Sequence(items)) => string_items(items@),
        _ => seq![],
    }
}

/// `executor`: its `resource` and `receipt`, when it is a mapping.
pub open spec fn field_executor(e: Seq<(Yaml, Yaml)>) -> Option<(Option<Seq<char>>, Seq<Seq<char>>)> {
    match lookup(e, "executor"@) {
        Some(v) => if is_mapping(v) {
            Some((str_at(v, "resource"@), string_list_at(v, "receipt"@)))
        } else {
            None
        },
        None => None,
    }
}

/// `executor.receipt` is present but is not a list of strings.
pub open spec fn field_receipt_malformed(e: Seq<(Yaml, Yaml)>) -> bool {
    match lookup(e, "executor"@) {
        Some(v) => is_mapping(v) && match get(v, "receipt"@) {
            Some(Yaml::Sequence(items)) => all_strings(items@) is None,
            Some(_) => true,
            None => false,
        },
        None => false,
    }
}

/// `attester`: its `resource`, when it is a mapping.
pub open spec fn field_attester(e: Seq<(Yaml, Yaml)>) -> Option<Option<Seq<char>>> {
    match lookup(e, "attester"@) {
        Some(v) => if is_mapping(v) {
            Some(str_at(v, "resource"@))
        } else {
            None
        },
        None => None,
    }
}

/// The YAML metadata block at the top of a concept document.
///
/// Every accessor answers `Some` only when the key is present *and* holds the
/// shape the format describes. That conflates "absent" with "present but the wrong
/// shape" deliberately; [`Frontmatter::declares`] tells them apart.
#[derive(Debug, PartialEq)]
pub struct Frontmatter {
    source: String,
    fields: Vec<(Yaml, Yaml)>,
}

impl Frontmatter {
    /// The block's text, fences excluded.
    pub closed spec fn text(&self) -> Seq<char> {
        self.source@
    }

    /// The block's entries, in document order.
    pub closed spec fn entries(&self) -> Seq<(Yaml, Yaml)> {
        self.fields@
    }

    /// The string directly at `key`.
    fn string(&self, key: &str) -> (r: Option<&String>)
        ensures
            match r {
                Some(s) => field_string(self.entries(), key@) == Some(s@),
                None => field_string(self.entries(), key@) is None,
            },
    {
        match lookup_entry(&self.fields, key) {
            Some(Yaml::String(s)) => Some(s),
            _ => None,
        }
    }

    /// `type` — the one required field, naming the kind of concept.
    pub fn concept_type(&self) -> (r: Option<&str>)
        ensures
            opt_text(r) == field_string(self.entries(), "type"@),
    {
        match self.string("type") {
            Some(s) => Some(s.as_str()),
            None => None,
        }
    }

    /// `title` — display name.
    pub fn title(&self) -> (r: Option<&str>)
        ensures
            opt_text(r) == field_string(self.entries(), "title"@),
    {
        match self.string("title") {
            Some(s) => Some(s.as_str()),
            None => None,
        }
    }

    /// `description` — a one-sentence summary.
    pub fn description(&self) -> (r: Option<&str>)
        ensures
            opt_text(r) == field_string(self.entries(), "description"@),
    {
        match self.string("description") {
            Some(s) => Some(s.as_str()),
            None => None,
        }
    }

    /// `resource` — URI of the asset described; absent for abstract concepts.
    pub fn resource(&self) -> (r: Option<&str>)
        ensures
            opt_text(r) == field_string(self.entries(), "resource"@),
    {
        match self.string("resource") {
            Some(s) => Some(s.as_str()),
            None => None,
        }
    }

    /// `timestamp` — the v0.1 field superseded by `generated.at`, read as the
    /// fallback v0.2 allows, kept as written.
    pub fn timestamp(&self) -> (r: Option<&str>)
        ensures
            opt_text(r) == field_string(self.entries(), "timestamp"@),
    {
        match self.string("timestamp") {
            Some(s) => Some(s.as_str()),
            None => None,
        }
    }

    /// `stale_after` — the `YYYY-MM-DD` date on or after which the concept is
    /// stale, kept as written.
    pub fn stale_after(&self) -> (r: Option<&str>)
        ensures
            opt_text(r) == field_string(self.entries(), "stale_after"@),
    {
        match self.string("stale_after") {
            Some(s) => Some(s.as_str()),
            None => None,
        }
    }

    /// `runtime` — how an Attested Computation is run.
    pub fn runtime(&self) -> (r: Option<&str>)
        ensures
            opt_text(r) == field_string(self.entries(), "runtime"@),
    {
        match self.string("runtime") {
            Some(s) => Some(s.as_str()),
            None => None,
        }
    }

    /// `computation` — a path to a file holding an Attested
    /// Computation's computation, used instead of the inline body block.
    pub fn computation(&self) -> (r: Option<&str>)
        ensures
            opt_text(r) == field_string(self.entries(), "computation"@),
    {
        match self.string("computation") {
            Some(s) => Some(s.as_str()),
            None => None,
        }
    }

    /// `tags` — the categorization strings, or `None` if absent or not a list
    /// of strings. A list holding a non-string reads as `None` rather than the
    /// strings beside it.
    pub fn tags(&self) -> (r: Option<Vec<&str>>)
        ensures
            match r {
                Some(v) => field_tags(self.entries()) == Some(crate::bundle::strs_view(v@)),
                None => field_tags(self.entries()) is None,
            },
    {
        match lookup_entry(&self.fields, "tags") {
            Some(Yaml::Sequence(items)) => all_string_refs(items),
            _ => None,
        }
    }

    /// `status` — the lifecycle stage, read only when it is one of the
    /// three declared values.
    pub fn status(&self) -> (r: Option<Status>)
        ensures
            r == field_status(self.entries()),
    {
        match self.string("status") {
            Some(s) => {
                if str_eq(s, "draft") {
                    Some(Status::Draft)
                } else if str_eq(s, "stable") {
                    Some(Status::Stable)
                } else if str_eq(s, "deprecated") {
                    Some(Status::Deprecated)
                } else {
                    None
                }
            },
            None => None,
        }
    }

    /// `generated` — how the current content was produced. `None` when
    /// absent or not a mapping; a mapping with no `by` still reads.
    pub fn generated(&self) -> (r: Option<Generated>)
        ensures
            match r {
                Some(g) => field_generated(self.entries()) == Some(g@),
                None => field_generated(self.entries()) is None,
            },
    {
        match lookup_entry(&self.fields, "generated") {
            Some(v) => {
                if v.is_mapping() {
                    Some(Generated { by: string_at(v, "by"), at: scalar_at(v, "at") })
                } else {
                    None
                }
            },
            None => None,
        }
    }

    /// `verified` — the verification events. A **bare `{ by, at }`
    /// mapping counts as one** event, not zero; a list reads each mapping
    /// entry; anything else reads as empty.
    pub fn verified(&self) -> (r: Vec<Verification>)
        ensures
            r@.map_values(|x: Verification| x@) == field_verified(self.entries()),
    {
        match lookup_entry(&self.fields, "verified") {
            Some(Yaml::Sequence(items)) => verifications_of(items),
            Some(Yaml::Mapping(m)) => {
                let v = lookup_entry(&self.fields, "verified").unwrap();
                let one = Verification { by: string_at(v, "by"), at: scalar_at(v, "at") };
                let out = vec![one];
                assert(out@.map_values(|x: Verification| x@) =~= field_verified(self.entries()));
                out
            },
            _ => {
                let out: Vec<Verification> = Vec::new();
                assert(out@.map_values(|x: Verification| x@) =~= field_verified(self.entries()));
                out
            },
        }
    }

    /// `sources` — the materials a concept derives from. A missing
    /// `resource` still reads, so a check can locate it; non-mapping entries are
    /// dropped, and an absent or non-list `sources` reads as empty.
    pub fn sources(&self) -> (r: Vec<Source>)
        ensures
            r@.map_values(|x: Source| x@) == field_sources(self.entries()),
    {
        match lookup_entry(&self.fields, "sources") {
            Some(Yaml::Sequence(items)) => sources_of(items),
            _ => {
                let out: Vec<Source> = Vec::new();
                assert(out@.map_values(|x: Source| x@) =~= field_sources(self.entries()));
                out
            },
        }
    }

    /// `usage_window` — the shared `{ from, to }` range that frames every
    /// source's `usage_count`.
    pub fn usage_window(&self) -> (r: Option<UsageWindow>)
        ensures
            opt_window(r) == field_usage_window(self.entries()),
    {
        match lookup_entry(&self.fields, "usage_window") {
            Some(v) => window_from(v),
            None => None,
        }
    }

    /// `parameters` — the typed, named holes an Attested Computation exposes.
    /// Absent or non-list reads empty; non-mapping entries are dropped.
    pub fn parameters(&self) -> (r: Vec<Parameter>)
        ensures
            r@.map_values(|x: Parameter| x@) == field_parameters(self.entries()),
    {
        match lookup_entry(&self.fields, "parameters") {
            Some(Yaml::Sequence(items)) => parameters_of(items),
            _ => {
                let out: Vec<Parameter> = Vec::new();
                assert(out@.map_values(|x: Parameter| x@) =~= field_parameters(self.entries()));
                out
            },
        }
    }

    /// `executor` — how an Attested Computation is run.
    pub fn executor(&self) -> (r: Option<Executor>)
        ensures
            match r {
                Some(x) => field_executor(self.entries()) == Some(x@),
                None => field_executor(self.entries()) is None,
            },
    {
        match lookup_entry(&self.fields, "executor") {
            Some(v) => {
                if v.is_mapping() {
                    let receipt = match v.get("receipt") {
                        Some(Yaml::Sequence(items)) => string_items_of(items),
                        _ => {
                            let out: Vec<String> = Vec::new();
                            assert(strings_view(out@) =~= string_list_at(*v, "receipt"@));
                            out
                        },
                    };
                    Some(Executor { resource: string_at(v, "resource"), receipt })
                } else {
                    None
                }
            },
            None => None,
        }
    }

    /// Whether `executor.receipt` is present but not a list of field names.
    pub fn executor_receipt_malformed(&self) -> (r: bool)
        ensures
            r == field_receipt_malformed(self.entries()),
    {
        match lookup_entry(&self.fields, "executor") {
            Some(v) => {
                if !v.is_mapping() {
                    return false;
                }
                match v.get("receipt") {
                    Some(Yaml::Sequence(items)) => all_string_items(items).is_none(),
                    Some(_) => true,
                    None => false,
                }
            },
            None => false,
        }
    }

    /// `attester` — the deterministic, consumer-side check.
    pub fn attester(&self) -> (r: Option<Attester>)
        ensures
            match r {
                Some(x) => field_attester(self.entries()) == Some(x@),
                None => field_attester(self.entries()) is None,
            },
    {
        match lookup_entry(&self.fields, "attester") {
            Some(v) => {
                if v.is_mapping() {
                    Some(Attester { resource: string_at(v, "resource") })
                } else {
                    None
                }
            },
            None => None,
        }
    }

    /// The block exactly as written, fences excluded: extension keys and the
    /// families no accessor reads survive here.
    pub fn source(&self) -> (r: &str)
        ensures
            r@ == self.text(),
    {
        self.source.as_str()
    }

    /// Whether the block declares `key` at all, of any shape — "absent" (fine)
    /// told from "present but the wrong shape" (a finding).
    pub fn declares(&self, key: &str) -> (r: bool)
        ensures
            r == (lookup(self.entries(), key@) is Some),
    {
        lookup_entry(&self.fields, key).is_some()
    }
}

/// A borrowed text, as its characters.
pub open spec fn opt_text(o: Option<&str>) -> Option<Seq<char>> {
    match o {
        Some(s) => Some(s@),
        None => None,
    }
}

/// Whether `s` spells `word`.
pub fn str_eq(s: &String, word: &str) -> (r: bool)
    ensures
        r == (s@ == word@),
{
    crate::text::str_is(s.as_str(), word)
}

/// The strings of a list, or `None` when any item is not a string.
fn all_string_items(items: &Vec<Yaml>) -> (r: Option<Vec<String>>)
    ensures
        match r {
            Some(v) => all_strings(items@) == Some(strings_view(v@)),
            None => all_strings(items@) is None,
        },
{
    let mut out: Vec<String> = Vec::new();
    let mut i: usize = 0;
    while i < items.len()
        invariant
            i <= items@.len(),
            all_strings(items@.take(i as int)) == Some(strings_view(out@)),
        decreases items.len() - i,
    {
        assert(items@.take(i + 1).drop_last() =~= items@.take(i as int));
        assert(items@.take(i + 1).last() == items@[i as int]);
        match &items[i] {
            Yaml::String(s) => {
                let ghost prev = out@;
                out.push(s.clone());
                assert(strings_view(out@) =~= strings_view(prev).push(s@));
            },
            _ => {
                proof {
                    lemma_all_strings_extend(items@, i as int);
                }
                return None;
            },
        }
        i += 1;
    }
    assert(items@.take(i as int) =~= items@);
    Some(out)
}

/// The strings of a list, borrowed, or `None` when any item is not a string.
fn all_string_refs(items: &Vec<Yaml>) -> (r: Option<Vec<&str>>)
    ensures
        match r {
            Some(v) => all_strings(items@) == Some(crate::bundle::strs_view(v@)),
            None => all_strings(items@) is None,
        },
{
    let mut out: Vec<&str> = Vec::new();
    let mut i: usize = 0;
    while i < items.len()
        invariant
            i <= items@.len(),
            all_strings(items@.take(i as int)) == Some(crate::bundle::strs_view(out@)),
        decreases items.len() - i,
    {
        assert(items@.take(i + 1).drop_last() =~= items@.take(i as int));
        assert(items@.take(i + 1).last() == items@[i as int]);
        match &items[i] {
            Yaml::String(s) => {
                let ghost prev = out@;
                let t = s.as_str();
                out.push(t);
                assert(crate::bundle::strs_view(out@) =~= crate::bundle::strs_view(prev).push(s@));
            },
            _ => {
                proof {
                    lemma_all_strings_extend(items@, i as int);
                }
                return None;
            },
        }
        i += 1;
    }
    assert(items@.take(i as int) =~= items@);
    Some(out)
}

/// A list with a non-string among its first `i + 1` items has no string
/// reading.
proof fn lemma_all_strings_extend(items: Seq<Yaml>, i: int)
    requires
        0 <= i < items.len(),
        all_strings(items.take(i + 1)) is None,
    ensures
        all_strings(items) is None,
    decreases items.len() - i,
{
    if i + 1 < items.len() {
        assert(items.take(i + 2).drop_last() =~= items.take(i + 1));
        lemma_all_strings_extend(items, i + 1);
    } else {
        assert(items.take(i + 1) =~= items);
    }
}

/// The string items of a list, a non-string dropped.
fn string_items_of(items: &Vec<Yaml>) -> (r: Vec<String>)
    ensures
        strings_view(r@) == string_items(items@),
{
    let mut out: Vec<String> = Vec::new();
    let mut i: usize = 0;
    while i < items.len()
        invariant
            i <= items@.len(),
            strings_view(out@) == string_items(items@.take(i as int)),
        decreases items.len() - i,
    {
        assert(items@.take(i + 1).drop_last() =~= items@.take(i as int));
        assert(items@.take(i + 1).last() == items@[i as int]);
        match &items[i] {
            Yaml::String(s) => {
                let ghost prev = out@;
                out.push(s.clone());
                assert(strings_view(out@) =~= strings_view(prev).push(s@));
            },
            _ => {},
        }
        i += 1;
    }
    assert(items@.take(i as int) =~= items@);
    out
}

/// One `{ by, at }` event from each mapping of a list.
fn verifications_of(items: &Vec<Yaml>) -> (r: Vec<Verification>)
    ensures
        r@.map_values(|x: Verification| x@) == items@.filter_map(|v: Yaml| event_of(v)),
{
    let mut out: Vec<Verification> = Vec::new();
    let mut i: usize = 0;
    while i < items.len()
        invariant
            i <= items@.len(),
            out@.map_values(|x: Verification| x@) == items@.take(i as int).filter_map(
                |v: Yaml| event_of(v),
            ),
        decreases items.len() - i,
    {
        assert(items@.take(i + 1).drop_last() =~= items@.take(i as int));
        assert(items@.take(i + 1).last() == items@[i as int]);
        let v = &items[i];
        if v.is_mapping() {
            let ghost prev = out@;
            out.push(Verification { by: string_at(v, "by"), at: scalar_at(v, "at") });
            assert(out@.map_values(|x: Verification| x@) =~= prev.map_values(
                |x: Verification| x@,
            ) + seq![event_of(*v)->0]);
        }
        i += 1;
    }
    assert(items@.take(i as int) =~= items@);
    out
}

/// A `{ from, to }` window, when `v` is a mapping.
fn window_from(v: &Yaml) -> (r: Option<UsageWindow>)
    ensures
        opt_window(r) == window_of(*v),
{
    if v.is_mapping() {
        Some(UsageWindow { from: string_at(v, "from"), to: string_at(v, "to") })
    } else {
        None
    }
}

/// One `sources` entry, when `v` is a mapping.
fn source_from(v: &Yaml) -> (r: Option<Source>)
    ensures
        match r {
            Some(s) => source_of(*v) == Some(s@),
            None => source_of(*v) is None,
        },
{
    if !v.is_mapping() {
        return None;
    }
    let (usage_count, usage_count_malformed) = match v.get("usage_count") {
        Some(c) => {
            let n = c.as_i64();
            (n, n.is_none())
        },
        None => (None, false),
    };
    let usage_window = match v.get("usage_window") {
        Some(w) => window_from(w),
        None => None,
    };
    Some(
        Source {
            id: string_at(v, "id"),
            resource: string_at(v, "resource"),
            title: string_at(v, "title"),
            author: string_at(v, "author"),
            usage_count,
            usage_count_malformed,
            last_modified: string_at(v, "last_modified"),
            usage_window,
        },
    )
}

/// One `sources` entry from each mapping of a list.
fn sources_of(items: &Vec<Yaml>) -> (r: Vec<Source>)
    ensures
        r@.map_values(|x: Source| x@) == items@.filter_map(|v: Yaml| source_of(v)),
{
    let mut out: Vec<Source> = Vec::new();
    let mut i: usize = 0;
    while i < items.len()
        invariant
            i <= items@.len(),
            out@.map_values(|x: Source| x@) == items@.take(i as int).filter_map(
                |v: Yaml| source_of(v),
            ),
        decreases items.len() - i,
    {
        assert(items@.take(i + 1).drop_last() =~= items@.take(i as int));
        assert(items@.take(i + 1).last() == items@[i as int]);
        match source_from(&items[i]) {
            Some(s) => {
                let ghost prev = out@;
                let ghost sv = s@;
                out.push(s);
                assert(out@.map_values(|x: Source| x@) =~= prev.map_values(|x: Source| x@) + seq![
                    sv,
                ]);
            },
            None => {},
        }
        i += 1;
    }
    assert(items@.take(i as int) =~= items@);
    out
}

/// One `parameters` entry from each mapping of a list.
fn parameters_of(items: &Vec<Yaml>) -> (r: Vec<Parameter>)
    ensures
        r@.map_values(|x: Parameter| x@) == items@.filter_map(|v: Yaml| parameter_of(v)),
{
    let mut out: Vec<Parameter> = Vec::new();
    let mut i: usize = 0;
    while i < items.len()
        invariant
            i <= items@.len(),
            out@.map_values(|x: Parameter| x@) == items@.take(i as int).filter_map(
                |v: Yaml| parameter_of(v),
            ),
        decreases items.len() - i,
    {
        assert(items@.take(i + 1).drop_last() =~= items@.take(i as int));
        assert(items@.take(i + 1).last() == items@[i as int]);
        let v = &items[i];
        if v.is_mapping() {
            let required = match v.get("required") {
                Some(b) => b.as_bool(),
                None => None,
            };
            let p = Parameter { name: string_at(v, "name"), kind: string_at(v, "type"), required };
            let ghost prev = out@;
            let ghost pv = p@;
            out.push(p);
            assert(out@.map_values(|x: Parameter| x@) =~= prev.map_values(|x: Parameter| x@)
                + seq![pv]);
        }
        i += 1;
    }
    assert(items@.take(i as int) =~= items@);
    out
}


// ---------------------------------------------------------------------------
// Splitting a file into its frontmatter block and its body.
// ---------------------------------------------------------------------------
/// Where the `\n`-terminated chunk of `s` starting at `i` ends (just after its
/// `\n`, or at the end of `s`) — one item of `str::split_inclusive('\n')`.
pub open spec fn chunk_end(s: Seq<char>, i: int) -> int {
    let f = find_char(s.subrange(i, s.len() as int), '\n');
    if i + f < s.len() {
        i + f + 1
    } else {
        s.len() as int
    }
}

/// A fence line: `---`, trailing whitespace (the line break included) ignored.
pub open spec fn is_fence(line: Seq<char>) -> bool {
    trim_end(line) == seq!['-', '-', '-']
}

/// The first fence chunk at or after `i`, as its `(start, end)`.
pub open spec fn closing_fence(s: Seq<char>, i: int) -> Option<(int, int)>
    decreases s.len() - i,
{
    if i < 0 || i >= s.len() {
        None
    } else {
        proof {
            lemma_find_char(s.subrange(i, s.len() as int), '\n');
        }
        let e = chunk_end(s, i);
        if is_fence(s.subrange(i, e)) {
            Some((i, e))
        } else {
            closing_fence(s, e)
        }
    }
}

/// Why a file is not a concept document, as a value.
pub ghost enum Unreadable {
    MissingFrontmatter,
    UnterminatedFrontmatter,
    MalformedFrontmatter(Seq<char>),
    FrontmatterNotAMapping,
}

/// A file split into its block and its body: only the first line can open a
/// block, so a `---` in the prose is a horizontal rule; the closing fence is the
/// first `---` line after it; the body is everything after that line.
pub open spec fn fenced(s: Seq<char>) -> Result<(Seq<char>, Seq<char>), Unreadable> {
    if s.len() == 0 {
        Err(Unreadable::MissingFrontmatter)
    } else {
        let open = chunk_end(s, 0);
        if !is_fence(s.subrange(0, open)) {
            Err(Unreadable::MissingFrontmatter)
        } else {
            match closing_fence(s, open) {
                Some((a, b)) => Ok((s.subrange(open, a), s.subrange(b, s.len() as int))),
                None => Err(Unreadable::UnterminatedFrontmatter),
            }
        }
    }
}

/// The bounds `(block_start, block_end, body_start)` of a fenced file.
fn fence_bounds(cs: &[char]) -> (r: Option<(usize, usize, usize)>)
    ensures
        match r {
            Some((a, b, c)) => a <= b <= c <= cs@.len() && fenced(cs@) == Ok::<
                (Seq<char>, Seq<char>),
                Unreadable,
            >((cs@.subrange(a as int, b as int), cs@.subrange(c as int, cs@.len() as int))),
            None => fenced(cs@) is Err,
        },
{
    let n = cs.len();
    if n == 0 {
        return None;
    }
    let first = line_end(cs, 0);
    if !fence_line(cs, 0, first) {
        return None;
    }
    let mut i = first;
    while i < n
        invariant
            first <= i <= n == cs@.len(),
            first == chunk_end(cs@, 0),
            is_fence(cs@.subrange(0, first as int)),
            closing_fence(cs@, first as int) == closing_fence(cs@, i as int),
        decreases n - i,
    {
        let e = line_end(cs, i);
        if fence_line(cs, i, e) {
            assert(closing_fence(cs@, i as int) == Some((i as int, e as int)));
            return Some((first, i, e));
        }
        assert(closing_fence(cs@, i as int) == closing_fence(cs@, e as int));
        i = e;
    }
    None
}

/// The end of the `\n`-terminated chunk starting at `i`.
fn line_end(cs: &[char], i: usize) -> (r: usize)
    requires
        i < cs@.len(),
    ensures
        i < r <= cs@.len(),
        r == chunk_end(cs@, i as int),
{
    let e = find_in(cs, i, cs.len(), '\n');
    if e < cs.len() {
        e + 1
    } else {
        cs.len()
    }
}

/// Whether `cs[lo..hi]` is a fence line.
fn fence_line(cs: &[char], lo: usize, hi: usize) -> (r: bool)
    requires
        lo <= hi <= cs@.len(),
    ensures
        r == is_fence(cs@.subrange(lo as int, hi as int)),
{
    let end = drop_white_end(cs, lo, hi);
    let r = end - lo == 3 && cs[lo] == '-' && cs[lo + 1] == '-' && cs[lo + 2] == '-';
    proof {
        let t = cs@.subrange(lo as int, end as int);
        if r {
            assert(t =~= seq!['-', '-', '-']);
        } else if t.len() == 3 {
            assert(t[0] == cs@[lo as int] && t[1] == cs@[lo + 1] && t[2] == cs@[lo + 2]);
        }
    }
    r
}

/// The ways a markdown file can fail to *be* a concept document — all about
/// shape, none about content.
#[derive(Debug, Clone, PartialEq, Eq)]
pub enum ConceptError {
    /// The file does not open with a `---` fence.
    MissingFrontmatter,
    /// The opening fence is never closed, so where the body begins is unknown.
    UnterminatedFrontmatter,
    /// The frontmatter is not parseable YAML; carries the parser's message.
    MalformedFrontmatter(String),
    /// The frontmatter parses as a scalar or a list, declaring no fields at all.
    FrontmatterNotAMapping,
}

impl View for ConceptError {
    type V = Unreadable;

    open spec fn view(&self) -> Unreadable {
        match self {
            ConceptError::MissingFrontmatter => Unreadable::MissingFrontmatter,
            ConceptError::UnterminatedFrontmatter => Unreadable::UnterminatedFrontmatter,
            ConceptError::MalformedFrontmatter(e) => Unreadable::MalformedFrontmatter(e@),
            ConceptError::FrontmatterNotAMapping => Unreadable::FrontmatterNotAMapping,
        }
    }
}

/// The line an unreadable file is reported with.
pub open spec fn unreadable_message(e: Unreadable) -> Seq<char> {
    match e {
        Unreadable::MissingFrontmatter => "no frontmatter: the file does not open with a `---` fence"@,
        Unreadable::UnterminatedFrontmatter => "unterminated frontmatter: the opening `---` fence is never closed"@,
        Unreadable::MalformedFrontmatter(m) => "frontmatter is not parseable YAML: "@ + m,
        Unreadable::FrontmatterNotAMapping => "frontmatter is not a mapping, so it declares no fields"@,
    }
}

impl ConceptError {
    /// The error as one line of text.
    pub fn message(&self) -> (r: String)
        ensures
            r@ == unreadable_message(self@),
    {
        match self {
            ConceptError::MissingFrontmatter => crate::text::string_from(
                "no frontmatter: the file does not open with a `---` fence",
            ),
            ConceptError::UnterminatedFrontmatter => crate::text::string_from(
                "unterminated frontmatter: the opening `---` fence is never closed",
            ),
            ConceptError::MalformedFrontmatter(e) => {
                let head = crate::text::string_from("frontmatter is not parseable YAML: ");
                concat_string(&head, e)
            },
            ConceptError::FrontmatterNotAMapping => crate::text::string_from(
                "frontmatter is not a mapping, so it declares no fields",
            ),
        }
    }
}

/// What a block's YAML declares: the mapping's entries; an empty block (null)
/// declares none; a scalar or list is not a block of fields.
pub open spec fn block_entries(text: Seq<char>) -> Result<Seq<(Yaml, Yaml)>, Unreadable> {
    match yaml_document(text) {
        Ok(Yaml::Mapping(entries)) => Ok(entries@),
        Ok(Yaml::Null) => Ok(seq![]),
        Ok(_) => Err(Unreadable::FrontmatterNotAMapping),
        Err(m) => Err(Unreadable::MalformedFrontmatter(m)),
    }
}

/// A whole file read as a concept: its block's text and entries, and its body.
pub open spec fn concept_reading(s: Seq<char>) -> Result<
    (Seq<char>, Seq<(Yaml, Yaml)>, Seq<char>),
    Unreadable,
> {
    match fenced(s) {
        Ok((front, body)) => match block_entries(front) {
            Ok(entries) => Ok((front, entries, body)),
            Err(e) => Err(e),
        },
        Err(e) => Err(e),
    }
}

/// What a block declares, given what its YAML parsed to (see
/// [`block_entries`]).
pub open spec fn parsed_entries(parsed: Result<Yaml, String>) -> Result<Seq<(Yaml, Yaml)>, Unreadable> {
    match parsed {
        Ok(Yaml::Mapping(entries)) => Ok(entries@),
        Ok(Yaml::Null) => Ok(seq![]),
        Ok(_) => Err(Unreadable::FrontmatterNotAMapping),
        Err(m) => Err(Unreadable::MalformedFrontmatter(m@)),
    }
}

impl Frontmatter {
    /// The frontmatter a block's text makes, given what its YAML parsed to: a
    /// mapping's entries are its fields, an empty block declares none, a
    /// scalar or list is no block of fields, and a parse error is malformed
    /// frontmatter.
    pub fn from_parsed(source: String, parsed: Result<Yaml, String>) -> (r: Result<Frontmatter, ConceptError>)
        ensures
            match (r, parsed_entries(parsed)) {
                (Ok(f), Ok(entries)) => f.text() == source@ && f.entries() == entries,
                (Err(e), Err(u)) => e@ == u,
                _ => false,
            },
    {
        match parsed {
            Ok(Yaml::Mapping(fields)) => Ok(Frontmatter { source, fields }),
            Ok(Yaml::Null) => Ok(Frontmatter { source, fields: Vec::new() }),
            Ok(_) => Err(ConceptError::FrontmatterNotAMapping),
            Err(e) => Err(ConceptError::MalformedFrontmatter(e)),
        }
    }

    /// Parse the YAML text between the `---` fences.
    fn parse(source: String) -> (r: Result<Frontmatter, ConceptError>)
        ensures
            match (r, block_entries(source@)) {
                (Ok(f), Ok(entries)) => f.text() == source@ && f.entries() == entries,
                (Err(e), Err(u)) => e@ == u,
                _ => false,
            },
    {
        let parsed = parse_yaml(source.as_str());
        assert(parsed_entries(parsed) == block_entries(source@));
        Frontmatter::from_parsed(source, parsed)
    }
}

/// Everything after the frontmatter: markdown, carried verbatim and not
/// parsed here beyond its `# Computation` section.
#[derive(Debug, Clone, PartialEq, Eq)]
pub struct Body(String);

impl View for Body {
    type V = Seq<char>;

    closed spec fn view(&self) -> Seq<char> {
        self.0@
    }
}

/// A fence line of markdown: it opens with ```` ``` ```` or `~~~` once leading
/// whitespace is skipped.
pub open spec fn is_code_fence(line: Seq<char>) -> bool {
    let t = trim_start(line);
    t.len() >= 3 && ((t[0] == '`' && t[1] == '`' && t[2] == '`') || (t[0] == '~' && t[1] == '~'
        && t[2] == '~'))
}

/// `s` with every leading `#` removed.
pub open spec fn drop_hashes(s: Seq<char>) -> Seq<char>
    decreases s.len(),
{
    if s.len() > 0 && s[0] == '#' {
        drop_hashes(s.drop_first())
    } else {
        s
    }
}

/// A heading line: it opens with `#` once leading whitespace is skipped.
pub open spec fn is_heading(line: Seq<char>) -> bool {
    let t = trim_start(line);
    t.len() > 0 && t[0] == '#'
}

/// A `Computation` heading, at any level.
pub open spec fn is_computation_heading(line: Seq<char>) -> bool {
    is_heading(line) && trim(drop_hashes(trim_start(line))) == "Computation"@
}

/// Whether a `Computation` heading stands among `ls` outside fenced code,
/// `in_fence` saying whether the first line is inside a fence.
pub open spec fn has_heading_from(ls: Seq<Seq<char>>, in_fence: bool) -> bool
    decreases ls.len(),
{
    if ls.len() == 0 {
        false
    } else if is_code_fence(ls[0]) {
        has_heading_from(ls.drop_first(), !in_fence)
    } else if !in_fence && is_computation_heading(ls[0]) {
        true
    } else {
        has_heading_from(ls.drop_first(), in_fence)
    }
}

/// Whether the lines up to the next heading (or the end) are all blank.
pub open spec fn section_blank(ls: Seq<Seq<char>>) -> bool
    decreases ls.len(),
{
    if ls.len() == 0 {
        true
    } else if trim(ls[0]).len() == 0 {
        section_blank(ls.drop_first())
    } else {
        is_heading(ls[0])
    }
}

/// Whether the first `Computation` heading outside fenced code among `ls`
/// opens a section holding nothing but blank lines.
pub open spec fn empty_section_from(ls: Seq<Seq<char>>, in_fence: bool) -> bool
    decreases ls.len(),
{
    if ls.len() == 0 {
        false
    } else if is_code_fence(ls[0]) {
        empty_section_from(ls.drop_first(), !in_fence)
    } else if !in_fence && is_computation_heading(ls[0]) {
        section_blank(ls.drop_first())
    } else {
        empty_section_from(ls.drop_first(), in_fence)
    }
}

/// Whether the line `cs[lo..hi]` is a code fence.
fn code_fence_line(cs: &[char], lo: usize, hi: usize) -> (r: bool)
    requires
        lo <= hi <= cs@.len(),
    ensures
        r == is_code_fence(cs@.subrange(lo as int, hi as int)),
{
    let a = skip_white(cs, lo, hi);
    let r = hi - a >= 3 && ((cs[a] == '`' && cs[a + 1] == '`' && cs[a + 2] == '`') || (cs[a] == '~'
        && cs[a + 1] == '~' && cs[a + 2] == '~'));
    proof {
        let t = cs@.subrange(a as int, hi as int);
        if t.len() >= 3 {
            assert(t[0] == cs@[a as int] && t[1] == cs@[a + 1] && t[2] == cs@[a + 2]);
        }
    }
    r
}

/// Whether the line `cs[lo..hi]` is a heading.
fn heading_line(cs: &[char], lo: usize, hi: usize) -> (r: bool)
    requires
        lo <= hi <= cs@.len(),
    ensures
        r == is_heading(cs@.subrange(lo as int, hi as int)),
{
    let a = skip_white(cs, lo, hi);
    let r = a < hi && cs[a] == '#';
    proof {
        if a < hi {
            assert(cs@.subrange(a as int, hi as int)[0] == cs@[a as int]);
        }
    }
    r
}

/// Whether the line `cs[lo..hi]` is a `Computation` heading.
fn computation_heading_line(cs: &[char], lo: usize, hi: usize) -> (r: bool)
    requires
        lo <= hi <= cs@.len(),
    ensures
        r == is_computation_heading(cs@.subrange(lo as int, hi as int)),
{
    if !heading_line(cs, lo, hi) {
        return false;
    }
    let a = skip_white(cs, lo, hi);
    let mut b = a;
    while b < hi && cs[b] == '#'
        invariant
            a <= b <= hi <= cs@.len(),
            drop_hashes(cs@.subrange(a as int, hi as int)) == drop_hashes(
                cs@.subrange(b as int, hi as int),
            ),
        decreases hi - b,
    {
        assert(cs@.subrange(b as int, hi as int).drop_first() =~= cs@.subrange(b + 1, hi as int));
        b += 1;
    }
    let (x, y) = trim_range(cs, b, hi);
    range_is(cs, x, y, "Computation")
}

/// Whether the line `cs[lo..hi]` is blank.
fn blank_line(cs: &[char], lo: usize, hi: usize) -> (r: bool)
    requires
        lo <= hi <= cs@.len(),
    ensures
        r == (trim(cs@.subrange(lo as int, hi as int)).len() == 0),
{
    let (x, y) = trim_range(cs, lo, hi);
    x == y
}

impl Body {
    /// The body text as written.
    pub fn as_str(&self) -> (r: &str)
        ensures
            r@ == self@,
    {
        self.0.as_str()
    }

    /// Whether the body carries a `# Computation` section — the inline
    /// half of the Attested-Computation computation-XOR — keyed on the heading's
    /// presence, at any level and outside fenced code, not on the code block's
    /// style.
    pub fn has_computation_section(&self) -> (r: bool)
        ensures
            r == has_heading_from(lines(self@), false),
    {
        let cs = chars_of(self.0.as_str());
        let ranges = line_ranges(&cs);
        let ghost ls = lines(cs@);
        let mut in_fence = false;
        let mut k: usize = 0;
        assert(ls.skip(0) =~= ls);
        while k < ranges.len()
            invariant
                k <= ranges@.len() == ls.len(),
                ls == lines(cs@),
                cs@ == self@,
                forall|j: int|
                    0 <= j < ranges@.len() ==> {
                        &&& (#[trigger] ranges@[j]).0 <= ranges@[j].1 <= cs@.len()
                        &&& cs@.subrange(ranges@[j].0 as int, ranges@[j].1 as int) == ls[j]
                    },
                has_heading_from(ls, false) == has_heading_from(ls.skip(k as int), in_fence),
            decreases ranges.len() - k,
        {
            let (lo, hi) = ranges[k];
            assert(ls.skip(k as int)[0] == ls[k as int]);
            assert(ls.skip(k as int).drop_first() =~= ls.skip(k + 1));
            if code_fence_line(&cs, lo, hi) {
                in_fence = !in_fence;
            } else if !in_fence && computation_heading_line(&cs, lo, hi) {
                return true;
            }
            k += 1;
        }
        assert(ls.skip(k as int) =~= Seq::<Seq<char>>::empty());
        false
    }

    /// Whether the first `# Computation` section outside fenced code holds
    /// nothing but blank lines before the next heading or the end —
    /// the inline source declared but not delivered.
    pub fn has_empty_computation_section(&self) -> (r: bool)
        ensures
            r == empty_section_from(lines(self@), false),
    {
        let cs = chars_of(self.0.as_str());
        let ranges = line_ranges(&cs);
        let ghost ls = lines(cs@);
        let mut in_fence = false;
        let mut k: usize = 0;
        assert(ls.skip(0) =~= ls);
        while k < ranges.len()
            invariant
                k <= ranges@.len() == ls.len(),
                ls == lines(cs@),
                cs@ == self@,
                forall|j: int|
                    0 <= j < ranges@.len() ==> {
                        &&& (#[trigger] ranges@[j]).0 <= ranges@[j].1 <= cs@.len()
                        &&& cs@.subrange(ranges@[j].0 as int, ranges@[j].1 as int) == ls[j]
                    },
                empty_section_from(ls, false) == empty_section_from(ls.skip(k as int), in_fence),
            decreases ranges.len() - k,
        {
            let (lo, hi) = ranges[k];
            assert(ls.skip(k as int)[0] == ls[k as int]);
            assert(ls.skip(k as int).drop_first() =~= ls.skip(k + 1));
            if code_fence_line(&cs, lo, hi) {
                in_fence = !in_fence;
            } else if !in_fence && computation_heading_line(&cs, lo, hi) {
                let mut m = k + 1;
                assert(empty_section_from(ls, false) == section_blank(ls.skip(k + 1)));
                while m < ranges.len()
                    invariant
                        k < m <= ranges@.len() == ls.len(),
                        empty_section_from(ls, false) == section_blank(ls.skip(k + 1)),
                        ls == lines(cs@),
                        cs@ == self@,
                        forall|j: int|
                            0 <= j < ranges@.len() ==> {
                                &&& (#[trigger] ranges@[j]).0 <= ranges@[j].1 <= cs@.len()
                                &&& cs@.subrange(ranges@[j].0 as int, ranges@[j].1 as int)
                                    == ls[j]
                            },
                        section_blank(ls.skip(k + 1)) == section_blank(ls.skip(m as int)),
                    decreases ranges.len() - m,
                {
                    let (a, b) = ranges[m];
                    assert(ls.skip(m as int)[0] == ls[m as int]);
                    assert(ls.skip(m as int).drop_first() =~= ls.skip(m + 1));
                    if !blank_line(&cs, a, b) {
                        return heading_line(&cs, a, b);
                    }
                    m += 1;
                }
                assert(ls.skip(m as int) =~= Seq::<Seq<char>>::empty());
                return true;
            }
            k += 1;
        }
        assert(ls.skip(k as int) =~= Seq::<Seq<char>>::empty());
        false
    }
}

/// One OKF concept document: its frontmatter and its body.
#[derive(Debug, PartialEq)]
pub struct Concept {
    frontmatter: Frontmatter,
    body: Body,
}

impl Concept {
    /// What the concept was read from: its block's text and entries, and its
    /// body.
    pub closed spec fn reading(&self) -> (Seq<char>, Seq<(Yaml, Yaml)>, Seq<char>) {
        (self.frontmatter.text(), self.frontmatter.entries(), self.body@)
    }

    /// Read a concept document from one markdown file's text: a `---`-fenced
    /// YAML block, then the body verbatim. What can fail is shape, never
    /// content — see [`ConceptError`].
    pub fn parse(source: &str) -> (r: Result<Concept, ConceptError>)
        ensures
            match (r, concept_reading(source@)) {
                (Ok(c), Ok(v)) => c.reading() == v,
                (Err(e), Err(u)) => e@ == u,
                _ => false,
            },
    {
        let cs = chars_of(source);
        match fence_bounds(&cs) {
            Some((a, b, c)) => {
                let front = string_of(&cs, a, b);
                let body = string_of(&cs, c, cs.len());
                match Frontmatter::parse(front) {
                    Ok(frontmatter) => Ok(Concept { frontmatter, body: Body(body) }),
                    Err(e) => Err(e),
                }
            },
            None => {
                if cs.len() == 0 {
                    Err(ConceptError::MissingFrontmatter)
                } else {
                    let first = line_end(&cs, 0);
                    if !fence_line(&cs, 0, first) {
                        Err(ConceptError::MissingFrontmatter)
                    } else {
                        Err(ConceptError::UnterminatedFrontmatter)
                    }
                }
            },
        }
    }

    /// The document's frontmatter.
    pub fn frontmatter(&self) -> (r: &Frontmatter)
        ensures
            r.text() == self.reading().0,
            r.entries() == self.reading().1,
    {
        &self.frontmatter
    }

    /// The document's body.
    pub fn body(&self) -> (r: &Body)
        ensures
            r@ == self.reading().2,
    {
        &self.body
    }
}

/// A file's frontmatter block, when it has a fenced one, and the text after it;
/// a file with no fenced block is all body.
pub open spec fn frontmatter_split(s: Seq<char>) -> (Option<Seq<char>>, Seq<char>) {
    match fenced(s) {
        Ok((front, body)) => (Some(front), body),
        Err(_) => (None, s),
    }
}

/// Split a reserved file's text into its frontmatter block, if it has one, and
/// its body.
pub fn split_frontmatter(text: &str) -> (r: (Option<String>, String))
    ensures
        opt_str(r.0) == frontmatter_split(text@).0,
        r.1@ == frontmatter_split(text@).1,
{
    let cs = chars_of(text);
    match fence_bounds(&cs) {
        Some((a, b, c)) => (Some(string_of(&cs, a, b)), string_of(&cs, c, cs.len())),
        None => {
            assert(cs@.subrange(0, cs@.len() as int) =~= cs@);
            (None, string_of(&cs, 0, cs.len()))
        },
    }
}

/// The body always follows the closing fence: when a file reads as a concept,
/// the block and the body are exactly the text between the fences and after
/// the closing one, so the two parts and the fences rebuild the file.
pub proof fn lemma_parts_rebuild_the_file(s: Seq<char>)
    requires
        fenced(s) is Ok,
    ensures
        ({
            let (front, body) = fenced(s)->Ok_0;
            let open = chunk_end(s, 0);
            let (a, b) = closing_fence(s, open)->0;
            s =~= s.subrange(0, open) + front + s.subrange(a, b) + body
        }),
{
    let open = chunk_end(s, 0);
    lemma_find_char(s.subrange(0, s.len() as int), '\n');
    lemma_closing_fence_bounds(s, open);
}

/// A run of whole lines, none of them a fence: empty or ending in `\n`, and
/// no `\n`-terminated line of it reads `---`.
pub open spec fn fence_free(f: Seq<char>) -> bool {
    &&& (f.len() == 0 || f.last() == '\n')
    &&& forall|i: int, j: int|
        0 <= i < j <= f.len() && (i == 0 || f[i - 1] == '\n') && f[j - 1] == '\n' && (forall|k: int|
            i <= k < j - 1 ==> f[k] != '\n') ==> !is_fence(#[trigger] f.subrange(i, j))
}

/// The fence line `---` and its line break.
pub open spec fn fence_chars() -> Seq<char> {
    seq!['-', '-', '-', '\n']
}

/// `---` and its line break make a fence line.
proof fn lemma_fence_chars()
    ensures
        is_fence(fence_chars()),
        find_char(fence_chars(), '\n') == 3,
{
    let q = fence_chars();
    assert(q.drop_last() =~= seq!['-', '-', '-']);
    assert(is_white('\n'));
    assert(!is_white('-'));
    assert(trim_end(seq!['-', '-', '-']) == seq!['-', '-', '-']);
    lemma_find_char(q, '\n');
    assert(q[0] != '\n' && q[1] != '\n' && q[2] != '\n' && q[3] == '\n');
}

/// Searching from a line start inside the block, the first fence found is the
/// closing `---` line.
proof fn lemma_closes_after(s: Seq<char>, f: Seq<char>, b: Seq<char>, i: int)
    requires
        s == fence_chars() + f + fence_chars() + b,
        fence_free(f),
        4 <= i <= 4 + f.len(),
        i == 4 || s[i - 1] == '\n',
    ensures
        closing_fence(s, i) == Some((4 + f.len() as int, 8 + f.len() as int)),
    decreases s.len() - i,
{
    let l = f.len() as int;
    let sub = s.subrange(i, s.len() as int);
    lemma_find_char(sub, '\n');
    let fc = find_char(sub, '\n');
    if i < 4 + l {
        assert(s[4 + l - 1] == f[l - 1]);
        assert(sub[4 + l - 1 - i] == '\n');
        assert(fc <= 4 + l - 1 - i);
        let e = i + fc + 1;
        assert(chunk_end(s, i) == e);
        assert(s.subrange(i, e) =~= f.subrange(i - 4, e - 4));
        assert(f[e - 5] == '\n') by {
            assert(sub[fc] == s[i + fc]);
        }
        assert forall|k: int| i - 4 <= k < e - 5 implies f[k] != '\n' by {
            assert(sub[k + 4 - i] == s[k + 4]);
        }
        if i > 4 {
            assert(f[i - 5] == s[i - 1]);
        }
        assert(!is_fence(f.subrange(i - 4, e - 4)));
        assert(s[e - 1] == '\n') by {
            assert(sub[fc] == s[i + fc]);
        }
        lemma_closes_after(s, f, b, e);
    } else {
        lemma_fence_chars();
        assert(sub.subrange(0, 4) =~= fence_chars());
        assert forall|k: int| 0 <= k < 3 implies sub[k] != '\n' by {
            assert(sub[k] == fence_chars()[k]);
        }
        assert(sub[3] == '\n');
        assert(fc == 3);
        assert(chunk_end(s, i) == i + 4);
        assert(s.subrange(i, i + 4) =~= fence_chars());
    }
}

/// The block reads back: a file made of a `---` line, whole lines none of
/// which is a fence, a second `---` line and any text has exactly those lines
/// as its block and that text, verbatim, as its body.
pub proof fn lemma_block_round_trip(f: Seq<char>, b: Seq<char>)
    requires
        fence_free(f),
    ensures
        fenced(fence_chars() + f + fence_chars() + b) == Ok::<(Seq<char>, Seq<char>), Unreadable>((f, b)),
{
    let s = fence_chars() + f + fence_chars() + b;
    let l = f.len() as int;
    lemma_fence_chars();
    assert(s.subrange(0, 4) =~= fence_chars());
    let sub = s.subrange(0, s.len() as int);
    assert(sub =~= s);
    lemma_find_char(s, '\n');
    assert forall|k: int| 0 <= k < 3 implies s[k] != '\n' by {
        assert(s[k] == fence_chars()[k]);
    }
    assert(s[3] == '\n');
    assert(find_char(s, '\n') == 3);
    assert(chunk_end(s, 0) == 4);
    lemma_closes_after(s, f, b, 4);
    assert(s.subrange(4, 4 + l) =~= f);
    assert(s.subrange(8 + l, s.len() as int) =~= b);
}

/// A closing fence found from `i` lies within the file, after `i`.
proof fn lemma_closing_fence_bounds(s: Seq<char>, i: int)
    requires
        0 <= i <= s.len(),
    ensures
        closing_fence(s, i) matches Some((a, b)) ==> i <= a < b <= s.len(),
    decreases s.len() - i,
{
    if i < s.len() {
        lemma_find_char(s.subrange(i, s.len() as int), '\n');
        let e = chunk_end(s, i);
        if !is_fence(s.subrange(i, e)) {
            lemma_closing_fence_bounds(s, e);
        }
    }
}

} // verus!
