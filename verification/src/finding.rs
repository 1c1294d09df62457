//! Located findings and the severity vocabulary every check reports in.

use vstd::prelude::*;

use crate::text::{chars_eq_ignore_ascii_case, chars_of, concat, concat_string, eq_ignore_ascii_case};

verus! {

/// Whether a finding is a **defect** to fix or a **report** about something the
/// format says to tolerate.
#[derive(Debug, Clone, Copy, PartialEq, Eq, Structural)]
pub enum Severity {
    /// A conformance failure to fix.
    Defect,
    /// Something the format says to tolerate; surfaced, but does not fail a run.
    Report,
}

/// Every rule a check can report. `CONCEPT-*` reads one document, `BUNDLE-*`
/// reads the graph, `INDEX-*` and `LOG-*` read the reserved files.
#[derive(Debug, Clone, Copy, PartialEq, Eq, Hash, Structural)]
#[non_exhaustive]
pub enum Rule {
    /// CONCEPT-1: a non-reserved `.md` that does not parse as a concept.
    NotAConcept,
    /// CONCEPT-2: a concept with no non-empty `type`.
    MissingType,
    /// BUNDLE-1: two concept files resolve to the same Concept ID.
    DuplicateId,
    /// BUNDLE-2: a body link resolves to no concept in the bundle. A report —
    /// a broken link may just be not-yet-written knowledge.
    DanglingLink,
    /// CONCEPT-3: `status` is present but not `draft` / `stable` / `deprecated`.
    InvalidStatus,
    /// CONCEPT-4: a declared `generated` block carries no `by`.
    MissingGeneratedBy,
    /// CONCEPT-5: an actor field does not match the actor convention.
    MalformedActor,
    /// CONCEPT-6: a `sources` entry declares no `resource`.
    MissingSourceResource,
    /// CONCEPT-7: an `Attested Computation` concept declares no `runtime`.
    MissingRuntime,
    /// CONCEPT-8: an `Attested Computation` gives its computation in neither or both
    /// of the two places.
    InvalidComputationSource,
    /// BUNDLE-3: a path-valued field names a bundle file that is not there.
    DanglingPath,
    /// BUNDLE-4: the derivation edges form a cycle.
    DerivationCycle,
    /// INDEX-1: an `index.md` carries frontmatter it may not.
    IndexFrontmatter,
    /// INDEX-2: an `index.md` entry link resolves to no concept, file, or
    /// subdirectory.
    DanglingIndexEntry,
    /// INDEX-3: a root `index.md` declares an `okf_version` this tool does not
    /// understand.
    UnknownOkfVersion,
    /// LOG-1: a `log.md` date heading is not ISO-8601 `YYYY-MM-DD`.
    NonIsoLogDate,
    /// LOG-2: a `log.md`'s date headings are not in newest-first order.
    LogOutOfOrder,
    /// LOG-3: a `log.md` entry link resolves to no concept, file, or directory.
    DanglingLogEntry,
    /// CONCEPT-9: an Attested Computation `parameters` entry is missing `name`,
    /// `type`, or a boolean `required`.
    MalformedParameter,
    /// CONCEPT-10: an Attested Computation's `executor` / `attester` is
    /// incomplete.
    IncompleteAttestation,
    /// CONCEPT-11: an Attested Computation's `# Computation` section is empty and
    /// there is no `computation:` path.
    EmptyComputation,
    /// CONCEPT-12: a `generated.at` or `verified[].at` that is not an RFC 3339
    /// datetime.
    MalformedTimestamp,
    /// CONCEPT-13: `stale_after` is present but not a `YYYY-MM-DD` date.
    MalformedStaleAfter,
    /// CONCEPT-14: a source credibility signal is present but unusable.
    MalformedSourceSignal,
}

/// Every rule, in declaration order.
pub open spec fn all_rules() -> Seq<Rule> {
    seq![
        Rule::NotAConcept,
        Rule::MissingType,
        Rule::DuplicateId,
        Rule::DanglingLink,
        Rule::InvalidStatus,
        Rule::MissingGeneratedBy,
        Rule::MalformedActor,
        Rule::MissingSourceResource,
        Rule::MissingRuntime,
        Rule::InvalidComputationSource,
        Rule::DanglingPath,
        Rule::DerivationCycle,
        Rule::IndexFrontmatter,
        Rule::DanglingIndexEntry,
        Rule::UnknownOkfVersion,
        Rule::NonIsoLogDate,
        Rule::LogOutOfOrder,
        Rule::DanglingLogEntry,
        Rule::MalformedParameter,
        Rule::IncompleteAttestation,
        Rule::EmptyComputation,
        Rule::MalformedTimestamp,
        Rule::MalformedStaleAfter,
        Rule::MalformedSourceSignal,
    ]
}

/// A rule's stable short code.
pub open spec fn rule_code(rule: Rule) -> Seq<char> {
    match rule {
        Rule::NotAConcept => "CONCEPT-1"@,
        Rule::MissingType => "CONCEPT-2"@,
        Rule::DuplicateId => "BUNDLE-1"@,
        Rule::DanglingLink => "BUNDLE-2"@,
        Rule::InvalidStatus => "CONCEPT-3"@,
        Rule::MissingGeneratedBy => "CONCEPT-4"@,
        Rule::MalformedActor => "CONCEPT-5"@,
        Rule::MissingSourceResource => "CONCEPT-6"@,
        Rule::MissingRuntime => "CONCEPT-7"@,
        Rule::InvalidComputationSource => "CONCEPT-8"@,
        Rule::DanglingPath => "BUNDLE-3"@,
        Rule::DerivationCycle => "BUNDLE-4"@,
        Rule::IndexFrontmatter => "INDEX-1"@,
        Rule::DanglingIndexEntry => "INDEX-2"@,
        Rule::UnknownOkfVersion => "INDEX-3"@,
        Rule::NonIsoLogDate => "LOG-1"@,
        Rule::LogOutOfOrder => "LOG-2"@,
        Rule::DanglingLogEntry => "LOG-3"@,
        Rule::MalformedParameter => "CONCEPT-9"@,
        Rule::IncompleteAttestation => "CONCEPT-10"@,
        Rule::EmptyComputation => "CONCEPT-11"@,
        Rule::MalformedTimestamp => "CONCEPT-12"@,
        Rule::MalformedStaleAfter => "CONCEPT-13"@,
        Rule::MalformedSourceSignal => "CONCEPT-14"@,
    }
}

/// A rule's human-readable name.
pub open spec fn rule_title(rule: Rule) -> Seq<char> {
    match rule {
        Rule::NotAConcept => "not a concept document"@,
        Rule::MissingType => "missing type"@,
        Rule::DuplicateId => "duplicate concept id"@,
        Rule::DanglingLink => "dangling link"@,
        Rule::InvalidStatus => "invalid status"@,
        Rule::MissingGeneratedBy => "missing generated.by"@,
        Rule::MalformedActor => "malformed actor"@,
        Rule::MissingSourceResource => "missing source resource"@,
        Rule::MissingRuntime => "missing runtime"@,
        Rule::InvalidComputationSource => "invalid computation source"@,
        Rule::DanglingPath => "dangling path"@,
        Rule::DerivationCycle => "derivation cycle"@,
        Rule::IndexFrontmatter => "index frontmatter not allowed"@,
        Rule::DanglingIndexEntry => "dangling index entry"@,
        Rule::UnknownOkfVersion => "unknown okf_version"@,
        Rule::NonIsoLogDate => "non-ISO log date"@,
        Rule::LogOutOfOrder => "log out of order"@,
        Rule::DanglingLogEntry => "dangling log entry"@,
        Rule::MalformedParameter => "malformed parameter"@,
        Rule::IncompleteAttestation => "incomplete attestation contract"@,
        Rule::EmptyComputation => "empty computation"@,
        Rule::MalformedTimestamp => "malformed timestamp"@,
        Rule::MalformedStaleAfter => "malformed stale_after"@,
        Rule::MalformedSourceSignal => "malformed source signal"@,
    }
}

/// Whether a rule is a defect or a tolerated report.
pub open spec fn rule_severity(rule: Rule) -> Severity {
    match rule {
        Rule::NotAConcept => Severity::Defect,
        Rule::MissingType => Severity::Defect,
        Rule::DuplicateId => Severity::Defect,
        Rule::DanglingLink => Severity::Report,
        Rule::InvalidStatus => Severity::Defect,
        Rule::MissingGeneratedBy => Severity::Defect,
        Rule::MalformedActor => Severity::Defect,
        Rule::MissingSourceResource => Severity::Defect,
        Rule::MissingRuntime => Severity::Defect,
        Rule::InvalidComputationSource => Severity::Defect,
        Rule::DanglingPath => Severity::Report,
        Rule::DerivationCycle => Severity::Report,
        Rule::IndexFrontmatter => Severity::Defect,
        Rule::DanglingIndexEntry => Severity::Report,
        Rule::UnknownOkfVersion => Severity::Report,
        Rule::NonIsoLogDate => Severity::Defect,
        Rule::LogOutOfOrder => Severity::Report,
        Rule::DanglingLogEntry => Severity::Report,
        Rule::MalformedParameter => Severity::Report,
        Rule::IncompleteAttestation => Severity::Report,
        Rule::EmptyComputation => Severity::Defect,
        Rule::MalformedTimestamp => Severity::Defect,
        Rule::MalformedStaleAfter => Severity::Defect,
        Rule::MalformedSourceSignal => Severity::Report,
    }
}

/// Every rule appears in `all_rules`.
pub proof fn lemma_all_rules_complete(rule: Rule)
    ensures
        all_rules().contains(rule),
{
    match rule {
        Rule::NotAConcept => assert(all_rules()[0] == rule),
        Rule::MissingType => assert(all_rules()[1] == rule),
        Rule::DuplicateId => assert(all_rules()[2] == rule),
        Rule::DanglingLink => assert(all_rules()[3] == rule),
        Rule::InvalidStatus => assert(all_rules()[4] == rule),
        Rule::MissingGeneratedBy => assert(all_rules()[5] == rule),
        Rule::MalformedActor => assert(all_rules()[6] == rule),
        Rule::MissingSourceResource => assert(all_rules()[7] == rule),
        Rule::MissingRuntime => assert(all_rules()[8] == rule),
        Rule::InvalidComputationSource => assert(all_rules()[9] == rule),
        Rule::DanglingPath => assert(all_rules()[10] == rule),
        Rule::DerivationCycle => assert(all_rules()[11] == rule),
        Rule::IndexFrontmatter => assert(all_rules()[12] == rule),
        Rule::DanglingIndexEntry => assert(all_rules()[13] == rule),
        Rule::UnknownOkfVersion => assert(all_rules()[14] == rule),
        Rule::NonIsoLogDate => assert(all_rules()[15] == rule),
        Rule::LogOutOfOrder => assert(all_rules()[16] == rule),
        Rule::DanglingLogEntry => assert(all_rules()[17] == rule),
        Rule::MalformedParameter => assert(all_rules()[18] == rule),
        Rule::IncompleteAttestation => assert(all_rules()[19] == rule),
        Rule::EmptyComputation => assert(all_rules()[20] == rule),
        Rule::MalformedTimestamp => assert(all_rules()[21] == rule),
        Rule::MalformedStaleAfter => assert(all_rules()[22] == rule),
        Rule::MalformedSourceSignal => assert(all_rules()[23] == rule),
    }
}


/// A character a rule code is written in: a capital, a digit, or `-`.
pub open spec fn is_code_char(c: char) -> bool {
    ('A' <= c && c <= 'Z') || ('0' <= c && c <= '9') || c == '-'
}

/// The rule a well-formed code names, read from its family letter and its
/// number.
spec fn rule_named(s: Seq<char>) -> Option<Rule> {
    let d1 = (s.last() as u32) as int - 48;
    let n = if s[s.len() - 2] == '-' {
        d1
    } else {
        10 * ((s[s.len() - 2] as u32) as int - 48) + d1
    };
    if s[0] == 'C' {
        if n == 1 { Some(Rule::NotAConcept) }
        else if n == 2 { Some(Rule::MissingType) }
        else if n == 3 { Some(Rule::InvalidStatus) }
        else if n == 4 { Some(Rule::MissingGeneratedBy) }
        else if n == 5 { Some(Rule::MalformedActor) }
        else if n == 6 { Some(Rule::MissingSourceResource) }
        else if n == 7 { Some(Rule::MissingRuntime) }
        else if n == 8 { Some(Rule::InvalidComputationSource) }
        else if n == 9 { Some(Rule::MalformedParameter) }
        else if n == 10 { Some(Rule::IncompleteAttestation) }
        else if n == 11 { Some(Rule::EmptyComputation) }
        else if n == 12 { Some(Rule::MalformedTimestamp) }
        else if n == 13 { Some(Rule::MalformedStaleAfter) }
        else if n == 14 { Some(Rule::MalformedSourceSignal) }
        else { None }
    } else if s[0] == 'B' {
        if n == 1 { Some(Rule::DuplicateId) }
        else if n == 2 { Some(Rule::DanglingLink) }
        else if n == 3 { Some(Rule::DanglingPath) }
        else if n == 4 { Some(Rule::DerivationCycle) }
        else { None }
    } else if s[0] == 'I' {
        if n == 1 { Some(Rule::IndexFrontmatter) }
        else if n == 2 { Some(Rule::DanglingIndexEntry) }
        else if n == 3 { Some(Rule::UnknownOkfVersion) }
        else { None }
    } else if s[0] == 'L' {
        if n == 1 { Some(Rule::NonIsoLogDate) }
        else if n == 2 { Some(Rule::LogOutOfOrder) }
        else if n == 3 { Some(Rule::DanglingLogEntry) }
        else { None }
    } else {
        None
    }
}

/// Each code is written in capitals, digits and `-`, and names its own rule.
proof fn lemma_code_reads_back(rule: Rule)
    ensures
        rule_code(rule).len() >= 2,
        forall|i: int| 0 <= i < rule_code(rule).len() ==> is_code_char(#[trigger] rule_code(rule)[i]),
        rule_named(rule_code(rule)) == Some(rule),
{
    match rule {
        Rule::NotAConcept => reveal_strlit("CONCEPT-1"),
        Rule::MissingType => reveal_strlit("CONCEPT-2"),
        Rule::DuplicateId => reveal_strlit("BUNDLE-1"),
        Rule::DanglingLink => reveal_strlit("BUNDLE-2"),
        Rule::InvalidStatus => reveal_strlit("CONCEPT-3"),
        Rule::MissingGeneratedBy => reveal_strlit("CONCEPT-4"),
        Rule::MalformedActor => reveal_strlit("CONCEPT-5"),
        Rule::MissingSourceResource => reveal_strlit("CONCEPT-6"),
        Rule::MissingRuntime => reveal_strlit("CONCEPT-7"),
        Rule::InvalidComputationSource => reveal_strlit("CONCEPT-8"),
        Rule::DanglingPath => reveal_strlit("BUNDLE-3"),
        Rule::DerivationCycle => reveal_strlit("BUNDLE-4"),
        Rule::IndexFrontmatter => reveal_strlit("INDEX-1"),
        Rule::DanglingIndexEntry => reveal_strlit("INDEX-2"),
        Rule::UnknownOkfVersion => reveal_strlit("INDEX-3"),
        Rule::NonIsoLogDate => reveal_strlit("LOG-1"),
        Rule::LogOutOfOrder => reveal_strlit("LOG-2"),
        Rule::DanglingLogEntry => reveal_strlit("LOG-3"),
        Rule::MalformedParameter => reveal_strlit("CONCEPT-9"),
        Rule::IncompleteAttestation => reveal_strlit("CONCEPT-10"),
        Rule::EmptyComputation => reveal_strlit("CONCEPT-11"),
        Rule::MalformedTimestamp => reveal_strlit("CONCEPT-12"),
        Rule::MalformedStaleAfter => reveal_strlit("CONCEPT-13"),
        Rule::MalformedSourceSignal => reveal_strlit("CONCEPT-14"),
    }
}

/// Codes never collide, not even ignoring ASCII case: a code names one rule.
pub proof fn lemma_codes_distinct(a: Rule, b: Rule)
    requires
        eq_ignore_ascii_case(rule_code(a), rule_code(b)),
    ensures
        a == b,
{
    lemma_code_reads_back(a);
    lemma_code_reads_back(b);
    let (sa, sb) = (rule_code(a), rule_code(b));
    assert forall|i: int| 0 <= i < sa.len() implies sa[i] == sb[i] by {
        assert(is_code_char(sa[i]));
        assert(is_code_char(sb[i]));
        assert(crate::text::ascii_lower(sa[i]) == crate::text::ascii_lower(sb[i]));
    }
    assert(sa =~= sb);
}

/// The families a rule code belongs to.
pub open spec fn is_family(p: Seq<char>) -> bool {
    p == "CONCEPT"@ || p == "BUNDLE"@ || p == "INDEX"@ || p == "LOG"@
}

/// A code written as a family, `-`, and a positive number in decimal.
pub open spec fn family_code(code: Seq<char>, p: Seq<char>, n: nat) -> bool {
    is_family(p) && n >= 1 && code == p + "-"@ + crate::text::decimal_text(n)
}

/// `code` is written `p-n`.
proof fn lemma_code_written(code: Seq<char>, p: Seq<char>, n: nat)
    requires
        is_family(p),
        1 <= n <= 99,
        code =~= p + "-"@ + crate::text::decimal_text(n),
    ensures
        exists|q: Seq<char>, m: nat| #[trigger] family_code(code, q, m),
{
    assert(family_code(code, p, n));
}

/// Every code is a family — `CONCEPT`, `BUNDLE`, `INDEX` or `LOG` — then `-`,
/// then a positive number in decimal.
pub proof fn lemma_code_form(rule: Rule)
    ensures
        exists|p: Seq<char>, n: nat| #[trigger] family_code(rule_code(rule), p, n),
{
    reveal_strlit("-");
    reveal_strlit("CONCEPT");
    reveal_strlit("BUNDLE");
    reveal_strlit("INDEX");
    reveal_strlit("LOG");
    reveal_with_fuel(crate::text::decimal_text, 2);
    match rule {
        Rule::NotAConcept => {
            reveal_strlit("CONCEPT-1");
            reveal_strlit("CONCEPT");
            lemma_code_written(rule_code(rule), "CONCEPT"@, 1);
        },
        Rule::MissingType => {
            reveal_strlit("CONCEPT-2");
            reveal_strlit("CONCEPT");
            lemma_code_written(rule_code(rule), "CONCEPT"@, 2);
        },
        Rule::DuplicateId => {
            reveal_strlit("BUNDLE-1");
            reveal_strlit("BUNDLE");
            lemma_code_written(rule_code(rule), "BUNDLE"@, 1);
        },
        Rule::DanglingLink => {
            reveal_strlit("BUNDLE-2");
            reveal_strlit("BUNDLE");
            lemma_code_written(rule_code(rule), "BUNDLE"@, 2);
        },
        Rule::InvalidStatus => {
            reveal_strlit("CONCEPT-3");
            reveal_strlit("CONCEPT");
            lemma_code_written(rule_code(rule), "CONCEPT"@, 3);
        },
        Rule::MissingGeneratedBy => {
            reveal_strlit("CONCEPT-4");
            reveal_strlit("CONCEPT");
            lemma_code_written(rule_code(rule), "CONCEPT"@, 4);
        },
        Rule::MalformedActor => {
            reveal_strlit("CONCEPT-5");
            reveal_strlit("CONCEPT");
            lemma_code_written(rule_code(rule), "CONCEPT"@, 5);
        },
        Rule::MissingSourceResource => {
            reveal_strlit("CONCEPT-6");
            reveal_strlit("CONCEPT");
            lemma_code_written(rule_code(rule), "CONCEPT"@, 6);
        },
        Rule::MissingRuntime => {
            reveal_strlit("CONCEPT-7");
            reveal_strlit("CONCEPT");
            lemma_code_written(rule_code(rule), "CONCEPT"@, 7);
        },
        Rule::InvalidComputationSource => {
            reveal_strlit("CONCEPT-8");
            reveal_strlit("CONCEPT");
            lemma_code_written(rule_code(rule), "CONCEPT"@, 8);
        },
        Rule::DanglingPath => {
            reveal_strlit("BUNDLE-3");
            reveal_strlit("BUNDLE");
            lemma_code_written(rule_code(rule), "BUNDLE"@, 3);
        },
        Rule::DerivationCycle => {
            reveal_strlit("BUNDLE-4");
            reveal_strlit("BUNDLE");
            lemma_code_written(rule_code(rule), "BUNDLE"@, 4);
        },
        Rule::IndexFrontmatter => {
            reveal_strlit("INDEX-1");
            reveal_strlit("INDEX");
            lemma_code_written(rule_code(rule), "INDEX"@, 1);
        },
        Rule::DanglingIndexEntry => {
            reveal_strlit("INDEX-2");
            reveal_strlit("INDEX");
            lemma_code_written(rule_code(rule), "INDEX"@, 2);
        },
        Rule::UnknownOkfVersion => {
            reveal_strlit("INDEX-3");
            reveal_strlit("INDEX");
            lemma_code_written(rule_code(rule), "INDEX"@, 3);
        },
        Rule::NonIsoLogDate => {
            reveal_strlit("LOG-1");
            reveal_strlit("LOG");
            lemma_code_written(rule_code(rule), "LOG"@, 1);
        },
        Rule::LogOutOfOrder => {
            reveal_strlit("LOG-2");
            reveal_strlit("LOG");
            lemma_code_written(rule_code(rule), "LOG"@, 2);
        },
        Rule::DanglingLogEntry => {
            reveal_strlit("LOG-3");
            reveal_strlit("LOG");
            lemma_code_written(rule_code(rule), "LOG"@, 3);
        },
        Rule::MalformedParameter => {
            reveal_strlit("CONCEPT-9");
            reveal_strlit("CONCEPT");
            lemma_code_written(rule_code(rule), "CONCEPT"@, 9);
        },
        Rule::IncompleteAttestation => {
            reveal_strlit("CONCEPT-10");
            reveal_strlit("CONCEPT");
            lemma_code_written(rule_code(rule), "CONCEPT"@, 10);
        },
        Rule::EmptyComputation => {
            reveal_strlit("CONCEPT-11");
            reveal_strlit("CONCEPT");
            lemma_code_written(rule_code(rule), "CONCEPT"@, 11);
        },
        Rule::MalformedTimestamp => {
            reveal_strlit("CONCEPT-12");
            reveal_strlit("CONCEPT");
            lemma_code_written(rule_code(rule), "CONCEPT"@, 12);
        },
        Rule::MalformedStaleAfter => {
            reveal_strlit("CONCEPT-13");
            reveal_strlit("CONCEPT");
            lemma_code_written(rule_code(rule), "CONCEPT"@, 13);
        },
        Rule::MalformedSourceSignal => {
            reveal_strlit("CONCEPT-14");
            reveal_strlit("CONCEPT");
            lemma_code_written(rule_code(rule), "CONCEPT"@, 14);
        },
    }
}

impl Rule {
    /// Every rule. A `Vec` rather than an array, so adding a rule does not
    /// change the type a caller wrote down.
    pub fn all() -> (r: Vec<Rule>)
        ensures
            r@ == all_rules(),
    {
        let r = vec![
            Rule::NotAConcept,
            Rule::MissingType,
            Rule::DuplicateId,
            Rule::DanglingLink,
            Rule::InvalidStatus,
            Rule::MissingGeneratedBy,
            Rule::MalformedActor,
            Rule::MissingSourceResource,
            Rule::MissingRuntime,
            Rule::InvalidComputationSource,
            Rule::DanglingPath,
            Rule::DerivationCycle,
            Rule::IndexFrontmatter,
            Rule::DanglingIndexEntry,
            Rule::UnknownOkfVersion,
            Rule::NonIsoLogDate,
            Rule::LogOutOfOrder,
            Rule::DanglingLogEntry,
            Rule::MalformedParameter,
            Rule::IncompleteAttestation,
            Rule::EmptyComputation,
            Rule::MalformedTimestamp,
            Rule::MalformedStaleAfter,
            Rule::MalformedSourceSignal,
        ];
        assert(r@ =~= all_rules());
        r
    }

    /// Stable short code, e.g. `CONCEPT-1`.
    pub fn code(self) -> (r: &'static str)
        ensures
            r@ == rule_code(self),
    {
        match self {
            Rule::NotAConcept => "CONCEPT-1",
            Rule::MissingType => "CONCEPT-2",
            Rule::DuplicateId => "BUNDLE-1",
            Rule::DanglingLink => "BUNDLE-2",
            Rule::InvalidStatus => "CONCEPT-3",
            Rule::MissingGeneratedBy => "CONCEPT-4",
            Rule::MalformedActor => "CONCEPT-5",
            Rule::MissingSourceResource => "CONCEPT-6",
            Rule::MissingRuntime => "CONCEPT-7",
            Rule::InvalidComputationSource => "CONCEPT-8",
            Rule::DanglingPath => "BUNDLE-3",
            Rule::DerivationCycle => "BUNDLE-4",
            Rule::IndexFrontmatter => "INDEX-1",
            Rule::DanglingIndexEntry => "INDEX-2",
            Rule::UnknownOkfVersion => "INDEX-3",
            Rule::NonIsoLogDate => "LOG-1",
            Rule::LogOutOfOrder => "LOG-2",
            Rule::DanglingLogEntry => "LOG-3",
            Rule::MalformedParameter => "CONCEPT-9",
            Rule::IncompleteAttestation => "CONCEPT-10",
            Rule::EmptyComputation => "CONCEPT-11",
            Rule::MalformedTimestamp => "CONCEPT-12",
            Rule::MalformedStaleAfter => "CONCEPT-13",
            Rule::MalformedSourceSignal => "CONCEPT-14",
        }
    }

    /// Human-readable rule name.
    pub fn title(self) -> (r: &'static str)
        ensures
            r@ == rule_title(self),
    {
        match self {
            Rule::NotAConcept => "not a concept document",
            Rule::MissingType => "missing type",
            Rule::DuplicateId => "duplicate concept id",
            Rule::DanglingLink => "dangling link",
            Rule::InvalidStatus => "invalid status",
            Rule::MissingGeneratedBy => "missing generated.by",
            Rule::MalformedActor => "malformed actor",
            Rule::MissingSourceResource => "missing source resource",
            Rule::MissingRuntime => "missing runtime",
            Rule::InvalidComputationSource => "invalid computation source",
            Rule::DanglingPath => "dangling path",
            Rule::DerivationCycle => "derivation cycle",
            Rule::IndexFrontmatter => "index frontmatter not allowed",
            Rule::DanglingIndexEntry => "dangling index entry",
            Rule::UnknownOkfVersion => "unknown okf_version",
            Rule::NonIsoLogDate => "non-ISO log date",
            Rule::LogOutOfOrder => "log out of order",
            Rule::DanglingLogEntry => "dangling log entry",
            Rule::MalformedParameter => "malformed parameter",
            Rule::IncompleteAttestation => "incomplete attestation contract",
            Rule::EmptyComputation => "empty computation",
            Rule::MalformedTimestamp => "malformed timestamp",
            Rule::MalformedStaleAfter => "malformed stale_after",
            Rule::MalformedSourceSignal => "malformed source signal",
        }
    }

    /// Whether this rule is a defect or a tolerated report.
    pub fn severity(self) -> (r: Severity)
        ensures
            r == rule_severity(self),
    {
        match self {
            Rule::NotAConcept => Severity::Defect,
            Rule::MissingType => Severity::Defect,
            Rule::DuplicateId => Severity::Defect,
            Rule::DanglingLink => Severity::Report,
            Rule::InvalidStatus => Severity::Defect,
            Rule::MissingGeneratedBy => Severity::Defect,
            Rule::MalformedActor => Severity::Defect,
            Rule::MissingSourceResource => Severity::Defect,
            Rule::MissingRuntime => Severity::Defect,
            Rule::InvalidComputationSource => Severity::Defect,
            Rule::DanglingPath => Severity::Report,
            Rule::DerivationCycle => Severity::Report,
            Rule::IndexFrontmatter => Severity::Defect,
            Rule::DanglingIndexEntry => Severity::Report,
            Rule::UnknownOkfVersion => Severity::Report,
            Rule::NonIsoLogDate => Severity::Defect,
            Rule::LogOutOfOrder => Severity::Report,
            Rule::DanglingLogEntry => Severity::Report,
            Rule::MalformedParameter => Severity::Report,
            Rule::IncompleteAttestation => Severity::Report,
            Rule::EmptyComputation => Severity::Defect,
            Rule::MalformedTimestamp => Severity::Defect,
            Rule::MalformedStaleAfter => Severity::Defect,
            Rule::MalformedSourceSignal => Severity::Report,
        }
    }

    /// The rule with this code, ASCII-case-insensitively — a code is typed by
    /// hand, and `bundle-2` means what `BUNDLE-2` means. `None` for a code no
    /// rule has.
    pub fn from_code(code: &str) -> (r: Option<Rule>)
        ensures
            match r {
                Some(rule) => eq_ignore_ascii_case(rule_code(rule), code@),
                None => forall|rule: Rule| !eq_ignore_ascii_case(rule_code(rule), code@),
            },
    {
        let wanted = chars_of(code);
        let rules = Rule::all();
        let mut i: usize = 0;
        while i < rules.len()
            invariant
                i <= rules@.len(),
                rules@ == all_rules(),
                wanted@ == code@,
                forall|j: int| 0 <= j < i ==> !eq_ignore_ascii_case(rule_code(#[trigger] rules@[j]), code@),
            decreases rules.len() - i,
        {
            let rule = rules[i];
            let candidate = chars_of(rule.code());
            if chars_eq_ignore_ascii_case(&candidate, &wanted) {
                return Some(rule);
            }
            i += 1;
        }
        assert forall|rule: Rule| !eq_ignore_ascii_case(rule_code(rule), code@) by {
            lemma_all_rules_complete(rule);
            let k = choose|k: int| 0 <= k < all_rules().len() && all_rules()[k] == rule;
            assert(!eq_ignore_ascii_case(rule_code(rules@[k]), code@));
        }
        None
    }
}

/// The code a rule reads back from is that rule: `from_code(rule.code())` is
/// `Some(rule)`, in any letter case.
pub proof fn lemma_code_round_trip(rule: Rule, code: Seq<char>, found: Rule)
    requires
        eq_ignore_ascii_case(rule_code(rule), code),
        eq_ignore_ascii_case(rule_code(found), code),
    ensures
        found == rule,
{
    assert(eq_ignore_ascii_case(rule_code(found), rule_code(rule))) by {
        assert forall|i: int| 0 <= i < code.len() implies crate::text::ascii_lower(
            rule_code(found)[i],
        ) == crate::text::ascii_lower(rule_code(rule)[i]) by {
            assert(crate::text::ascii_lower(rule_code(found)[i]) == crate::text::ascii_lower(
                code[i],
            ));
            assert(crate::text::ascii_lower(rule_code(rule)[i]) == crate::text::ascii_lower(
                code[i],
            ));
        }
    }
    lemma_codes_distinct(found, rule);
}

/// What a rule id names, as a value: an OKF rule, or a caller's code.
pub ghost enum RuleName {
    Spec(Rule),
    Custom(Seq<char>),
}

/// Which rule a finding is about: one of the built-in rules, or one a caller brought.
#[derive(Debug, Clone)]
#[non_exhaustive]
pub enum RuleId {
    /// One of the format's own rules.
    Spec(Rule),
    /// A caller's own rule, named by its code.
    Custom(String),
}

impl View for RuleId {
    type V = RuleName;

    open spec fn view(&self) -> RuleName {
        match self {
            RuleId::Spec(rule) => RuleName::Spec(*rule),
            RuleId::Custom(code) => RuleName::Custom(code@),
        }
    }
}

/// A rule name's code: the built-in one, or the caller's.
pub open spec fn name_code(name: RuleName) -> Seq<char> {
    match name {
        RuleName::Spec(rule) => rule_code(rule),
        RuleName::Custom(code) => code,
    }
}

impl RuleId {
    /// The rule's code: the built-in one, or the caller's.
    pub fn code(&self) -> (r: &str)
        ensures
            r@ == name_code(self@),
    {
        match self {
            RuleId::Spec(rule) => rule.code(),
            RuleId::Custom(code) => code.as_str(),
        }
    }

    /// The format rule this names, or `None` for a caller's.
    pub fn spec(&self) -> (r: Option<Rule>)
        ensures
            r == match self@ {
                RuleName::Spec(rule) => Some(rule),
                RuleName::Custom(_) => None::<Rule>,
            },
    {
        match self {
            RuleId::Spec(rule) => Some(*rule),
            RuleId::Custom(_) => None,
        }
    }

    /// A copy of this id.
    pub fn duplicate(&self) -> (r: RuleId)
        ensures
            r@ == self@,
    {
        match self {
            RuleId::Spec(rule) => RuleId::Spec(*rule),
            RuleId::Custom(code) => RuleId::Custom(code.clone()),
        }
    }

    /// Whether two ids name the same rule.
    pub fn same(&self, other: &RuleId) -> (r: bool)
        ensures
            r == (self@ == other@),
    {
        match (self, other) {
            (RuleId::Spec(a), RuleId::Spec(b)) => *a == *b,
            (RuleId::Custom(a), RuleId::Custom(b)) => {
                let eq = *a == *b;
                proof {
                    if eq {
                        assert(self@ == other@);
                    }
                }
                eq
            },
            _ => false,
        }
    }
}

impl PartialEq for RuleId {
    fn eq(&self, other: &RuleId) -> (r: bool) {
        self.same(other)
    }
}

impl vstd::std_specs::cmp::PartialEqSpecImpl for RuleId {
    open spec fn obeys_eq_spec() -> bool {
        true
    }

    open spec fn eq_spec(&self, other: &RuleId) -> bool {
        self@ == other@
    }
}

impl Eq for RuleId {

}

impl From<Rule> for RuleId {
    fn from(rule: Rule) -> (r: RuleId) {
        RuleId::Spec(rule)
    }
}

impl vstd::std_specs::convert::FromSpecImpl<Rule> for RuleId {
    open spec fn obeys_from_spec() -> bool {
        true
    }

    open spec fn from_spec(rule: Rule) -> RuleId {
        RuleId::Spec(rule)
    }
}

/// `finding.rule == Rule::MissingType` reads the obvious way; a caller's rule
/// is never equal to one of the format's rules.
impl PartialEq<Rule> for RuleId {
    fn eq(&self, other: &Rule) -> (r: bool) {
        match self {
            RuleId::Spec(rule) => *rule == *other,
            RuleId::Custom(_) => false,
        }
    }
}

impl vstd::std_specs::cmp::PartialEqSpecImpl<Rule> for RuleId {
    open spec fn obeys_eq_spec() -> bool {
        true
    }

    open spec fn eq_spec(&self, other: &Rule) -> bool {
        self@ == RuleName::Spec(*other)
    }
}

/// A located finding: the file it is about, the rule, and why.
#[derive(Debug, Clone, PartialEq, Eq)]
#[non_exhaustive]
pub struct Finding {
    /// Bundle-relative path of the file the finding is about, e.g.
    /// `tables/orders.md`.
    pub file: String,
    /// Which rule tripped.
    pub rule: RuleId,
    /// One-line explanation.
    pub detail: String,
}

/// A finding's severity: the rule's, or none for a caller's rule.
pub open spec fn finding_severity(name: RuleName) -> Option<Severity> {
    match name {
        RuleName::Spec(rule) => Some(rule_severity(rule)),
        RuleName::Custom(_) => None,
    }
}

/// The one line a finding prints as: a finding under a format rule names it,
/// `path CONCEPT-2 (missing type): ...`; a caller's prints the code alone,
/// `path TV-1: ...`. Fields are separated by a tab.
pub open spec fn finding_line(file: Seq<char>, name: RuleName, detail: Seq<char>) -> Seq<char> {
    match name {
        RuleName::Spec(rule) => file + "\t"@ + rule_code(rule) + " ("@ + rule_title(rule) + "): "@
            + detail,
        RuleName::Custom(code) => file + "\t"@ + code + ": "@ + detail,
    }
}

impl Finding {
    /// A finding about `file` under `rule`, explained by `detail`.
    pub fn new(file: String, rule: RuleId, detail: String) -> (r: Finding)
        ensures
            r.file@ == file@,
            r.rule@ == rule@,
            r.detail@ == detail@,
    {
        Finding { file, rule, detail }
    }

    /// The finding's severity, or `None` when a caller's rule tripped.
    pub fn severity(&self) -> (r: Option<Severity>)
        ensures
            r == finding_severity(self.rule@),
    {
        match &self.rule {
            RuleId::Spec(rule) => Some(rule.severity()),
            RuleId::Custom(_) => None,
        }
    }

    /// The finding as one printable line — see [`finding_line`].
    pub fn to_line(&self) -> (r: String)
        ensures
            r@ == finding_line(self.file@, self.rule@, self.detail@),
    {
        let mut out = concat(&self.file, "\t");
        match &self.rule {
            RuleId::Spec(rule) => {
                out = concat(&out, rule.code());
                out = concat(&out, " (");
                out = concat(&out, rule.title());
                out = concat(&out, "): ");
            },
            RuleId::Custom(code) => {
                out = concat_string(&out, code);
                out = concat(&out, ": ");
            },
        }
        out = concat_string(&out, &self.detail);
        out
    }
}

} // verus!
