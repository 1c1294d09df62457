//! Checks a caller brings, for requirements the OKF format does not make.
//!
//! okf-graph extends exactly as far as the format and no further. A producer
//! checking a bundle it owns usually wants more than that — every concept
//! carrying a `generated.at`, a house key present in every frontmatter — and
//! those are house rules rather than readings of OKF. This module is where they
//! attach, without the crate learning what any of them are.
//!
//! A check is a [`Check`] implementation, collected into [`Checks`] and run by
//! [`Bundle::check`]. Its findings carry a [`RuleId::Custom`] and flow through
//! [`Policy`] like any other, so a caller's rule can be denied, warned, or
//! allowed by the same machinery.

use vstd::prelude::*;

use crate::bundle::{finding_parts, findings_view, ids_in_order, Bundle};
use crate::concept::Concept;
use crate::finding::{Finding, Rule, RuleId, RuleName};
use crate::policy::{Level, Policy};
use crate::text::{chars_eq_ignore_ascii_case, chars_of, concat, eq_ignore_ascii_case, string_from};

verus! {

/// One of a caller's own verification requirements.
///
/// A trait rather than a closure so a rule's code, its default level, and the
/// reason it exists all live beside its logic. The reason matters more here than
/// it looks: every check is somebody's house rule, and the question a year later
/// is rarely what it checks — it is who wanted it and why.
pub trait Check {
    /// This rule's code, e.g. `TV-1`. It must be unique among the caller's own
    /// codes and must not collide with an OKF code; [`Checks::add`] enforces
    /// both.
    fn code(&self) -> &str;

    /// The level this rule runs at unless a [`Policy`] says otherwise.
    ///
    /// Defaults to [`Level::Defect`]: a caller who wrote a house rule generally
    /// means it. Override it for a rule meant to inform rather than gate.
    fn default_level(&self) -> (r: Level)
        default_ensures
            r == Level::Defect,
    {
        Level::Defect
    }

    /// Run against one concept. `Ok(())` passes; `Err(detail)` reports, and
    /// `detail` becomes the finding's one-line explanation.
    ///
    /// There is no third outcome. A check that *cannot* evaluate — the field it
    /// reads is malformed, something it depends on is absent — reports and says
    /// so in the detail. An inconclusive state that fell through to silence
    /// would be indistinguishable from a check that ran and was satisfied, which
    /// is the failure this codebase is built to catch.
    fn check(&self, id: &str, concept: &Concept) -> Result<(), String>;
}

/// So a caller assembling checks dynamically can hand [`Checks::add`] a boxed
/// one, rather than needing a passthrough of its own.
impl Check for Box<dyn Check> {
    fn code(&self) -> &str {
        (**self).code()
    }

    fn default_level(&self) -> Level {
        (**self).default_level()
    }

    fn check(&self, id: &str, concept: &Concept) -> Result<(), String> {
        (**self).check(id, concept)
    }
}

/// Why a check could not be registered.
#[derive(Debug, Clone, PartialEq, Eq)]
#[non_exhaustive]
pub enum CheckError {
    /// Two of the caller's checks share a code.
    DuplicateCode(String),
    /// A check's code collides with an OKF rule's, which would make its findings
    /// lie about where they came from.
    OkfCode(String),
}

/// A caller's checks, with their codes verified unique. A set that mixes
/// kinds of check holds them boxed, as `Checks<Box<dyn Check>>`.
pub struct Checks<C: Check = Box<dyn Check>> {
    checks: Vec<(String, C)>,
}


impl CheckError {
    /// The error as one line of text.
    pub fn message(&self) -> (r: String)
        ensures
            r@ == match self {
                CheckError::DuplicateCode(code) => "a check with the code `"@ + code@
                    + "` is already registered"@,
                CheckError::OkfCode(code) => "`"@ + code@ + "` is an OKF rule code and cannot be reused"@,
            },
    {
        match self {
            CheckError::DuplicateCode(code) => {
                let d = crate::text::concat_string(&string_from("a check with the code `"), code);
                concat(&d, "` is already registered")
            },
            CheckError::OkfCode(code) => {
                let d = crate::text::concat_string(&string_from("`"), code);
                concat(&d, "` is an OKF rule code and cannot be reused")
            },
        }
    }
}

/// Whether `code` is some OKF rule's, ignoring ASCII case.
pub open spec fn okf_code(code: Seq<char>) -> bool {
    exists|rule: Rule| eq_ignore_ascii_case(crate::finding::rule_code(rule), code)
}

/// Whether `codes` holds `code`, ignoring ASCII case.
pub open spec fn holds_code(codes: Seq<Seq<char>>, code: Seq<char>) -> bool {
    exists|i: int| 0 <= i < codes.len() && eq_ignore_ascii_case(#[trigger] codes[i], code)
}

/// Why `code` cannot join `codes`, if it cannot: an OKF code first, then a
/// code already registered.
pub open spec fn refusal_of(codes: Seq<Seq<char>>, code: Seq<char>) -> Option<CheckError> {
    if okf_code(code) {
        Some(CheckError::OkfCode(arbitrary()))
    } else if holds_code(codes, code) {
        Some(CheckError::DuplicateCode(arbitrary()))
    } else {
        None
    }
}

/// `code` is one the check's own `code` method can give.
pub open spec fn code_of<C: Check>(check: C, code: Seq<char>) -> bool {
    exists|c: &str| #[trigger] call_ensures(C::code, (&check,), c) && c@ == code
}

/// `said` is what the check's own `check` method can say of the concept `id`
/// read as `reading`: `None` for a pass, the detail for a report.
pub open spec fn check_says<C: Check>(
    check: C,
    id: Seq<char>,
    reading: crate::bundle::Reading,
    said: Option<Seq<char>>,
) -> bool {
    exists|o: Result<(), String>, idr: &str, c: &Concept|
        #[trigger] call_ensures(C::check, (&check, idr, c), o) && idr@ == id && c.reading() == reading
            && said_of(o) == said
}

/// An error's code.
pub open spec fn error_code(e: CheckError) -> Seq<char> {
    match e {
        CheckError::DuplicateCode(c) => c@,
        CheckError::OkfCode(c) => c@,
    }
}

/// Whether two errors are the same kind.
pub open spec fn same_kind(a: CheckError, b: CheckError) -> bool {
    (a is DuplicateCode && b is DuplicateCode) || (a is OkfCode && b is OkfCode)
}

impl<C: Check> View for Checks<C> {
    type V = Seq<Seq<char>>;

    /// The registered codes, in registration order.
    closed spec fn view(&self) -> Seq<Seq<char>> {
        self.checks@.map_values(|p: (String, C)| p.0@)
    }
}

impl<C: Check> Checks<C> {
    /// An empty set.
    pub fn new() -> (r: Checks<C>)
        ensures
            r@ == Seq::<Seq<char>>::empty(),
    {
        let r = Checks { checks: Vec::new() };
        assert(r@ =~= Seq::<Seq<char>>::empty());
        r
    }

    /// Whether a check with this code is registered, ASCII-case-insensitively.
    pub fn contains(&self, code: &str) -> (r: bool)
        ensures
            r == holds_code(self@, code@),
    {
        let wanted = chars_of(code);
        let mut i: usize = 0;
        while i < self.checks.len()
            invariant
                i <= self.checks@.len(),
                wanted@ == code@,
                forall|j: int| 0 <= j < i ==> !eq_ignore_ascii_case(#[trigger] self@[j], code@),
            decreases self.checks.len() - i,
        {
            let have = chars_of(self.checks[i].0.as_str());
            assert(self@[i as int] == have@);
            if chars_eq_ignore_ascii_case(&have, &wanted) {
                return true;
            }
            i += 1;
        }
        false
    }

    /// Why a check with this code could not be registered now, or `None` when
    /// it could: its code is an OKF rule's, or one already registered.
    /// Codes compare ASCII-case-insensitively, matching [`Rule::from_code`], so
    /// `tv-1` and `TV-1` collide.
    pub fn refusal(&self, code: &str) -> (r: Option<CheckError>)
        ensures
            match (r, refusal_of(self@, code@)) {
                (Some(e), Some(f)) => same_kind(e, f) && error_code(e) == code@,
                (None, None) => true,
                _ => false,
            },
    {
        if Rule::from_code(code).is_some() {
            return Some(CheckError::OkfCode(string_from(code)));
        }
        if self.contains(code) {
            return Some(CheckError::DuplicateCode(string_from(code)));
        }
        None
    }

    /// Register one check, or say why it could not be (see
    /// [`Checks::refusal`]): registration fails rather than resolving a
    /// collision, since two rules under one code make the output ambiguous
    /// about which fired and make a [`Policy`] level unresolvable.
    pub fn add(&mut self, check: C) -> (r: Result<(), CheckError>)
        ensures
            exists|code: Seq<char>|
                #![trigger refusal_of(old(self)@, code)]
                code_of(check, code) && match (r, refusal_of(old(self)@, code)) {
                    (Err(e), Some(f)) => same_kind(e, f) && error_code(e) == code && final(self)@
                        == old(self)@,
                    (Ok(()), None) => final(self)@ == old(self)@.push(code),
                    _ => false,
                },
    {
        let given = check.code();
        let code = string_from(given);
        assert(code_of(check, code@));
        match self.refusal(code.as_str()) {
            Some(e) => Err(e),
            None => {
                let ghost before = self@;
                let ghost old_checks = self.checks@;
                let ghost cv = code@;
                self.checks.push((code, check));
                assert(self.checks@.len() == old_checks.len() + 1);
                assert(self.checks@[old_checks.len() as int].0@ == cv);
                assert forall|k: int| 0 <= k < old_checks.len() implies self.checks@[k] == old_checks[k] by {}
                assert(self@ =~= before.push(cv));
                Ok(())
            },
        }
    }

    /// Every registered code, in registration order.
    pub fn codes(&self) -> (r: Vec<&str>)
        ensures
            crate::bundle::strs_view(r@) == self@,
    {
        let mut out: Vec<&str> = Vec::new();
        let mut i: usize = 0;
        while i < self.checks.len()
            invariant
                i <= self.checks@.len(),
                crate::bundle::strs_view(out@) == self@.take(i as int),
            decreases self.checks.len() - i,
        {
            let ghost prev = crate::bundle::strs_view(out@);
            let c = self.checks[i].0.as_str();
            assert(c@ == self@[i as int]);
            out.push(c);
            assert(crate::bundle::strs_view(out@) =~= prev.push(c@));
            assert(crate::bundle::strs_view(out@) =~= self@.take(i + 1));
            i += 1;
        }
        assert(self@.take(i as int) =~= self@);
        out
    }

    /// How many checks are registered.
    pub fn len(&self) -> (r: usize)
        ensures
            r == self@.len(),
    {
        self.checks.len()
    }

    /// Whether no checks are registered.
    pub fn is_empty(&self) -> (r: bool)
        ensures
            r == (self@.len() == 0),
    {
        self.checks.len() == 0
    }

    /// The code registered `i`-th.
    pub(crate) fn code_at(&self, i: usize) -> (r: &String)
        requires
            i < self@.len(),
        ensures
            r@ == self@[i as int],
    {
        &self.checks[i].0
    }

    /// The check registered `i`-th.
    pub closed spec fn check_at(&self, i: int) -> C {
        self.checks@[i].1
    }

    /// The default level of the check registered `i`-th, as it declares it.
    pub(crate) fn level_at(&self, i: usize) -> (r: Level)
        requires
            i < self@.len(),
        ensures
            call_ensures(C::default_level, (&self.check_at(i as int),), r),
    {
        self.checks[i].1.default_level()
    }

    /// Run the check registered `i`-th against one concept.
    fn run_at(&self, i: usize, id: &str, concept: &Concept) -> (r: Result<(), String>)
        requires
            i < self@.len(),
        ensures
            call_ensures(C::check, (&self.check_at(i as int), id, concept), r),
    {
        self.checks[i].1.check(id, concept)
    }
}

/// The finding a caller's check gives for one concept: none when it passed,
/// else one located at the concept's file under the check's own code.
pub fn caller_finding(id: &str, code: &str, outcome: Result<(), String>) -> (r: Option<Finding>)
    ensures
        match outcome {
            Ok(()) => r is None,
            Err(detail) => r is Some && finding_parts(r->0) == (
                id@ + ".md"@,
                RuleName::Custom(code@),
                detail@,
            ),
        },
{
    match outcome {
        Ok(()) => None,
        Err(detail) => Some(
            Finding::new(
                concat(&string_from(id), ".md"),
                RuleId::Custom(string_from(code)),
                detail,
            ),
        ),
    }
}

/// The findings of caller checks with codes `codes` over concepts `ids`, given
/// what each check said of each concept: concept by concept, then check by
/// check in registration order, one finding per report.
pub open spec fn caller_findings(
    ids: Seq<Seq<char>>,
    codes: Seq<Seq<char>>,
    said: Seq<Seq<Option<Seq<char>>>>,
) -> Seq<(Seq<char>, RuleName, Seq<char>)>
    decreases ids.len(),
{
    if ids.len() == 0 {
        seq![]
    } else {
        caller_findings(ids.drop_last(), codes, said.drop_last()) + reports(
            ids.last(),
            codes,
            said.last(),
        )
    }
}

/// One concept's reports, check by check.
pub open spec fn reports(id: Seq<char>, codes: Seq<Seq<char>>, said: Seq<Option<Seq<char>>>) -> Seq<(Seq<char>, RuleName, Seq<char>)>
    decreases codes.len(),
{
    if codes.len() == 0 {
        seq![]
    } else {
        reports(id, codes.drop_last(), said.drop_last()) + match said.last() {
            Some(d) => seq![(id + ".md"@, RuleName::Custom(codes.last()), d)],
            None => seq![],
        }
    }
}

/// What a check's result says: `None` for a pass, the detail for a report.
pub open spec fn said_of(outcome: Result<(), String>) -> Option<Seq<char>> {
    match outcome {
        Ok(()) => None,
        Err(d) => Some(d@),
    }
}

impl Bundle {
    /// Run a caller's checks over every concept, in Concept ID order, each
    /// concept's checks in registration order. Each report is a finding under
    /// the check's [`RuleId::Custom`] code, located at the concept's file; what
    /// each check says of each concept is the check's own business.
    pub fn check<C: Check>(&self, checks: &Checks<C>) -> (r: Vec<Finding>)
        requires
            self.wf(),
        ensures
            exists|said: Seq<Seq<Option<Seq<char>>>>|
                #![trigger caller_findings(ids_in_order(self@.concepts), checks@, said)]
                said.len() == ids_in_order(self@.concepts).len() && (forall|i: int|
                    0 <= i < said.len() ==> (#[trigger] said[i]).len() == checks@.len()) && (forall|i: int, j: int|
                    0 <= i < said.len() && 0 <= j < checks@.len() ==> check_says(
                        checks.check_at(j),
                        ids_in_order(self@.concepts)[i],
                        self@.concepts[ids_in_order(self@.concepts)[i]],
                        #[trigger] said[i][j],
                    )) && findings_view(r@) == caller_findings(
                    ids_in_order(self@.concepts),
                    checks@,
                    said,
                ),
    {
        let concepts = self.concepts();
        let ghost ids = ids_in_order(self@.concepts);
        let ghost codes = checks@;
        let ghost mut said: Seq<Seq<Option<Seq<char>>>> = seq![];
        let mut out: Vec<Finding> = Vec::new();
        let mut i: usize = 0;
        while i < concepts.len()
            invariant
                i <= concepts@.len(),
                concepts@.len() == ids.len(),
                forall|k: int| 0 <= k < concepts@.len() ==> (#[trigger] concepts@[k]).0@ == ids[k],
                forall|k: int|
                    0 <= k < concepts@.len() ==> (#[trigger] concepts@[k]).1.reading()
                        == self@.concepts[concepts@[k].0@],
                codes == checks@,
                said.len() == i,
                forall|k: int| 0 <= k < said.len() ==> (#[trigger] said[k]).len() == codes.len(),
                forall|k: int, jj: int|
                    0 <= k < said.len() && 0 <= jj < codes.len() ==> check_says(
                        checks.check_at(jj),
                        ids[k],
                        self@.concepts[ids[k]],
                        #[trigger] said[k][jj],
                    ),
                findings_view(out@) == caller_findings(ids.take(i as int), codes, said),
            decreases concepts.len() - i,
        {
            let (id, concept) = concepts[i];
            let ghost base = findings_view(out@);
            let ghost mut row: Seq<Option<Seq<char>>> = seq![];
            let mut j: usize = 0;
            while j < checks.len()
                invariant
                    j <= codes.len(),
                    codes == checks@,
                    row.len() == j,
                    id@ == ids[i as int],
                    concept.reading() == self@.concepts[ids[i as int]],
                    forall|jj: int|
                        0 <= jj < row.len() ==> check_says(
                            checks.check_at(jj),
                            ids[i as int],
                            self@.concepts[ids[i as int]],
                            #[trigger] row[jj],
                        ),
                    findings_view(out@) == base + reports(id@, codes.take(j as int), row),
                decreases codes.len() - j,
            {
                let outcome = checks.run_at(j, id, concept);
                let ghost s = said_of(outcome);
                let code = checks.code_at(j);
                let ghost prev = out@;
                match caller_finding(id, code.as_str(), outcome) {
                    Some(f) => {
                        out.push(f);
                        assert(findings_view(out@) =~= findings_view(prev).push(finding_parts(f)));
                    },
                    None => {},
                }
                proof {
                    assert(check_says(checks.check_at(j as int), ids[i as int], self@.concepts[ids[i as int]], s));
                    assert forall|jj: int| 0 <= jj < row.push(s).len() implies check_says(
                        checks.check_at(jj),
                        ids[i as int],
                        self@.concepts[ids[i as int]],
                        #[trigger] row.push(s)[jj],
                    ) by {
                        if jj < row.len() {
                            assert(row.push(s)[jj] == row[jj]);
                        }
                    }
                    assert(codes.take(j + 1).drop_last() =~= codes.take(j as int));
                    assert(codes.take(j + 1).last() == code@);
                    assert(row.push(s).drop_last() =~= row);
                    row = row.push(s);
                    assert(findings_view(out@) =~= base + reports(id@, codes.take(j + 1), row));
                }
                j += 1;
            }
            proof {
                assert(codes.take(j as int) =~= codes);
                assert(ids.take(i + 1).drop_last() =~= ids.take(i as int));
                assert(ids.take(i + 1).last() == id@);
                assert(said.push(row).drop_last() =~= said);
                assert forall|k: int, jj: int|
                    0 <= k < said.push(row).len() && 0 <= jj < codes.len() implies check_says(
                        checks.check_at(jj),
                        ids[k],
                        self@.concepts[ids[k]],
                        #[trigger] said.push(row)[k][jj],
                    ) by {
                    if k < said.len() {
                        assert(said.push(row)[k] == said[k]);
                    } else {
                        assert(said.push(row)[k] == row);
                        assert(check_says(checks.check_at(jj), ids[i as int], self@.concepts[ids[i as int]], row[jj]));
                    }
                }
                said = said.push(row);
            }
            i += 1;
        }
        assert(ids.take(i as int) =~= ids);
        out
    }
}



} // verus!
