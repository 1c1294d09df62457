//! Consumer-settable rule levels, kept separate from [`Severity`] on purpose.
//!
//! `Severity` is the format's own verdict and stays fixed. A [`Level`] answers a
//! different question — what *this* run does about a rule — and that is the
//! consumer's to set. Defaults come from `Severity`, so a run that sets nothing
//! still returns the format's verdict.

use vstd::prelude::*;

use crate::finding::{rule_severity, Rule, RuleId, RuleName, Severity};

verus! {

/// What a run does about a rule. Ordered `Allow < Report < Defect`, by how
/// much each one does.
#[derive(Debug, Clone, Copy, PartialEq, Eq, PartialOrd, Ord, Structural)]
pub enum Level {
    /// Not reported at all.
    Allow,
    /// Printed; does not fail the run.
    Report,
    /// Printed, and fails the run.
    Defect,
}

/// A level's place in the `Allow < Report < Defect` order.
pub open spec fn level_rank(level: Level) -> int {
    match level {
        Level::Allow => 0,
        Level::Report => 1,
        Level::Defect => 2,
    }
}

/// The level a rule runs at unless a consumer says otherwise: its severity.
pub open spec fn rule_default_level(rule: Rule) -> Level {
    match rule_severity(rule) {
        Severity::Defect => Level::Defect,
        Severity::Report => Level::Report,
    }
}

/// Whether a level does anything at all — reports or fails.
pub fn is_reported(level: Level) -> (r: bool)
    ensures
        r == (level_rank(level) > level_rank(Level::Allow)),
{
    match level {
        Level::Allow => false,
        _ => true,
    }
}

impl Rule {
    /// The level this rule runs at unless a consumer says otherwise — its
    /// [`Severity`], so an unconfigured run's verdict is the format's.
    pub fn default_level(self) -> (r: Level)
        ensures
            r == rule_default_level(self),
    {
        match self.severity() {
            Severity::Defect => Level::Defect,
            Severity::Report => Level::Report,
        }
    }
}

/// The level most recently recorded for `name` in `entries`, if any.
pub open spec fn latest(entries: Seq<(RuleName, Level)>, name: RuleName) -> Option<Level>
    decreases entries.len(),
{
    if entries.len() == 0 {
        None
    } else if entries.last().0 == name {
        Some(entries.last().1)
    } else {
        latest(entries.drop_last(), name)
    }
}

/// Recording one more entry makes it the latest for its rule and leaves the
/// others as they were.
proof fn lemma_latest_push(s: Seq<(RuleName, Level)>, e: (RuleName, Level), name: RuleName)
    ensures
        latest(s.push(e), name) == if e.0 == name {
            Some(e.1)
        } else {
            latest(s, name)
        },
{
    assert(s.push(e).drop_last() =~= s);
}

/// The entries of a policy as values.
pub open spec fn entry_names(entries: Seq<(RuleId, Level)>) -> Seq<(RuleName, Level)> {
    entries.map_values(|e: (RuleId, Level)| (e.0@, e.1))
}

/// A consumer's rule levels: the defaults, plus what it set.
#[derive(Debug, Clone, Default)]
pub struct Policy {
    overrides: Vec<(RuleId, Level)>,
}

impl View for Policy {
    type V = Map<RuleName, Level>;

    /// The levels a consumer set, by rule.
    closed spec fn view(&self) -> Map<RuleName, Level> {
        Map::new(
            |name: RuleName| latest(entry_names(self.overrides@), name) is Some,
            |name: RuleName| latest(entry_names(self.overrides@), name)->0,
        )
    }
}

/// The level `name` runs at under the set levels `set`: what was set, else an
/// OKF rule's default, else `Defect` for a caller's rule nothing has set.
pub open spec fn policy_level(set: Map<RuleName, Level>, name: RuleName) -> Level {
    if set.contains_key(name) {
        set[name]
    } else {
        match name {
            RuleName::Spec(rule) => rule_default_level(rule),
            RuleName::Custom(_) => Level::Defect,
        }
    }
}

impl Policy {
    /// Every OKF rule at its [`Rule::default_level`], and nothing said about a
    /// caller's rules.
    pub fn new() -> (r: Policy)
        ensures
            r@ == Map::<RuleName, Level>::empty(),
    {
        let r = Policy { overrides: Vec::new() };
        assert(r@ =~= Map::<RuleName, Level>::empty());
        r
    }

    /// Run `rule` at `level`, replacing whatever it was set to before. Last
    /// wins, which is what repeating a flag on a command line means. `rule` is
    /// a [`RuleId`] or anything that converts to one, such as a [`Rule`].
    pub fn set<R: Into<RuleId>>(&mut self, rule: R, level: Level) -> (r: &mut Policy)
        ensures
            exists|id: RuleId|
                #![trigger old(self)@.insert(id@, level)]
                r@ == old(self)@.insert(id@, level) && (<R as vstd::std_specs::convert::IntoSpec<
                    RuleId,
                >>::obeys_into_spec() ==> id == <R as vstd::std_specs::convert::IntoSpec<
                    RuleId,
                >>::into_spec(rule)),
            *final(self) == *final(r),
    {
        let id: RuleId = rule.into();
        let r = self.set_id(id, level);
        r
    }

    /// [`Policy::set`] for a [`RuleId`] itself.
    pub fn set_id(&mut self, rule: RuleId, level: Level) -> (r: &mut Policy)
        ensures
            r@ == old(self)@.insert(rule@, level),
            *final(self) == *final(r),
    {
        let ghost before = entry_names(self.overrides@);
        let mut kept: Vec<(RuleId, Level)> = Vec::new();
        let mut i: usize = 0;
        while i < self.overrides.len()
            invariant
                i <= self.overrides@.len(),
                before == entry_names(self.overrides@),
                latest(entry_names(kept@), rule@) is None,
                forall|name: RuleName|
                    name != rule@ ==> latest(entry_names(kept@), name) == latest(
                        before.take(i as int),
                        name,
                    ),
            decreases self.overrides.len() - i,
        {
            let entry = &self.overrides[i];
            let ghost prev = kept@;
            assert(before.take(i + 1) =~= before.take(i as int).push(before[i as int]));
            assert(before[i as int] == (entry.0@, entry.1));
            if !entry.0.same(&rule) {
                kept.push((entry.0.duplicate(), entry.1));
                assert(entry_names(kept@) =~= entry_names(prev).push((entry.0@, entry.1)));
                proof {
                    lemma_latest_push(entry_names(prev), (entry.0@, entry.1), rule@);
                    assert forall|name: RuleName| name != rule@ implies latest(
                        entry_names(kept@),
                        name,
                    ) == latest(before.take(i + 1), name) by {
                        lemma_latest_push(entry_names(prev), (entry.0@, entry.1), name);
                        lemma_latest_push(before.take(i as int), before[i as int], name);
                    }
                }
            } else {
                assert forall|name: RuleName| name != rule@ implies latest(
                    entry_names(kept@),
                    name,
                ) == latest(before.take(i + 1), name) by {
                    lemma_latest_push(before.take(i as int), before[i as int], name);
                }
            }
            i += 1;
        }
        assert(before.take(i as int) =~= before);
        let ghost prev = kept@;
        let ghost name = rule@;
        kept.push((rule, level));
        assert(entry_names(kept@) =~= entry_names(prev).push((name, level)));
        self.overrides = kept;
        assert forall|n: RuleName| #[trigger] latest(entry_names(self.overrides@), n) == if n == name {
            Some(level)
        } else {
            latest(before, n)
        } by {
            lemma_latest_push(entry_names(prev), (name, level), n);
        }
        assert(self@ =~= old(self)@.insert(name, level));
        self
    }

    /// The level `rule` runs at here — see [`policy_level`].
    pub fn level(&self, rule: &RuleId) -> (r: Level)
        ensures
            r == policy_level(self@, rule@),
    {
        let ghost names = entry_names(self.overrides@);
        let mut i = self.overrides.len();
        assert(names.take(i as int) =~= names);
        while i > 0
            invariant
                i <= self.overrides@.len(),
                names == entry_names(self.overrides@),
                latest(names, rule@) == latest(names.take(i as int), rule@),
            decreases i,
        {
            assert(names.take(i as int).drop_last() =~= names.take(i - 1));
            if self.overrides[i - 1].0.same(rule) {
                return self.overrides[i - 1].1;
            }
            i -= 1;
        }
        assert(names.take(0) =~= Seq::<(RuleName, Level)>::empty());
        match rule {
            RuleId::Spec(r) => r.default_level(),
            RuleId::Custom(_) => Level::Defect,
        }
    }

    /// Every caller-rule code this policy sets.
    pub fn custom_codes(&self) -> (r: Vec<String>)
        ensures
            forall|code: Seq<char>|
                self@.contains_key(RuleName::Custom(code)) <==> codes_hold(r@, code),
    {
        let ghost names = entry_names(self.overrides@);
        let mut out: Vec<String> = Vec::new();
        let mut i: usize = 0;
        while i < self.overrides.len()
            invariant
                i <= self.overrides@.len(),
                names == entry_names(self.overrides@),
                forall|code: Seq<char>|
                    #[trigger] latest(names.take(i as int), RuleName::Custom(code)) is Some
                        <==> codes_hold(out@, code),
            decreases self.overrides.len() - i,
        {
            let ghost prev = out@;
            assert(names.take(i + 1) =~= names.take(i as int).push(names[i as int]));
            match &self.overrides[i].0 {
                RuleId::Custom(code) => {
                    out.push(code.clone());
                    assert(names[i as int].0 == RuleName::Custom(code@));
                    assert forall|c: Seq<char>|
                        #[trigger] latest(names.take(i + 1), RuleName::Custom(c)) is Some
                            <==> codes_hold(out@, c) by {
                        lemma_latest_push(names.take(i as int), names[i as int], RuleName::Custom(c));
                        lemma_codes_hold_push(prev, code@, c);
                    }
                },
                RuleId::Spec(rule) => {
                    assert(names[i as int].0 == RuleName::Spec(*rule));
                    assert forall|c: Seq<char>|
                        #[trigger] latest(names.take(i + 1), RuleName::Custom(c)) is Some
                            <==> codes_hold(out@, c) by {
                        lemma_latest_push(names.take(i as int), names[i as int], RuleName::Custom(c));
                    }
                },
            }
            i += 1;
        }
        assert(names.take(i as int) =~= names);
        out
    }
}

/// Whether some string in `codes` spells `code`.
pub open spec fn codes_hold(codes: Seq<String>, code: Seq<char>) -> bool {
    exists|k: int| 0 <= k < codes.len() && (#[trigger] codes[k])@ == code
}

proof fn lemma_codes_hold_push(codes: Seq<String>, added: Seq<char>, code: Seq<char>)
    ensures
        forall|s: String|
            s@ == added ==> (codes_hold(#[trigger] codes.push(s), code) <==> (codes_hold(codes, code)
                || added == code)),
{
    assert forall|s: String| s@ == added implies (codes_hold(#[trigger] codes.push(s), code) <==> (
    codes_hold(codes, code) || added == code)) by {
        let pushed = codes.push(s);
        if codes_hold(codes, code) {
            let k = choose|k: int| 0 <= k < codes.len() && (#[trigger] codes[k])@ == code;
            assert(pushed[k] == codes[k]);
        }
        if added == code {
            assert(pushed[codes.len() as int]@ == code);
        }
        if codes_hold(pushed, code) {
            let k = choose|k: int| 0 <= k < pushed.len() && (#[trigger] pushed[k])@ == code;
            if k < codes.len() {
                assert(codes[k] == pushed[k]);
            }
        }
    }
}

/// Setting a rule moves that rule and no other: afterwards it runs at the
/// level set, and every other rule runs where it did before.
pub proof fn lemma_set_moves_only_its_rule(
    before: Map<RuleName, Level>,
    name: RuleName,
    level: Level,
    other: RuleName,
)
    ensures
        policy_level(before.insert(name, level), name) == level,
        other != name ==> policy_level(before.insert(name, level), other) == policy_level(
            before,
            other,
        ),
{
}

/// The default level is the severity: a defect by default fails, a report by
/// default prints.
pub proof fn lemma_default_level_is_severity(rule: Rule)
    ensures
        (rule_default_level(rule) == Level::Defect) <==> (rule_severity(rule) == Severity::Defect),
        (rule_default_level(rule) == Level::Report) <==> (rule_severity(rule) == Severity::Report),
{
}


/// Insert `x` into a strictly sorted run of texts that does not hold it,
/// keeping it strictly sorted.
fn insert_str_sorted<'a>(items: &mut Vec<&'a str>, x: &'a str)
    requires
        crate::provenance::sorted_strictly(crate::bundle::strs_view(old(items)@)),
        !crate::bundle::strs_view(old(items)@).contains(x@),
    ensures
        crate::provenance::sorted_strictly(crate::bundle::strs_view(final(items)@)),
        forall|y: Seq<char>|
            crate::bundle::strs_view(final(items)@).contains(y) <==> (crate::bundle::strs_view(
                old(items)@,
            ).contains(y) || y == x@),
{
    let ghost before = crate::bundle::strs_view(items@);
    let xc = crate::text::chars_of(x);
    let mut i: usize = 0;
    while i < items.len() && !crate::text::chars_lt(&xc, &crate::text::chars_of(items[i]))
        invariant
            i <= items@.len(),
            before == crate::bundle::strs_view(items@),
            xc@ == x@,
            forall|j: int| 0 <= j < i ==> !crate::text::lex_lt(x@, #[trigger] before[j]),
        decreases items.len() - i,
    {
        i += 1;
    }
    assert(i < items@.len() ==> crate::text::lex_lt(x@, before[i as int]));
    items.insert(i, x);
    let ghost after = crate::bundle::strs_view(items@);
    let ghost xv = x@;
    assert(after =~= before.insert(i as int, xv));
    assert forall|a: int, b: int| 0 <= a < b < after.len() implies crate::text::lex_lt(
        #[trigger] after[a],
        #[trigger] after[b],
    ) by {
        if a < i && b < i {
            assert(crate::text::lex_lt(before[a], before[b]));
        } else if a < i && b == i {
            assert(before[a] != xv);
            crate::text::lemma_lex_total(before[a], xv);
        } else if a < i {
            assert(before[a] != xv);
            crate::text::lemma_lex_total(before[a], xv);
            assert(crate::text::lex_lt(before[a], before[b - 1]));
        } else if a == i {
            if b - 1 > i {
                assert(crate::text::lex_lt(before[i as int], before[b - 1]));
                crate::text::lemma_lex_transitive(xv, before[i as int], before[b - 1]);
            }
        } else {
            assert(crate::text::lex_lt(before[a - 1], before[b - 1]));
        }
    }
    assert forall|y: Seq<char>| after.contains(y) <==> (before.contains(y) || y == xv) by {
        if after.contains(y) {
            let j = choose|j: int| 0 <= j < after.len() && after[j] == y;
            if j < i {
                assert(before[j] == y);
            } else if j > i {
                assert(before[j - 1] == y);
            }
        }
        if before.contains(y) {
            let j = choose|j: int| 0 <= j < before.len() && before[j] == y;
            if j < i {
                assert(after[j] == y);
            } else {
                assert(after[j + 1] == y);
            }
        }
        if y == xv {
            assert(after[i as int] == y);
        }
    }
}

/// The levels a run of codes is seeded with, in order; a later code wins.
pub open spec fn seeded(codes: Seq<Seq<char>>, levels: Seq<Level>) -> Map<RuleName, Level>
    decreases codes.len(),
{
    if codes.len() == 0 {
        Map::empty()
    } else {
        seeded(codes.drop_last(), levels.drop_last()).insert(
            RuleName::Custom(codes.last()),
            levels.last(),
        )
    }
}

impl Policy {
    /// Every OKF rule at its default, and each of `checks` at the default its
    /// own [`Check::default_level`](crate::check::Check::default_level)
    /// declares: what each check says its default is, that is its level here.
    ///
    /// The convenience worth having: without it, a caller's rule needs an
    /// explicit entry to be anything other than the fallback, which is friction
    /// on the common case of "the defaults I already wrote on the checks".
    pub fn for_checks<C: crate::check::Check>(checks: &crate::check::Checks<C>) -> (r: Policy)
        ensures
            exists|levels: Seq<Level>|
                #![trigger seeded(checks@, levels)]
                levels.len() == checks@.len() && r@ == seeded(checks@, levels) && (forall|i: int|
                    0 <= i < levels.len() ==> call_ensures(
                        C::default_level,
                        (&checks.check_at(i),),
                        #[trigger] levels[i],
                    )),
    {
        let mut policy = Policy::new();
        let ghost codes = checks@;
        let ghost mut levels: Seq<Level> = seq![];
        let mut i: usize = 0;
        while i < checks.len()
            invariant
                i <= codes.len(),
                codes == checks@,
                levels.len() == i,
                policy@ == seeded(codes.take(i as int), levels),
                forall|k: int|
                    0 <= k < levels.len() ==> call_ensures(
                        C::default_level,
                        (&checks.check_at(k),),
                        #[trigger] levels[k],
                    ),
            decreases codes.len() - i,
        {
            let code = checks.code_at(i);
            let level = checks.level_at(i);
            policy.set_id(RuleId::Custom(code.clone()), level);
            proof {
                assert(codes.take(i + 1).drop_last() =~= codes.take(i as int));
                assert(codes.take(i + 1).last() == code@);
                assert(levels.push(level).drop_last() =~= levels);
                levels = levels.push(level);
            }
            i += 1;
        }
        assert(codes.take(i as int) =~= codes);
        policy
    }

    /// The caller-rule codes this policy sets that `checks` does not register,
    /// sorted.
    ///
    /// Deliberately a question rather than an error. A `Policy` cannot validate
    /// a caller's code when it is set — the caller's list does not exist until
    /// the checks do — and rejecting one later would break a legitimate shape: a
    /// single policy shared across several check sets will name rules that are
    /// not in every run. Only the caller knows whether an unmatched code is a
    /// typo or an intentional superset, so only the caller decides.
    pub fn unmatched<C: crate::check::Check>(&self, checks: &crate::check::Checks<C>) -> (r: Vec<&str>)
        ensures
            crate::provenance::sorted_strictly(crate::bundle::strs_view(r@)),
            forall|x: Seq<char>|
                crate::bundle::strs_view(r@).contains(x) <==> (self@.contains_key(
                    RuleName::Custom(x),
                ) && !crate::check::holds_code(checks@, x)),
    {
        let ghost names = entry_names(self.overrides@);
        let mut out: Vec<&str> = Vec::new();
        let mut i: usize = 0;
        while i < self.overrides.len()
            invariant
                i <= self.overrides@.len(),
                names == entry_names(self.overrides@),
                crate::provenance::sorted_strictly(crate::bundle::strs_view(out@)),
                forall|x: Seq<char>|
                    crate::bundle::strs_view(out@).contains(x) <==> (latest(
                        names.take(i as int),
                        RuleName::Custom(x),
                    ) is Some && !crate::check::holds_code(checks@, x)),
            decreases self.overrides.len() - i,
        {
            let ghost prev = crate::bundle::strs_view(out@);
            assert(names.take(i + 1) =~= names.take(i as int).push(names[i as int]));
            assert(names[i as int].0 == self.overrides@[i as int].0@);
            match &self.overrides[i].0 {
                RuleId::Custom(code) => {
                    let c = code.as_str();
                    if !checks.contains(c) {
                        let present = {
                            let mut k: usize = 0;
                            let mut hit = false;
                            while k < out.len()
                                invariant
                                    k <= out@.len(),
                                    hit == crate::bundle::strs_view(out@).take(k as int).contains(c@),
                                decreases out.len() - k,
                            {
                                assert(crate::bundle::strs_view(out@).take(k + 1) =~= crate::bundle::strs_view(out@).take(k as int).push(
                                    crate::bundle::strs_view(out@)[k as int],
                                ));
                                let same = crate::text::str_is(out[k], c);
                                proof {
                                    let sv = crate::bundle::strs_view(out@);
                                    let t = sv.take(k as int);
                                    let e = sv[k as int];
                                    assert(e == out@[k as int]@);
                                    assert(t.push(e).contains(c@) <==> (t.contains(c@) || e == c@)) by {
                                        if t.push(e).contains(c@) {
                                            let j = choose|j: int| 0 <= j < t.push(e).len() && t.push(e)[j] == c@;
                                            if j < t.len() {
                                                assert(t[j] == c@);
                                            }
                                        }
                                        if t.contains(c@) {
                                            let j = choose|j: int| 0 <= j < t.len() && t[j] == c@;
                                            assert(t.push(e)[j] == c@);
                                        }
                                        if e == c@ {
                                            assert(t.push(e)[t.len() as int] == e);
                                        }
                                    }
                                }
                                if same {
                                    hit = true;
                                }
                                k += 1;
                            }
                            assert(crate::bundle::strs_view(out@).take(k as int) =~= crate::bundle::strs_view(out@));
                            hit
                        };
                        if !present {
                            insert_str_sorted(&mut out, c);
                        }
                    }
                    assert forall|x: Seq<char>|
                        crate::bundle::strs_view(out@).contains(x) <==> (latest(
                            names.take(i + 1),
                            RuleName::Custom(x),
                        ) is Some && !crate::check::holds_code(checks@, x)) by {
                        lemma_latest_push(names.take(i as int), names[i as int], RuleName::Custom(x));
                    }
                },
                RuleId::Spec(rule) => {
                    assert forall|x: Seq<char>|
                        crate::bundle::strs_view(out@).contains(x) <==> (latest(
                            names.take(i + 1),
                            RuleName::Custom(x),
                        ) is Some && !crate::check::holds_code(checks@, x)) by {
                        lemma_latest_push(names.take(i as int), names[i as int], RuleName::Custom(x));
                    }
                },
            }
            i += 1;
        }
        assert(names.take(i as int) =~= names);
        out
    }
}

} // verus!
