//! What a run makes of a bundle's findings under a policy: how many fail it,
//! how many are only reported, how many the policy silenced, the one-line
//! summary, and the exit code. Defects fail a run; reports are printed so
//! nothing is silently dropped; a silenced finding is counted, so a run that
//! examined less than it looks like it did says so.

use vstd::prelude::*;

use crate::bundle::{failing, findings_view, reported, Bundle};
use crate::finding::RuleName;
use crate::policy::Policy;
use crate::text::{concat, concat_string, decimal_text, string_from, usize_text};

verus! {

/// The counts a run reports.
pub struct Tally {
    /// Findings the policy makes defects: they fail the run.
    pub defects: usize,
    /// Findings the policy prints without failing the run.
    pub reports: usize,
    /// Findings the policy silences.
    pub silenced: usize,
}

/// How many of `fs` satisfy `p`.
pub open spec fn count_of(
    fs: Seq<(Seq<char>, RuleName, Seq<char>)>,
    p: spec_fn((Seq<char>, RuleName, Seq<char>)) -> bool,
) -> nat {
    fs.filter(p).len()
}

/// Count a bundle's findings under `policy`.
pub fn tally(bundle: &Bundle, policy: &Policy) -> (r: Tally)
    ensures
        r.defects == count_of(
            bundle@.findings,
            |f: (Seq<char>, RuleName, Seq<char>)| failing(policy@, f),
        ),
        r.reports == count_of(
            bundle@.findings,
            |f: (Seq<char>, RuleName, Seq<char>)| reported(policy@, f) && !failing(policy@, f),
        ),
        r.silenced == count_of(
            bundle@.findings,
            |f: (Seq<char>, RuleName, Seq<char>)| !reported(policy@, f),
        ),
{
    let findings = bundle.findings();
    let ghost fs = bundle@.findings;
    let ghost pd = |f: (Seq<char>, RuleName, Seq<char>)| failing(policy@, f);
    let ghost pr = |f: (Seq<char>, RuleName, Seq<char>)| reported(policy@, f) && !failing(policy@, f);
    let ghost ps = |f: (Seq<char>, RuleName, Seq<char>)| !reported(policy@, f);
    let mut defects: usize = 0;
    let mut reports: usize = 0;
    let mut silenced: usize = 0;
    let mut i: usize = 0;
    while i < findings.len()
        invariant
            i <= findings@.len(),
            fs == findings_view(findings@),
            pd == (|f: (Seq<char>, RuleName, Seq<char>)| failing(policy@, f)),
            pr == (|f: (Seq<char>, RuleName, Seq<char>)| reported(policy@, f) && !failing(
                policy@,
                f,
            )),
            ps == (|f: (Seq<char>, RuleName, Seq<char>)| !reported(policy@, f)),
            defects == fs.take(i as int).filter(pd).len(),
            reports == fs.take(i as int).filter(pr).len(),
            silenced == fs.take(i as int).filter(ps).len(),
            fs.take(i as int).filter(pd).len() <= i,
            fs.take(i as int).filter(pr).len() <= i,
            fs.take(i as int).filter(ps).len() <= i,
        decreases findings.len() - i,
    {
        let level = policy.level(&findings[i].rule);
        proof {
            reveal(Seq::filter);
            assert(fs.take(i + 1).drop_last() =~= fs.take(i as int));
            assert(fs.take(i + 1).last() == fs[i as int]);
            assert(fs[i as int].1 == findings@[i as int].rule@);
        }
        match level {
            crate::policy::Level::Defect => {
                defects += 1;
            },
            crate::policy::Level::Report => {
                reports += 1;
            },
            crate::policy::Level::Allow => {
                silenced += 1;
            },
        }
        i += 1;
    }
    assert(fs.take(i as int) =~= fs);
    Tally { defects, reports, silenced }
}

/// The exit code of a run: 1 when anything fails it, else 0.
pub fn exit_code(t: &Tally) -> (r: u8)
    ensures
        r == (if t.defects > 0 {
            1u8
        } else {
            0u8
        }),
{
    if t.defects > 0 {
        1
    } else {
        0
    }
}

/// The run's one-line summary: the tool and its version, the counts, how many
/// concepts were read, and where from. The silenced count appears only when
/// there is one.
pub open spec fn summary_text(
    version: Seq<char>,
    defects: nat,
    reports: nat,
    silenced: nat,
    concepts: nat,
    path: Seq<char>,
) -> Seq<char> {
    "okf-graph "@ + version + ": "@ + decimal_text(defects) + " defect(s), "@ + decimal_text(
        reports,
    ) + " report(s)"@ + (if silenced > 0 {
        ", "@ + decimal_text(silenced) + " silenced"@
    } else {
        seq![]
    }) + " across "@ + decimal_text(concepts) + " concept(s) in "@ + path
}

/// Build [`summary_text`].
pub fn summary_line(version: &str, t: &Tally, concepts: usize, path: &str) -> (r: String)
    ensures
        r@ == summary_text(
            version@,
            t.defects as nat,
            t.reports as nat,
            t.silenced as nat,
            concepts as nat,
            path@,
        ),
{
    let mut s = string_from("okf-graph ");
    s = concat(&s, version);
    s = concat(&s, ": ");
    s = concat_string(&s, &usize_text(t.defects));
    s = concat(&s, " defect(s), ");
    s = concat_string(&s, &usize_text(t.reports));
    s = concat(&s, " report(s)");
    let ghost before_silenced = s@;
    if t.silenced > 0 {
        s = concat(&s, ", ");
        s = concat_string(&s, &usize_text(t.silenced));
        s = concat(&s, " silenced");
        assert(s@ =~= before_silenced + (", "@ + decimal_text(t.silenced as nat) + " silenced"@));
    } else {
        assert(s@ =~= before_silenced + Seq::<char>::empty());
    }
    s = concat(&s, " across ");
    s = concat_string(&s, &usize_text(concepts));
    s = concat(&s, " concept(s) in ");
    s = concat(&s, path);
    s
}

/// A run's counts partition its findings: each is a defect, a report, or
/// silenced, and no two at once.
pub proof fn lemma_tally_partitions(
    fs: Seq<(Seq<char>, RuleName, Seq<char>)>,
    set: Map<RuleName, crate::policy::Level>,
)
    ensures
        count_of(fs, |f: (Seq<char>, RuleName, Seq<char>)| failing(set, f)) + count_of(
            fs,
            |f: (Seq<char>, RuleName, Seq<char>)| reported(set, f) && !failing(set, f),
        ) + count_of(fs, |f: (Seq<char>, RuleName, Seq<char>)| !reported(set, f)) == fs.len(),
    decreases fs.len(),
{
    reveal(Seq::filter);
    if fs.len() > 0 {
        lemma_tally_partitions(fs.drop_last(), set);
        let f = fs.last();
        assert(failing(set, f) ==> reported(set, f));
    }
}

} // verus!
