use vstd::prelude::*;

use crate::rule_table::{entry_of, Rule, RuleTable};

verus! {

/// What the filesystem reported about one rule's paths before watching.
#[derive(Clone, Copy, Debug, PartialEq, Eq, Structural)]
pub struct PathProbe {
    /// The watched path exists and is a regular file.
    pub watched_is_file: bool,
    /// Something exists at the backup directory path.
    pub backup_dir_exists: bool,
    /// What exists at the backup directory path is a directory.
    pub backup_dir_is_dir: bool,
}

/// What registration does with one rule.
#[derive(Clone, Copy, Debug, PartialEq, Eq, Structural)]
pub enum RuleDecision {
    /// The watched file is missing or not a regular file: log and skip.
    SkipNotAFile,
    /// The backup path exists and is not a directory: log and skip.
    SkipBackupNotADirectory,
    /// Create the backup directory and its ancestors where absent (a failure
    /// there is logged only), then watch the file non-recursively.
    Watch,
}

pub open spec fn decision_of(p: PathProbe) -> RuleDecision {
    if !p.watched_is_file {
        RuleDecision::SkipNotAFile
    } else if p.backup_dir_exists && !p.backup_dir_is_dir {
        RuleDecision::SkipBackupNotADirectory
    } else {
        RuleDecision::Watch
    }
}

/// One rule together with what registration does with it.
#[derive(Debug)]
pub struct RegistrationStep {
    pub watched: String,
    pub backup_dir: String,
    pub decision: RuleDecision,
}

/// Validates one rule from what the filesystem reported about its paths.
pub fn decide_rule(p: &PathProbe) -> (r: RuleDecision)
    ensures
        r == decision_of(*p),
        !p.watched_is_file ==> r == RuleDecision::SkipNotAFile,
        p.watched_is_file && (!p.backup_dir_exists || p.backup_dir_is_dir) ==> r
            == RuleDecision::Watch,
{
    if !p.watched_is_file {
        RuleDecision::SkipNotAFile
    } else if p.backup_dir_exists && !p.backup_dir_is_dir {
        RuleDecision::SkipBackupNotADirectory
    } else {
        RuleDecision::Watch
    }
}

/// Decides, rule by rule and independently, which rules are watched; `probes`
/// holds what the filesystem reported for each rule of `table.rules()`, in
/// that order.
pub fn plan_registration(table: &RuleTable, probes: &Vec<PathProbe>) -> (r: Vec<
    RegistrationStep,
>)
    requires
        table.wf(),
        probes@.len() == table.entries().len(),
    ensures
        r@.len() == probes@.len(),
        forall|k: Seq<char>|
            table@.contains_key(k) ==> exists|i: int|
                0 <= i < r@.len() && #[trigger] r@[i].watched@ == k,
        forall|i: int|
            0 <= i < r@.len() ==> {
                &&& r@[i].watched@ == table.entries()[i].0
                &&& r@[i].backup_dir@ == table.entries()[i].1
                &&& table@.contains_key(#[trigger] r@[i].watched@)
                &&& table@[r@[i].watched@] == r@[i].backup_dir@
                &&& r@[i].decision == decision_of(probes@[i])
                &&& (probes@[i].watched_is_file && (!probes@[i].backup_dir_exists
                    || probes@[i].backup_dir_is_dir) ==> r@[i].decision == RuleDecision::Watch)
                &&& (!probes@[i].watched_is_file ==> r@[i].decision == RuleDecision::SkipNotAFile)
            },
{
    let rules: &Vec<Rule> = table.rules();
    proof {
        table.lemma_view_entries();
    }
    let mut steps: Vec<RegistrationStep> = Vec::new();
    let mut i: usize = 0;
    while i < rules.len()
        invariant
            i <= rules@.len(),
            rules@.len() == probes@.len(),
            table.entries() == rules@.map_values(|q: Rule| entry_of(q)),
            steps@.len() == i,
            forall|j: int|
                #![trigger steps@[j]]
                0 <= j < i ==> {
                    &&& steps@[j].watched@ == rules@[j].watched@
                    &&& steps@[j].backup_dir@ == rules@[j].backup_dir@
                    &&& steps@[j].decision == decision_of(probes@[j])
                },
        decreases rules@.len() - i,
    {
        let decision = decide_rule(&probes[i]);
        let ghost before = steps@;
        steps.push(
            RegistrationStep {
                watched: rules[i].watched.clone(),
                backup_dir: rules[i].backup_dir.clone(),
                decision,
            },
        );
        proof {
            assert forall|j: int| 0 <= j < i implies steps@[j] == before[j] by {}
        }
        i = i + 1;
    }
    proof {
        assert forall|k: Seq<char>| table@.contains_key(k) implies exists|i: int|
            0 <= i < steps@.len() && #[trigger] steps@[i].watched@ == k by {
            let a = choose|a: int| 0 <= a < table.entries().len() && table.entries()[a].0 == k;
            assert(table.entries()[a] == entry_of(rules@[a]));
            assert(steps@[a].watched@ == k);
        }
        assert forall|j: int| 0 <= j < steps@.len() implies table@.contains_key(
            #[trigger] steps@[j].watched@,
        ) && table@[steps@[j].watched@] == steps@[j].backup_dir@ && steps@[j].watched@
            == table.entries()[j].0 && steps@[j].backup_dir@ == table.entries()[j].1 by {
            assert(steps@[j].watched@ == rules@[j].watched@);
            assert(table.entries()[j] == entry_of(rules@[j]));
            assert(table@[table.entries()[j].0] == table.entries()[j].1);
        }
    }
    steps
}

} // verus!
