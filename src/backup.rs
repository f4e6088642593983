use vstd::prelude::*;
use vstd::string::StringExecFns;
use vstd::string::StrSliceExecFns;

use crate::instant::{
    compact_text, format_compact, instant_before, lemma_before_in_context,
    lemma_compact_text_injective_any_year, lemma_compact_text_len, lemma_compact_text_ordered,
    text_before, utc_now, UtcInstant,
};
use crate::rule_table::RuleTable;

verus! {

/// Why one write event did not produce a backup.
#[derive(Debug, PartialEq, Eq)]
pub enum BackupError {
    /// The changed path could not be canonicalized; holds the cause.
    PathResolution(String),
    /// No rule watches this canonical path; holds the path.
    NoRuleForPath(String),
    /// The canonical path has no final file name; holds the path.
    InvalidFileName(String),
    /// Copying into the backup directory failed; holds the cause.
    CopyFailed(String),
}

/// What one backup copies, and where to.
#[derive(Debug)]
pub struct BackupPlan {
    /// Canonical path of the changed file.
    pub source: String,
    /// The directory that the file's rule names.
    pub backup_dir: String,
    /// Name of the new file inside `backup_dir`.
    pub file_name: String,
}

/// Index of the last `/` in `p`, or -1 when there is none.
pub open spec fn last_slash(p: Seq<char>) -> int
    decreases p.len(),
{
    if p.len() == 0 {
        -1
    } else if p.last() == '/' {
        p.len() - 1
    } else {
        last_slash(p.drop_last())
    }
}

/// The final component of a canonical path: what follows its last `/`.
/// There is none when that is empty (the root) or `..`.
pub open spec fn base_name_of(p: Seq<char>) -> Option<Seq<char>> {
    let name = p.subrange(last_slash(p) + 1, p.len() as int);
    if name.len() == 0 || name == seq!['.', '.'] {
        None
    } else {
        Some(name)
    }
}

/// `<base>-<YYYYMMDD-HHMMSS-ffffff>`.
pub open spec fn backup_name_text(base: Seq<char>, at: UtcInstant) -> Seq<char> {
    base + seq!['-'] + compact_text(at)
}

/// What handling a write of canonical path `c` at instant `at` yields, given
/// the rule table `table`.
pub open spec fn plan_matches(
    c: Seq<char>,
    table: Map<Seq<char>, Seq<char>>,
    at: UtcInstant,
    r: Result<BackupPlan, BackupError>,
) -> bool {
    match r {
        Ok(plan) => {
            &&& table.contains_key(c)
            &&& base_name_of(c) is Some
            &&& plan.source@ == c
            &&& plan.backup_dir@ == table[c]
            &&& plan.file_name@ == backup_name_text(base_name_of(c).unwrap(), at)
        },
        Err(BackupError::NoRuleForPath(p)) => !table.contains_key(c) && p@ == c,
        Err(BackupError::InvalidFileName(p)) => {
            table.contains_key(c) && base_name_of(c) is None && p@ == c
        },
        Err(_) => false,
    }
}

proof fn lemma_last_slash(p: Seq<char>)
    ensures
        -1 <= last_slash(p) < p.len(),
        last_slash(p) >= 0 ==> p[last_slash(p)] == '/',
        forall|i: int| last_slash(p) < i < p.len() ==> p[i] != '/',
    decreases p.len(),
{
    if p.len() > 0 && p.last() != '/' {
        lemma_last_slash(p.drop_last());
        assert forall|i: int| last_slash(p) < i < p.len() implies p[i] != '/' by {
            if i < p.len() - 1 {
                assert(p.drop_last()[i] == p[i]);
            }
        }
    }
}

/// A backup name determines both the base name and the instant it was made
/// from, as long as the instants have four-digit years.
pub proof fn lemma_backup_name_injective(b1: Seq<char>, t1: UtcInstant, b2: Seq<char>, t2: UtcInstant)
    requires
        t1.wf(),
        t2.wf(),
        0 <= t1.year <= 9999,
        0 <= t2.year <= 9999,
        backup_name_text(b1, t1) == backup_name_text(b2, t2),
    ensures
        b1 == b2,
        t1 == t2,
{
    lemma_compact_text_len(t1);
    lemma_compact_text_len(t2);
    let n1 = backup_name_text(b1, t1);
    let n2 = backup_name_text(b2, t2);
    assert(n1.len() == b1.len() + 1 + compact_text(t1).len());
    assert(n2.len() == b2.len() + 1 + compact_text(t2).len());
    assert(b1.len() == b2.len());
    assert(n1.subrange(0, b1.len() as int) =~= b1);
    assert(n2.subrange(0, b2.len() as int) =~= b2);
    assert(n1.subrange(b1.len() as int + 1, n1.len() as int) =~= compact_text(t1));
    assert(n2.subrange(b2.len() as int + 1, n2.len() as int) =~= compact_text(t2));
    lemma_compact_text_injective_any_year(t1, t2);
}

/// Backups of one file made at distinct instants get distinct names: for
/// `n` write events captured at pairwise distinct instants, the `n` names
/// are pairwise distinct.
pub proof fn lemma_distinct_instants_distinct_names(base: Seq<char>, stamps: Seq<UtcInstant>)
    requires
        forall|i: int| 0 <= i < stamps.len() ==> (#[trigger] stamps[i]).wf(),
        forall|i: int, j: int|
            0 <= i < stamps.len() && 0 <= j < stamps.len() && i != j ==> #[trigger] stamps[i]
                != #[trigger] stamps[j],
    ensures
        forall|i: int, j: int|
            0 <= i < stamps.len() && 0 <= j < stamps.len() && i != j ==> backup_name_text(
                base,
                #[trigger] stamps[i],
            ) != backup_name_text(base, #[trigger] stamps[j]),
{
    assert forall|i: int, j: int|
        0 <= i < stamps.len() && 0 <= j < stamps.len() && i != j implies backup_name_text(
        base,
        #[trigger] stamps[i],
    ) != backup_name_text(base, #[trigger] stamps[j]) by {
        let ni = backup_name_text(base, stamps[i]);
        let nj = backup_name_text(base, stamps[j]);
        if ni == nj {
            let k = base.len() as int + 1;
            assert(ni.subrange(k, ni.len() as int) =~= compact_text(stamps[i]));
            assert(nj.subrange(k, nj.len() as int) =~= compact_text(stamps[j]));
            lemma_compact_text_injective_any_year(stamps[i], stamps[j]);
        }
    }
}

/// Backups of one file sort by name in the order of the instants they were
/// captured at, as long as the years have four digits.
pub proof fn lemma_names_sort_in_time_order(base: Seq<char>, a: UtcInstant, b: UtcInstant)
    requires
        a.wf(),
        b.wf(),
        0 <= a.year <= 9999,
        0 <= b.year <= 9999,
        instant_before(a, b),
    ensures
        text_before(backup_name_text(base, a), backup_name_text(base, b)),
{
    lemma_compact_text_len(a);
    lemma_compact_text_len(b);
    lemma_compact_text_ordered(a, b);
    lemma_before_in_context(base + seq!['-'], compact_text(a), compact_text(b), Seq::empty(), Seq::empty());
    assert(backup_name_text(base, a) =~= base + seq!['-'] + compact_text(a) + Seq::empty());
    assert(backup_name_text(base, b) =~= base + seq!['-'] + compact_text(b) + Seq::empty());
}

/// Files with different base names never get the same backup name, even
/// when they share a backup directory and whatever instants their backups
/// were captured at.
pub proof fn lemma_distinct_bases_distinct_names(
    b1: Seq<char>,
    t1: UtcInstant,
    b2: Seq<char>,
    t2: UtcInstant,
)
    requires
        t1.wf(),
        t2.wf(),
        0 <= t1.year <= 9999,
        0 <= t2.year <= 9999,
        b1 != b2,
    ensures
        backup_name_text(b1, t1) != backup_name_text(b2, t2),
{
    if backup_name_text(b1, t1) == backup_name_text(b2, t2) {
        lemma_backup_name_injective(b1, t1, b2, t2);
    }
}

/// The final component of a canonical path, if it has one.
pub fn base_name(path: &str) -> (r: Option<String>)
    ensures
        r is Some <==> base_name_of(path@) is Some,
        r is Some ==> r.unwrap()@ == base_name_of(path@).unwrap(),
{
    let n = path.unicode_len();
    let mut start: usize = n;
    while start > 0 && path.get_char(start - 1) != '/'
        invariant
            start <= n,
            n == path@.len(),
            forall|i: int| start <= i < n ==> path@[i] != '/',
        decreases start,
    {
        start = start - 1;
    }
    proof {
        lemma_last_slash(path@);
        assert(last_slash(path@) + 1 == start);
    }
    let name = path.substring_char(start, n);
    let len = n - start;
    if len == 0 || (len == 2 && name.get_char(0) == '.' && name.get_char(1) == '.') {
        proof {
            if len == 2 {
                assert(name@ =~= seq!['.', '.']);
            }
        }
        None
    } else {
        proof {
            if name@ == seq!['.', '.'] {
                assert(name@[0] == '.' && name@[1] == '.');
            }
        }
        Some(String::from_str(name))
    }
}

/// The backup file name for a file with final component `base`, captured at
/// instant `at`.
pub fn backup_name(base: &str, at: &UtcInstant) -> (r: String)
    requires
        at.wf(),
    ensures
        r@ == backup_name_text(base@, *at),
{
    let mut name = String::from_str(base);
    name.append("-");
    let stamp = format_compact(at);
    name.append(stamp.as_str());
    proof {
        reveal_strlit("-");
        assert(name@ =~= backup_name_text(base@, *at));
    }
    name
}

/// Resolves a write of canonical path `canonical` against the rules and names
/// its backup after instant `at`.
pub fn plan_backup(canonical: &str, table: &RuleTable, at: &UtcInstant) -> (r: Result<
    BackupPlan,
    BackupError,
>)
    requires
        table.wf(),
        at.wf(),
    ensures
        plan_matches(canonical@, table@, *at, r),
{
    let backup_dir = match table.lookup(canonical) {
        Some(d) => d,
        None => {
            return Err(BackupError::NoRuleForPath(String::from_str(canonical)));
        },
    };
    let base = match base_name(canonical) {
        Some(b) => b,
        None => {
            return Err(BackupError::InvalidFileName(String::from_str(canonical)));
        },
    };
    let file_name = backup_name(base.as_str(), at);
    Ok(BackupPlan { source: String::from_str(canonical), backup_dir, file_name })
}

/// Handles a write event once its path has been canonicalized (or failed to
/// be): the backup is named after the current UTC time.
pub fn prepare_backup(resolved: Result<String, String>, table: &RuleTable) -> (r: Result<
    BackupPlan,
    BackupError,
>)
    requires
        table.wf(),
    ensures
        resolved is Err ==> (r matches Err(BackupError::PathResolution(e)) && e@
            == resolved->Err_0@),
        resolved is Ok ==> exists|at: UtcInstant|
            at.wf() && plan_matches(resolved->Ok_0@, table@, at, r),
{
    match resolved {
        Err(cause) => Err(BackupError::PathResolution(cause)),
        Ok(canonical) => {
            let now = utc_now();
            let r = plan_backup(canonical.as_str(), table, &now);
            assert(now.wf() && plan_matches(canonical@, table@, now, r));
            r
        },
    }
}

/// The outcome of a backup, given what the copy into the backup directory
/// reported (the number of bytes copied, or the cause of its failure).
pub fn finish_backup(copied: Result<u64, String>) -> (r: Result<(), BackupError>)
    ensures
        copied is Ok <==> r is Ok,
        copied is Err ==> (r matches Err(BackupError::CopyFailed(e)) && e@ == copied->Err_0@),
{
    match copied {
        Ok(_) => Ok(()),
        Err(cause) => Err(BackupError::CopyFailed(cause)),
    }
}

} // verus!
