use vstd::prelude::*;
use vstd::string::StringExecFns;

verus! {

/// One backup rule: a watched file and the directory its backups go to, both
/// as canonical path text.
#[derive(Debug)]
pub struct Rule {
    pub watched: String,
    pub backup_dir: String,
}

pub open spec fn entry_of(r: Rule) -> (Seq<char>, Seq<char>) {
    (r.watched@, r.backup_dir@)
}

/// The mapping that a list of (watched, backup directory) pairs declares,
/// read front to back so that a later pair for the same watched file wins.
pub open spec fn table_of(pairs: Seq<(Seq<char>, Seq<char>)>) -> Map<Seq<char>, Seq<char>>
    decreases pairs.len(),
{
    if pairs.len() == 0 {
        Map::empty()
    } else {
        table_of(pairs.drop_last()).insert(pairs.last().0, pairs.last().1)
    }
}

pub open spec fn keys_unique(pairs: Seq<(Seq<char>, Seq<char>)>) -> bool {
    forall|i: int, j: int|
        0 <= i < pairs.len() && 0 <= j < pairs.len() && i != j ==> #[trigger] pairs[i].0
            != #[trigger] pairs[j].0
}

/// On pairs with distinct keys, the mapping holds exactly those pairs.
pub proof fn lemma_table_of_unique(pairs: Seq<(Seq<char>, Seq<char>)>)
    requires
        keys_unique(pairs),
    ensures
        forall|k: Seq<char>|
            #[trigger] table_of(pairs).contains_key(k) <==> exists|i: int|
                0 <= i < pairs.len() && pairs[i].0 == k,
        forall|i: int| 0 <= i < pairs.len() ==> table_of(pairs)[#[trigger] pairs[i].0] == pairs[i].1,
    decreases pairs.len(),
{
    if pairs.len() > 0 {
        let init = pairs.drop_last();
        assert(keys_unique(init)) by {
            assert forall|i: int, j: int|
                0 <= i < init.len() && 0 <= j < init.len() && i != j implies #[trigger] init[i].0
                != #[trigger] init[j].0 by {
                assert(init[i] == pairs[i] && init[j] == pairs[j]);
            }
        }
        lemma_table_of_unique(init);
        let last = pairs.len() - 1;
        assert forall|k: Seq<char>|
            #[trigger] table_of(pairs).contains_key(k) <==> exists|i: int|
                0 <= i < pairs.len() && pairs[i].0 == k by {
            assert(table_of(pairs) == table_of(init).insert(pairs[last].0, pairs[last].1));
            if k == pairs[last].0 {
                assert(pairs[last].0 == k);
            } else if table_of(pairs).contains_key(k) {
                assert(table_of(init).contains_key(k));
                let i = choose|i: int| 0 <= i < init.len() && init[i].0 == k;
                assert(init[i] == pairs[i]);
                assert(pairs[i].0 == k);
            }
            if exists|i: int| 0 <= i < pairs.len() && pairs[i].0 == k {
                let i = choose|i: int| 0 <= i < pairs.len() && pairs[i].0 == k;
                if i < last {
                    assert(init[i].0 == k);
                }
            }
        }
        assert forall|i: int| 0 <= i < pairs.len() implies table_of(pairs)[#[trigger] pairs[i].0]
            == pairs[i].1 by {
            assert(table_of(pairs) == table_of(init).insert(pairs[last].0, pairs[last].1));
            if i < last {
                assert(init[i] == pairs[i]);
                assert(pairs[i].0 != pairs[last].0);
                assert(table_of(init)[init[i].0] == init[i].1);
            }
        }
    }
}

/// The process-lifetime mapping from watched file to backup directory.
pub struct RuleTable {
    rules: Vec<Rule>,
}

impl View for RuleTable {
    type V = Map<Seq<char>, Seq<char>>;

    open spec fn view(&self) -> Map<Seq<char>, Seq<char>> {
        table_of(self.entries())
    }
}

impl RuleTable {
    pub closed spec fn entries(&self) -> Seq<(Seq<char>, Seq<char>)> {
        self.rules@.map_values(|r: Rule| entry_of(r))
    }

    /// Each watched file appears in one rule only.
    pub open spec fn wf(&self) -> bool {
        keys_unique(self.entries())
    }

    /// Builds the table from the configured pairs, in order; where two pairs
    /// name the same watched file, the later one wins.
    pub fn from_pairs(pairs: Vec<(String, String)>) -> (r: RuleTable)
        ensures
            r.wf(),
            r@ == table_of(pairs@.map_values(|p: (String, String)| (p.0@, p.1@))),
    {
        let ghost input = pairs@.map_values(|p: (String, String)| (p.0@, p.1@));
        let mut rules: Vec<Rule> = Vec::new();
        let n = pairs.len();
        let mut j: usize = 0;
        while j < n
            invariant
                n == pairs.len(),
                input == pairs@.map_values(|p: (String, String)| (p.0@, p.1@)),
                j <= n,
                keys_unique(rules@.map_values(|r: Rule| entry_of(r))),
                table_of(rules@.map_values(|r: Rule| entry_of(r))) == table_of(input.take(j as int)),
            decreases n - j,
        {
            let watched = pairs[j].0.clone();
            let backup_dir = pairs[j].1.clone();
            let ghost before = rules@.map_values(|r: Rule| entry_of(r));
            proof {
                assert(input[j as int] == (watched@, backup_dir@));
                lemma_table_of_unique(before);
                assert(input.take(j as int + 1).drop_last() =~= input.take(j as int));
            }
            match find_rule(&rules, &watched) {
                Some(i) => {
                    rules.set(i, Rule { watched, backup_dir });
                    let ghost after = rules@.map_values(|r: Rule| entry_of(r));
                    proof {
                        assert(after =~= before.update(i as int, input[j as int]));
                        assert(keys_unique(after)) by {
                            assert forall|a: int, b: int|
                                0 <= a < after.len() && 0 <= b < after.len() && a != b implies
                                #[trigger] after[a].0 != #[trigger] after[b].0 by {
                                assert(before[a].0 == after[a].0 && before[b].0 == after[b].0);
                            }
                        }
                        lemma_table_of_unique(after);
                        assert(table_of(after) =~= table_of(before).insert(input[j as int].0, input[j as int].1)) by {
                            assert(before[i as int].0 == input[j as int].0);
                            assert(after[i as int] == input[j as int]);
                            assert forall|k: Seq<char>| #[trigger] table_of(after).contains_key(k)
                                <==> table_of(before).insert(input[j as int].0, input[j as int].1).contains_key(k) by {
                                if k == input[j as int].0 {
                                    assert(after[i as int].0 == k);
                                } else if table_of(before).contains_key(k) {
                                    let a = choose|a: int| 0 <= a < before.len() && before[a].0 == k;
                                    assert(after[a].0 == k);
                                }
                                if table_of(after).contains_key(k) {
                                    let a = choose|a: int| 0 <= a < after.len() && after[a].0 == k;
                                    assert(before[a].0 == k);
                                }
                            }
                            assert forall|k: Seq<char>| #[trigger] table_of(after).contains_key(k)
                                implies table_of(after)[k] == table_of(before).insert(input[j as int].0, input[j as int].1)[k] by {
                                let a = choose|a: int| 0 <= a < after.len() && after[a].0 == k;
                                assert(table_of(after)[after[a].0] == after[a].1);
                                if a != i {
                                    assert(before[a] == after[a]);
                                }
                            }
                        }
                    }
                },
                None => {
                    rules.push(Rule { watched, backup_dir });
                    let ghost after = rules@.map_values(|r: Rule| entry_of(r));
                    proof {
                        assert(after =~= before.push(input[j as int]));
                        assert(after.drop_last() =~= before);
                        assert(keys_unique(after)) by {
                            assert forall|a: int, b: int|
                                0 <= a < after.len() && 0 <= b < after.len() && a != b implies
                                #[trigger] after[a].0 != #[trigger] after[b].0 by {
                                if a < before.len() && b < before.len() {
                                    assert(before[a].0 == after[a].0 && before[b].0 == after[b].0);
                                } else if a < before.len() {
                                    assert(before[a].0 == after[a].0);
                                } else {
                                    assert(before[b].0 == after[b].0);
                                }
                            }
                        }
                    }
                },
            }
            j = j + 1;
        }
        proof {
            assert(input.take(n as int) =~= input);
        }
        RuleTable { rules }
    }

    /// The table holds exactly its entries.
    pub proof fn lemma_view_entries(&self)
        requires
            self.wf(),
        ensures
            forall|k: Seq<char>|
                #[trigger] self@.contains_key(k) <==> exists|i: int|
                    0 <= i < self.entries().len() && self.entries()[i].0 == k,
            forall|i: int|
                0 <= i < self.entries().len() ==> self@[#[trigger] self.entries()[i].0]
                    == self.entries()[i].1,
    {
        lemma_table_of_unique(self.entries());
    }

    /// The rules, one per watched file.
    pub fn rules(&self) -> (r: &Vec<Rule>)
        ensures
            self.entries() == r@.map_values(|q: Rule| entry_of(q)),
    {
        &self.rules
    }

    /// The backup directory for a watched file, if a rule names it.
    pub fn lookup(&self, watched: &str) -> (r: Option<String>)
        requires
            self.wf(),
        ensures
            r.is_some() <==> self@.contains_key(watched@),
            r.is_some() ==> r.unwrap()@ == self@[watched@],
    {
        proof {
            lemma_table_of_unique(self.entries());
        }
        let key = String::from_str(watched);
        match find_rule(&self.rules, &key) {
            Some(i) => {
                proof {
                    assert(self.entries()[i as int] == entry_of(self.rules@[i as int]));
                    assert(self@[self.entries()[i as int].0] == self.entries()[i as int].1);
                }
                Some(self.rules[i].backup_dir.clone())
            },
            None => {
                proof {
                    if self@.contains_key(watched@) {
                        let a = choose|a: int| 0 <= a < self.entries().len() && self.entries()[a].0 == watched@;
                        assert(self.entries()[a] == entry_of(self.rules@[a]));
                    }
                }
                None
            },
        }
    }
}

/// The position of the rule for `watched`, if there is one.
fn find_rule(rules: &Vec<Rule>, watched: &String) -> (r: Option<usize>)
    ensures
        r.is_some() ==> r.unwrap() < rules@.len() && rules@[r.unwrap() as int].watched@ == watched@,
        r.is_none() ==> forall|i: int| 0 <= i < rules@.len() ==> rules@[i].watched@ != watched@,
{
    let mut i: usize = 0;
    while i < rules.len()
        invariant
            i <= rules@.len(),
            forall|a: int| 0 <= a < i ==> rules@[a].watched@ != watched@,
        decreases rules@.len() - i,
    {
        if rules[i].watched == *watched {
            return Some(i);
        }
        i = i + 1;
    }
    None
}

} // verus!
