//! The result of parsing: which flags were given, how often each counted argument
//! appeared, the values, the positional arguments and the matched subcommand.
use vstd::prelude::*;
use crate::text::{str_eq, string_views};

verus! {

/// What a parse found, as mathematical values.
pub struct MatchesModel {
    /// For each flag, whether it was given (declared flags start out `false`).
    pub flags: Map<Seq<char>, bool>,
    /// For each counted argument, how many times it appeared (declared ones start at 0).
    pub counts: Map<Seq<char>, nat>,
    /// For each value argument that was given, its value (the last one given).
    pub values: Map<Seq<char>, Seq<char>>,
    /// The positional arguments, in order.
    pub positionals: Seq<Seq<char>>,
    /// The subcommand that was matched, by name, with what was parsed for it.
    pub sub: Option<(Seq<char>, Box<MatchesModel>)>,
}

impl MatchesModel {
    /// Nothing found yet.
    pub open spec fn empty() -> Self {
        MatchesModel {
            flags: Map::empty(),
            counts: Map::empty(),
            values: Map::empty(),
            positionals: Seq::empty(),
            sub: None,
        }
    }

    /// What `Matches::flag` answers: the recorded flag, or `false`.
    pub open spec fn flag_of(self, name: Seq<char>) -> bool {
        self.flags.contains_key(name) && self.flags[name]
    }

    /// What `Matches::count` answers: the recorded count, or 0.
    pub open spec fn count_of(self, name: Seq<char>) -> nat {
        if self.counts.contains_key(name) {
            self.counts[name]
        } else {
            0
        }
    }

    /// What `Matches::value` answers.
    pub open spec fn value_of(self, name: Seq<char>) -> Option<Seq<char>> {
        if self.values.contains_key(name) {
            Some(self.values[name])
        } else {
            None
        }
    }

    /// What `Matches::subcommand` answers: the matches of the subcommand called `name`,
    /// if that is the one that was matched.
    pub open spec fn sub_of(self, name: Seq<char>) -> Option<MatchesModel> {
        match self.sub {
            Some((n, m)) => if n == name {
                Some(*m)
            } else {
                None
            },
            None => None,
        }
    }

    pub open spec fn with_flag(self, name: Seq<char>, v: bool) -> Self {
        MatchesModel { flags: self.flags.insert(name, v), ..self }
    }

    pub open spec fn with_count(self, name: Seq<char>, c: nat) -> Self {
        MatchesModel { counts: self.counts.insert(name, c), ..self }
    }

    /// One more occurrence of the counted argument `name`.
    pub open spec fn bumped(self, name: Seq<char>) -> Self {
        self.with_count(name, self.count_of(name) + 1)
    }

    pub open spec fn with_value(self, name: Seq<char>, v: Seq<char>) -> Self {
        MatchesModel { values: self.values.insert(name, v), ..self }
    }

    pub open spec fn with_positional(self, p: Seq<char>) -> Self {
        MatchesModel { positionals: self.positionals.push(p), ..self }
    }

    pub open spec fn with_sub(self, name: Seq<char>, m: MatchesModel) -> Self {
        MatchesModel { sub: Some((name, Box::new(m))), ..self }
    }
}

/// The map that a log of assignments leaves: a later entry for a key overrides an
/// earlier one.
pub open spec fn log_map<V>(log: Seq<(Seq<char>, V)>) -> Map<Seq<char>, V>
    decreases log.len(),
{
    if log.len() == 0 {
        Map::empty()
    } else {
        log_map(log.drop_last()).insert(log.last().0, log.last().1)
    }
}

/// The last entry for a key gives its value; a key without an entry is absent.
pub proof fn lemma_log_map_lookup<V>(log: Seq<(Seq<char>, V)>, k: Seq<char>)
    ensures
        (forall|j: int| 0 <= j < log.len() ==> #[trigger] log[j].0 != k) ==> !log_map(
            log,
        ).contains_key(k),
        forall|i: int|
            0 <= i < log.len() && log[i].0 == k && (forall|j: int|
                i < j < log.len() ==> #[trigger] log[j].0 != k) ==> log_map(log).contains_key(k)
                && log_map(log)[k] == log[i].1,
    decreases log.len(),
{
    if log.len() > 0 {
        let init = log.drop_last();
        lemma_log_map_lookup(init, k);
        assert forall|i: int|
            0 <= i < log.len() && log[i].0 == k && (forall|j: int|
                i < j < log.len() ==> #[trigger] log[j].0 != k) implies log_map(log).contains_key(
            k,
        ) && log_map(log)[k] == log[i].1 by {
            if i < log.len() - 1 {
                assert(log.last().0 != k);
                assert(init[i] == log[i]);
                assert forall|j: int| i < j < init.len() implies #[trigger] init[j].0 != k by {
                    assert(init[j] == log[j]);
                }
            }
        }
        if forall|j: int| 0 <= j < log.len() ==> #[trigger] log[j].0 != k {
            assert(log[log.len() - 1].0 != k);
            assert forall|j: int| 0 <= j < init.len() implies #[trigger] init[j].0 != k by {
                assert(init[j] == log[j]);
            }
        }
    }
}

/// The parsed command line.
#[derive(Debug)]
pub struct Matches {
    flags: Vec<(&'static str, bool)>,
    counts: Vec<(&'static str, usize)>,
    values: Vec<(&'static str, String)>,
    positionals: Vec<String>,
    matched_sub: Option<(&'static str, Box<Matches>)>,
}

pub open spec fn flag_log(log: Seq<(&'static str, bool)>) -> Seq<(Seq<char>, bool)> {
    log.map_values(|e: (&'static str, bool)| (e.0@, e.1))
}

pub open spec fn count_log(log: Seq<(&'static str, usize)>) -> Seq<(Seq<char>, nat)> {
    log.map_values(|e: (&'static str, usize)| (e.0@, e.1 as nat))
}

pub open spec fn value_log(log: Seq<(&'static str, String)>) -> Seq<(Seq<char>, Seq<char>)> {
    log.map_values(|e: (&'static str, String)| (e.0@, e.1@))
}

/// The position of the last entry of `log` whose key is `key`.
fn last_entry<V>(log: &Vec<(&'static str, V)>, key: &str) -> (r: Option<usize>)
    ensures
        match r {
            Some(i) => i < log@.len() && log@[i as int].0@ == key@ && forall|j: int|
                i < j < log@.len() ==> (#[trigger] log@[j]).0@ != key@,
            None => forall|j: int| 0 <= j < log@.len() ==> (#[trigger] log@[j]).0@ != key@,
        },
{
    let mut i: usize = log.len();
    while i > 0
        invariant
            i <= log@.len(),
            forall|j: int| i <= j < log@.len() ==> (#[trigger] log@[j]).0@ != key@,
        decreases i,
    {
        i -= 1;
        if str_eq(log[i].0, key) {
            return Some(i);
        }
    }
    None
}

impl Matches {
    pub closed spec fn model(self) -> MatchesModel
        decreases self,
    {
        MatchesModel {
            flags: log_map(flag_log(self.flags@)),
            counts: log_map(count_log(self.counts@)),
            values: log_map(value_log(self.values@)),
            positionals: string_views(self.positionals@),
            sub: match self.matched_sub {
                Some((n, b)) => Some((n@, Box::new((*b).model()))),
                None => None,
            },
        }
    }
}

impl View for Matches {
    type V = MatchesModel;

    closed spec fn view(&self) -> MatchesModel {
        self.model()
    }
}

impl Default for Matches {
    fn default() -> (r: Self)
        ensures
            r@ == MatchesModel::empty(),
    {
        let r = Matches {
            flags: Vec::new(),
            counts: Vec::new(),
            values: Vec::new(),
            positionals: Vec::new(),
            matched_sub: None,
        };
        assert(r@.flags =~= Map::empty());
        assert(r@.counts =~= Map::empty());
        assert(r@.values =~= Map::empty());
        assert(r@.positionals =~= Seq::empty());
        r
    }
}

impl Matches {
    /// Whether the flag `name` was given (`false` for a name that is not a flag).
    pub fn flag(&self, name: &str) -> (r: bool)
        ensures
            r == self@.flag_of(name@),
    {
        let ghost log = flag_log(self.flags@);
        proof {
            lemma_log_map_lookup(log, name@);
        }
        match last_entry(&self.flags, name) {
            Some(i) => {
                assert(log[i as int].0 == name@);
                self.flags[i].1
            },
            None => {
                assert forall|j: int| 0 <= j < log.len() implies #[trigger] log[j].0 != name@ by {
                    assert(self.flags@[j].0@ != name@);
                }
                false
            },
        }
    }

    /// How many times the counted argument `name` appeared (0 for a name that is not one).
    pub fn count(&self, name: &str) -> (r: usize)
        ensures
            r as nat == self@.count_of(name@),
    {
        let ghost log = count_log(self.counts@);
        proof {
            lemma_log_map_lookup(log, name@);
        }
        match last_entry(&self.counts, name) {
            Some(i) => {
                assert(log[i as int].0 == name@);
                self.counts[i].1
            },
            None => {
                assert forall|j: int| 0 <= j < log.len() implies #[trigger] log[j].0 != name@ by {
                    assert(self.counts@[j].0@ != name@);
                }
                0
            },
        }
    }

    /// The value given for `name`, if one was given.
    pub fn value(&self, name: &str) -> (r: Option<&str>)
        ensures
            match self@.value_of(name@) {
                Some(v) => r matches Some(s) && s@ == v,
                None => r is None,
            },
    {
        let ghost log = value_log(self.values@);
        proof {
            lemma_log_map_lookup(log, name@);
        }
        match last_entry(&self.values, name) {
            Some(i) => {
                assert(log[i as int].0 == name@);
                Some(self.values[i].1.as_str())
            },
            None => {
                assert forall|j: int| 0 <= j < log.len() implies #[trigger] log[j].0 != name@ by {
                    assert(self.values@[j].0@ != name@);
                }
                None
            },
        }
    }

    /// The positional arguments, in the order they were given.
    pub fn positionals(&self) -> (r: &[String])
        ensures
            string_views(r@) == self@.positionals,
    {
        self.positionals.as_slice()
    }

    /// The matches of the subcommand `name`, if that subcommand was matched.
    pub fn subcommand(&self, name: &str) -> (r: Option<&Matches>)
        ensures
            match self@.sub_of(name@) {
                Some(m) => r matches Some(s) && s@ == m,
                None => r is None,
            },
    {
        match &self.matched_sub {
            Some((n, m)) => {
                if str_eq(n, name) {
                    Some(&**m)
                } else {
                    None
                }
            },
            None => None,
        }
    }

    /// The name of the matched subcommand, if any.
    pub fn subcommand_name(&self) -> (r: Option<&'static str>)
        ensures
            match self@.sub {
                Some((n, _)) => r matches Some(s) && s@ == n,
                None => r is None,
            },
    {
        match &self.matched_sub {
            Some((n, _)) => Some(*n),
            None => None,
        }
    }

    pub(crate) fn set_flag(&mut self, name: &'static str, v: bool)
        ensures
            final(self)@ == old(self)@.with_flag(name@, v),
    {
        let ghost before = flag_log(self.flags@);
        self.flags.push((name, v));
        assert(flag_log(self.flags@).drop_last() =~= before);
    }

    pub(crate) fn set_count(&mut self, name: &'static str, c: usize)
        ensures
            final(self)@ == old(self)@.with_count(name@, c as nat),
    {
        let ghost before = count_log(self.counts@);
        self.counts.push((name, c));
        assert(count_log(self.counts@).drop_last() =~= before);
    }

    pub(crate) fn bump_count(&mut self, name: &'static str)
        requires
            old(self)@.count_of(name@) < usize::MAX,
        ensures
            final(self)@ == old(self)@.bumped(name@),
    {
        let c: usize = self.count(name);
        self.set_count(name, c + 1);
    }

    pub(crate) fn set_value(&mut self, name: &'static str, v: String)
        ensures
            final(self)@ == old(self)@.with_value(name@, v@),
    {
        let ghost before = value_log(self.values@);
        self.values.push((name, v));
        assert(value_log(self.values@).drop_last() =~= before);
    }

    pub(crate) fn push_positional(&mut self, p: String)
        ensures
            final(self)@ == old(self)@.with_positional(p@),
    {
        let ghost before = string_views(self.positionals@);
        self.positionals.push(p);
        assert(string_views(self.positionals@) =~= before.push(p@));
    }

    pub(crate) fn set_sub(&mut self, name: &'static str, m: Matches)
        ensures
            final(self)@ == old(self)@.with_sub(name@, m@),
    {
        self.matched_sub = Some((name, Box::new(m)));
    }
}

} // verus!
