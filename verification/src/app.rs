//! Application declarations: a name, texts for help, arguments and subcommands.
use vstd::prelude::*;
use crate::arg::Arg;
use crate::text::str_eq;

verus! {

/// An application (or a subcommand of one).
#[derive(Debug)]
pub struct App {
    pub name: &'static str,
    pub about: Option<&'static str>,
    pub category: Option<&'static str>,
    pub args: Vec<Arg>,
    pub subcommands: Vec<App>,
}

/// The index of the first element of `s` that satisfies `p`, if any.
pub open spec fn first_index<T>(s: Seq<T>, p: spec_fn(T) -> bool) -> Option<int> {
    if exists|i: int| 0 <= i < s.len() && p(s[i]) {
        Some(choose|i: int| is_first_index(s, p, i))
    } else {
        None
    }
}

/// `i` is the index of the first element of `s` that satisfies `p`.
pub open spec fn is_first_index<T>(s: Seq<T>, p: spec_fn(T) -> bool, i: int) -> bool {
    &&& 0 <= i < s.len()
    &&& p(s[i])
    &&& forall|j: int| 0 <= j < i ==> !p(#[trigger] s[j])
}

/// The first index is the one that `is_first_index` describes; there is none when no
/// element satisfies `p`.
pub proof fn lemma_first_index<T>(s: Seq<T>, p: spec_fn(T) -> bool)
    ensures
        match first_index(s, p) {
            Some(i) => is_first_index(s, p, i),
            None => forall|j: int| 0 <= j < s.len() ==> !p(#[trigger] s[j]),
        },
        forall|i: int| is_first_index(s, p, i) ==> first_index(s, p) == Some(i),
{
    if exists|i: int| 0 <= i < s.len() && p(s[i]) {
        let w: int = choose|i: int| 0 <= i < s.len() && p(s[i]);
        lemma_least_witness(s, p, w);
        let c: int = choose|i: int| is_first_index(s, p, i);
        assert forall|i: int| is_first_index(s, p, i) implies first_index(s, p) == Some(i) by {
            if i < c {
                assert(!p(s[i]));
            } else if c < i {
                assert(!p(s[c]));
            }
        }
    }
}

proof fn lemma_least_witness<T>(s: Seq<T>, p: spec_fn(T) -> bool, w: int)
    requires
        0 <= w < s.len(),
        p(s[w]),
    ensures
        exists|i: int| is_first_index(s, p, i),
    decreases w,
{
    if forall|j: int| 0 <= j < w ==> !p(#[trigger] s[j]) {
        assert(is_first_index(s, p, w));
    } else {
        let v: int = choose|j: int| 0 <= j < w && p(s[j]);
        lemma_least_witness(s, p, v);
    }
}

/// The application is called `name`.
pub open spec fn is_called(a: App, name: Seq<char>) -> bool {
    a.name@ == name
}

/// The position of the first subcommand called `name`.
pub open spec fn subcommand_index(subs: Seq<App>, name: Seq<char>) -> Option<int> {
    first_index(subs, |a: App| is_called(a, name))
}

/// A subcommand is found by a name exactly when one is called so, and what is found is
/// the first one called so.
pub proof fn law_subcommand_lookup_exact(subs: Seq<App>, name: Seq<char>)
    ensures
        match subcommand_index(subs, name) {
            Some(i) => {
                &&& 0 <= i < subs.len()
                &&& subs[i].name@ == name
                &&& forall|j: int| 0 <= j < i ==> (#[trigger] subs[j]).name@ != name
            },
            None => forall|j: int| 0 <= j < subs.len() ==> (#[trigger] subs[j]).name@ != name,
        },
{
    let p = |a: App| is_called(a, name);
    lemma_first_index(subs, p);
    match subcommand_index(subs, name) {
        Some(i) => {
            assert(is_first_index(subs, p, i));
            assert forall|j: int| 0 <= j < i implies (#[trigger] subs[j]).name@ != name by {
                assert(!p(subs[j]));
            }
        },
        None => {
            assert forall|j: int| 0 <= j < subs.len() implies (#[trigger] subs[j]).name@ != name by {
                assert(!p(subs[j]));
            }
        },
    }
}

impl App {
    /// An application with a name and nothing else.
    pub fn new(name: &'static str) -> (r: Self)
        ensures
            r.name == name,
            r.about == None::<&'static str>,
            r.category == None::<&'static str>,
            r.args@ == Seq::<Arg>::empty(),
            r.subcommands@ == Seq::<App>::empty(),
    {
        App { name, about: None, category: None, args: Vec::new(), subcommands: Vec::new() }
    }

    /// Sets the description shown in help.
    pub fn about(self, about: &'static str) -> (r: Self)
        ensures
            r.name == self.name,
            r.about == Some(about),
            r.category == self.category,
            r.args@ == self.args@,
            r.subcommands@ == self.subcommands@,
    {
        let mut s = self;
        s.about = Some(about);
        s
    }

    /// Sets the category under which a parent lists this subcommand in help.
    pub fn category(self, category: &'static str) -> (r: Self)
        ensures
            r.name == self.name,
            r.about == self.about,
            r.category == Some(category),
            r.args@ == self.args@,
            r.subcommands@ == self.subcommands@,
    {
        let mut s = self;
        s.category = Some(category);
        s
    }

    /// Adds an argument after those already declared.
    pub fn arg(self, arg: Arg) -> (r: Self)
        ensures
            r.name == self.name,
            r.about == self.about,
            r.category == self.category,
            r.args@ == self.args@.push(arg),
            r.subcommands@ == self.subcommands@,
    {
        let mut s = self;
        s.args.push(arg);
        s
    }

    /// Adds a subcommand after those already declared.
    pub fn subcommand(self, sub: App) -> (r: Self)
        ensures
            r.name == self.name,
            r.about == self.about,
            r.category == self.category,
            r.args@ == self.args@,
            r.subcommands@ == self.subcommands@.push(sub),
    {
        let mut s = self;
        s.subcommands.push(sub);
        s
    }

    /// The declared arguments, in the order they were added.
    pub fn args(&self) -> (r: &[Arg])
        ensures
            r@ == self.args@,
    {
        self.args.as_slice()
    }

    /// The first subcommand called `name`, if there is one.
    pub fn find_subcommand(&self, name: &str) -> (r: Option<&App>)
        ensures
            match subcommand_index(self.subcommands@, name@) {
                Some(i) => r == Some(&self.subcommands@[i]),
                None => r is None,
            },
    {
        let mut i: usize = 0;
        while i < self.subcommands.len()
            invariant
                i <= self.subcommands@.len(),
                forall|j: int| 0 <= j < i ==> self.subcommands@[j].name@ != name@,
            decreases self.subcommands@.len() - i,
        {
            if str_eq(self.subcommands[i].name, name) {
                proof {
                    let p = |a: App| is_called(a, name@);
                    assert(is_first_index(self.subcommands@, p, i as int));
                    lemma_first_index(self.subcommands@, p);
                }
                return Some(&self.subcommands[i]);
            }
            i += 1;
        }
        proof {
            lemma_first_index(self.subcommands@, |a: App| is_called(a, name@));
        }
        None
    }
}

/// `b` is a copy of `a`: the same name, texts and arguments, and subcommands that are
/// copies of `a`'s, in the same order.
pub open spec fn same_app(a: App, b: App) -> bool
    decreases a,
{
    &&& a.name == b.name
    &&& a.about == b.about
    &&& a.category == b.category
    &&& a.args@ == b.args@
    &&& same_apps(a.subcommands@, b.subcommands@)
}

/// Each application of `t` is a copy of the one at the same place in `s`.
pub open spec fn same_apps(s: Seq<App>, t: Seq<App>) -> bool
    decreases s,
{
    if s.len() == 0 {
        t.len() == 0
    } else {
        &&& t.len() == s.len()
        &&& same_apps(s.drop_last(), t.drop_last())
        &&& same_app(s.last(), t.last())
    }
}

impl Clone for App {
    /// A copy with the same name, texts and arguments, and a copy of each subcommand.
    fn clone(&self) -> (r: Self)
        ensures
            same_app(*self, r),
        decreases self,
    {
        let mut args: Vec<Arg> = Vec::new();
        let mut i: usize = 0;
        while i < self.args.len()
            invariant
                i <= self.args@.len(),
                args@ == self.args@.take(i as int),
            decreases self.args@.len() - i,
        {
            args.push(self.args[i]);
            i += 1;
            assert(args@ =~= self.args@.take(i as int));
        }
        assert(self.args@.take(self.args@.len() as int) =~= self.args@);
        let mut subs: Vec<App> = Vec::new();
        let mut j: usize = 0;
        while j < self.subcommands.len()
            invariant
                j <= self.subcommands@.len(),
                same_apps(self.subcommands@.take(j as int), subs@),
            decreases self.subcommands@.len() - j,
        {
            let c = self.subcommands[j].clone();
            let ghost before = subs@;
            subs.push(c);
            proof {
                let s2 = self.subcommands@.take(j + 1);
                assert(s2.drop_last() =~= self.subcommands@.take(j as int));
                assert(subs@.drop_last() =~= before);
                assert(s2.last() == self.subcommands@[j as int]);
            }
            j += 1;
        }
        assert(self.subcommands@.take(self.subcommands@.len() as int) =~= self.subcommands@);
        let r = App {
            name: self.name,
            about: self.about,
            category: self.category,
            args,
            subcommands: subs,
        };
        r
    }
}

} // verus!
