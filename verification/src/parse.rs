//! Parsing an argument vector against an application.
use vstd::prelude::*;
use crate::app::{first_index, is_first_index, lemma_first_index, subcommand_index, App};
use crate::arg::{Arg, ArgKind};
use crate::help::help_spec;
use crate::matches::{Matches, MatchesModel};
use crate::text::{str_eq, str_views};

verus! {

/// `--help` or `-h`.
pub open spec fn is_help_token(t: Seq<char>) -> bool {
    t == "--help"@ || t == "-h"@
}

/// `a` answers to `--name`: same name, and not positional.
pub open spec fn answers_long(a: Arg, name: Seq<char>) -> bool {
    a.name@ == name && a.kind != ArgKind::Positional
}

/// The first argument that a `--name` token selects.
pub open spec fn long_index(args: Seq<Arg>, name: Seq<char>) -> Option<int> {
    first_index(args, |a: Arg| answers_long(a, name))
}

/// The first argument that a short character selects.
pub open spec fn short_index(args: Seq<Arg>, c: char) -> Option<int> {
    first_index(args, |a: Arg| a.short == Some(c))
}

/// The position of the first `=` in `s`.
pub open spec fn eq_index(s: Seq<char>) -> Option<int> {
    first_index(s, |c: char| c == '=')
}

/// What `long_index` finds is an argument of that name that is not positional.
pub proof fn lemma_long_index(args: Seq<Arg>, name: Seq<char>)
    ensures
        long_index(args, name) matches Some(k) ==> 0 <= k < args.len() && args[k].name@ == name
            && args[k].kind != ArgKind::Positional,
{
    lemma_first_index(args, |a: Arg| answers_long(a, name));
}

/// What `short_index` finds is an argument with that short character.
pub proof fn lemma_short_index(args: Seq<Arg>, c: char)
    ensures
        short_index(args, c) matches Some(k) ==> 0 <= k < args.len() && args[k].short == Some(c),
{
    lemma_first_index(args, |a: Arg| a.short == Some(c));
}

/// What `eq_index` finds is the first `=`.
pub proof fn lemma_eq_index(s: Seq<char>)
    ensures
        match eq_index(s) {
            Some(p) => 0 <= p < s.len() && s[p] == '=' && forall|j: int| 0 <= j < p ==> s[j] != '=',
            None => forall|j: int| 0 <= j < s.len() ==> s[j] != '=',
        },
        forall|p: int|
            0 <= p < s.len() && s[p] == '=' && (forall|j: int| 0 <= j < p ==> s[j] != '=')
                ==> eq_index(s) == Some(p),
{
    lemma_first_index(s, |c: char| c == '=');
    assert forall|p: int|
        0 <= p < s.len() && s[p] == '=' && (forall|j: int| 0 <= j < p ==> s[j] != '=') implies eq_index(
        s,
    ) == Some(p) by {
        assert(is_first_index(s, |c: char| c == '=', p));
    }
}

/// `--name` finds an argument exactly when one that is not positional is called `name`,
/// and what it finds is the first such argument. So each declared flag, counted or value
/// argument is found by its own name, whatever characters the name holds.
pub proof fn law_long_lookup_exact(args: Seq<Arg>, name: Seq<char>)
    ensures
        match long_index(args, name) {
            Some(i) => {
                &&& 0 <= i < args.len()
                &&& args[i].name@ == name
                &&& args[i].kind != ArgKind::Positional
                &&& forall|j: int|
                    0 <= j < i ==> !((#[trigger] args[j]).name@ == name && args[j].kind
                        != ArgKind::Positional)
            },
            None => forall|j: int|
                0 <= j < args.len() ==> !((#[trigger] args[j]).name@ == name && args[j].kind
                    != ArgKind::Positional),
        },
        forall|k: int|
            0 <= k < args.len() && args[k].kind != ArgKind::Positional && args[k].name@ == name
                ==> (long_index(args, name) matches Some(i) && i <= k),
{
    lemma_first_index(args, |a: Arg| answers_long(a, name));
}

/// `-c` finds an argument exactly when one has `c` as its short character, and what it
/// finds is the first such argument.
pub proof fn law_short_lookup_exact(args: Seq<Arg>, c: char)
    ensures
        match short_index(args, c) {
            Some(i) => {
                &&& 0 <= i < args.len()
                &&& args[i].short == Some(c)
                &&& forall|j: int| 0 <= j < i ==> (#[trigger] args[j]).short != Some(c)
            },
            None => forall|j: int| 0 <= j < args.len() ==> (#[trigger] args[j]).short != Some(c),
        },
{
    lemma_first_index(args, |a: Arg| a.short == Some(c));
}

/// What the matches hold before any token is read: each flag is `false` and each
/// counted argument is at 0.
pub open spec fn initial_model(args: Seq<Arg>) -> MatchesModel
    decreases args.len(),
{
    if args.len() == 0 {
        MatchesModel::empty()
    } else {
        let m = initial_model(args.drop_last());
        let a = args.last();
        match a.kind {
            ArgKind::Flag => m.with_flag(a.name@, false),
            ArgKind::Count => m.with_count(a.name@, 0),
            _ => m,
        }
    }
}

/// The token after position `i`, or the empty string when there is none.
pub open spec fn next_token(argv: Seq<Seq<char>>, i: int) -> Seq<char> {
    if 0 <= i + 1 < argv.len() {
        argv[i + 1]
    } else {
        Seq::empty()
    }
}

/// Reads the characters of a short cluster (`-vq`, `-ofile`) from position `ci` on.
/// Returns the matches and whether the token after the cluster was taken as a value.
pub open spec fn cluster(
    args: Seq<Arg>,
    chars: Seq<char>,
    ci: int,
    next: Seq<char>,
    m: MatchesModel,
) -> (MatchesModel, bool)
    decreases chars.len() - ci,
{
    if ci >= chars.len() {
        (m, false)
    } else {
        match short_index(args, chars[ci]) {
            None => cluster(args, chars, ci + 1, next, m),
            Some(k) => {
                let a = args[k];
                match a.kind {
                    ArgKind::Flag => cluster(args, chars, ci + 1, next, m.with_flag(a.name@, true)),
                    ArgKind::Count => cluster(args, chars, ci + 1, next, m.bumped(a.name@)),
                    ArgKind::Value => if ci + 1 < chars.len() {
                        (m.with_value(a.name@, chars.skip(ci + 1)), false)
                    } else {
                        (m.with_value(a.name@, next), true)
                    },
                    ArgKind::Positional => cluster(args, chars, ci + 1, next, m),
                }
            },
        }
    }
}

/// Reads the tokens of one level from position `i` on. Stops at the end, or at a bare
/// token that names a subcommand, whose position it returns.
pub open spec fn scan(app: App, argv: Seq<Seq<char>>, i: int, m: MatchesModel) -> (
    MatchesModel,
    Option<int>,
)
    decreases argv.len() + 1 - i,
{
    if i >= argv.len() {
        (m, None)
    } else {
        let t = argv[i];
        if !(t.len() > 0 && t[0] == '-') {
            if subcommand_index(app.subcommands@, t) is Some {
                (m, Some(i))
            } else {
                scan(app, argv, i + 1, m.with_positional(t))
            }
        } else if t.len() >= 2 && t[1] == '-' {
            let rest = t.skip(2);
            let name = match eq_index(rest) {
                Some(p) => rest.take(p),
                None => rest,
            };
            match long_index(app.args@, name) {
                None => scan(app, argv, i + 1, m),
                Some(k) => {
                    let a = app.args@[k];
                    match a.kind {
                        ArgKind::Flag => scan(app, argv, i + 1, m.with_flag(a.name@, true)),
                        ArgKind::Count => scan(app, argv, i + 1, m.bumped(a.name@)),
                        ArgKind::Value => match eq_index(rest) {
                            Some(p) => scan(app, argv, i + 1, m.with_value(a.name@, rest.skip(p + 1))),
                            None => scan(
                                app,
                                argv,
                                i + 2,
                                m.with_value(a.name@, next_token(argv, i)),
                            ),
                        },
                        ArgKind::Positional => scan(app, argv, i + 1, m),
                    }
                },
            }
        } else {
            let (m2, took) = cluster(app.args@, t.skip(1), 0, next_token(argv, i), m);
            scan(
                app,
                argv,
                if took {
                    i + 2
                } else {
                    i + 1
                },
                m2,
            )
        }
    }
}

/// A subcommand position that `scan` returns lies between where it started and the end,
/// and holds the name of a subcommand.
pub proof fn lemma_scan_stop(app: App, argv: Seq<Seq<char>>, i: int, m: MatchesModel)
    ensures
        scan(app, argv, i, m).1 matches Some(k) ==> i <= k < argv.len() && subcommand_index(
            app.subcommands@,
            argv[k],
        ) is Some,
    decreases argv.len() + 1 - i,
{
    if i < argv.len() {
        let t = argv[i];
        if !(t.len() > 0 && t[0] == '-') {
            if subcommand_index(app.subcommands@, t) is None {
                lemma_scan_stop(app, argv, i + 1, m.with_positional(t));
            }
        } else if t.len() >= 2 && t[1] == '-' {
            let rest = t.skip(2);
            let name = match eq_index(rest) {
                Some(p) => rest.take(p),
                None => rest,
            };
            match long_index(app.args@, name) {
                None => lemma_scan_stop(app, argv, i + 1, m),
                Some(k) => {
                    let a = app.args@[k];
                    match a.kind {
                        ArgKind::Flag => lemma_scan_stop(app, argv, i + 1, m.with_flag(a.name@, true)),
                        ArgKind::Count => lemma_scan_stop(app, argv, i + 1, m.bumped(a.name@)),
                        ArgKind::Value => match eq_index(rest) {
                            Some(p) => lemma_scan_stop(
                                app,
                                argv,
                                i + 1,
                                m.with_value(a.name@, rest.skip(p + 1)),
                            ),
                            None => lemma_scan_stop(
                                app,
                                argv,
                                i + 2,
                                m.with_value(a.name@, next_token(argv, i)),
                            ),
                        },
                        ArgKind::Positional => lemma_scan_stop(app, argv, i + 1, m),
                    }
                },
            }
        } else {
            let (m2, took) = cluster(app.args@, t.skip(1), 0, next_token(argv, i), m);
            lemma_scan_stop(
                app,
                argv,
                if took {
                    i + 2
                } else {
                    i + 1
                },
                m2,
            );
        }
    }
}

/// `--help` or `-h` is among the tokens at positions `start..end`.
pub open spec fn help_between(argv: Seq<Seq<char>>, start: int, end: int) -> bool {
    exists|j: int| start <= j < end && 0 <= j < argv.len() && is_help_token(#[trigger] argv[j])
}

/// What parsing decides: the matches, or the help screen of an application reached
/// through the subcommand names `parents`.
pub enum ParseModel {
    Parsed(MatchesModel),
    Help(App, Seq<Seq<char>>),
}

/// Parses the tokens from position `start` on for `app`. The tokens of this level are
/// those before the subcommand that it selects (all of them when it selects none); when
/// one of them asks for help, the result is this level's help. Otherwise a selected
/// subcommand parses the tokens after its name.
pub open spec fn parse_spec(app: App, parents: Seq<Seq<char>>, argv: Seq<Seq<char>>, start: int) -> ParseModel
    decreases argv.len() - start,
{
    let (m, at) = scan(app, argv, start, initial_model(app.args@));
    let end: int = match at {
        Some(k) => k,
        None => argv.len() as int,
    };
    if help_between(argv, start, end) {
        ParseModel::Help(app, parents)
    } else {
        match at {
            None => ParseModel::Parsed(m),
            Some(k) => {
                proof {
                    lemma_scan_stop(app, argv, start, initial_model(app.args@));
                }
                let sub = app.subcommands@[subcommand_index(app.subcommands@, argv[k]).unwrap()];
                match parse_spec(sub, parents.push(app.name@), argv, k + 1) {
                    ParseModel::Help(a, p) => ParseModel::Help(a, p),
                    ParseModel::Parsed(sm) => ParseModel::Parsed(m.with_sub(sub.name@, sm)),
                }
            },
        }
    }
}

/// The number of characters in the tokens before position `i`.
pub open spec fn chars_before(argv: Seq<Seq<char>>, i: int) -> nat
    decreases i,
{
    if i <= 0 {
        0
    } else {
        chars_before(argv, i - 1) + argv[i - 1].len()
    }
}

/// The tokens hold at most `usize::MAX` characters in all, so no count can overflow.
pub open spec fn fits_in_counts(argv: Seq<Seq<char>>) -> bool {
    chars_before(argv, argv.len() as int) <= usize::MAX
}

proof fn lemma_chars_before_monotone(argv: Seq<Seq<char>>, i: int, j: int)
    requires
        i <= j,
    ensures
        chars_before(argv, i) <= chars_before(argv, j),
    decreases j - i,
{
    if i < j {
        lemma_chars_before_monotone(argv, i, j - 1);
    }
}

/// Every recorded count is at most `b`.
pub open spec fn counts_within(m: MatchesModel, b: int) -> bool {
    forall|k: Seq<char>| #[trigger] m.counts.contains_key(k) ==> m.counts[k] <= b
}

proof fn lemma_initial_counts(args: Seq<Arg>)
    ensures
        counts_within(initial_model(args), 0),
    decreases args.len(),
{
    if args.len() > 0 {
        lemma_initial_counts(args.drop_last());
    }
}

/// The first argument with long name `name` that is not positional.
pub fn find_by_long(app: &App, name: &str) -> (r: Option<Arg>)
    ensures
        match long_index(app.args@, name@) {
            Some(k) => r == Some(app.args@[k]),
            None => r is None,
        },
{
    let ghost p = |a: Arg| answers_long(a, name@);
    let mut i: usize = 0;
    while i < app.args.len()
        invariant
            i <= app.args@.len(),
            p == (|a: Arg| answers_long(a, name@)),
            forall|j: int| 0 <= j < i ==> !p(#[trigger] app.args@[j]),
        decreases app.args@.len() - i,
    {
        let a = app.args[i];
        let positional = match a.kind {
            ArgKind::Positional => true,
            _ => false,
        };
        if str_eq(a.name, name) && !positional {
            proof {
                assert(is_first_index(app.args@, p, i as int));
                lemma_first_index(app.args@, p);
            }
            return Some(a);
        }
        i += 1;
    }
    proof {
        lemma_first_index(app.args@, p);
    }
    None
}

/// The first argument with short character `ch`.
pub fn find_by_short(app: &App, ch: char) -> (r: Option<Arg>)
    ensures
        match short_index(app.args@, ch) {
            Some(k) => r == Some(app.args@[k]),
            None => r is None,
        },
{
    let ghost p = |a: Arg| a.short == Some(ch);
    let mut i: usize = 0;
    while i < app.args.len()
        invariant
            i <= app.args@.len(),
            p == (|a: Arg| a.short == Some(ch)),
            forall|j: int| 0 <= j < i ==> !p(#[trigger] app.args@[j]),
        decreases app.args@.len() - i,
    {
        let a = app.args[i];
        let same = match a.short {
            Some(c) => c == ch,
            None => false,
        };
        if same {
            proof {
                assert(is_first_index(app.args@, p, i as int));
                lemma_first_index(app.args@, p);
            }
            return Some(a);
        }
        i += 1;
    }
    proof {
        lemma_first_index(app.args@, p);
    }
    None
}

/// The position of the first `=` in `s`.
fn find_eq(s: &str) -> (r: Option<usize>)
    ensures
        match eq_index(s@) {
            Some(p) => r == Some(p as usize) && 0 <= p < s@.len(),
            None => r is None,
        },
{
    let ghost p = |c: char| c == '=';
    let n: usize = s.unicode_len();
    let mut i: usize = 0;
    while i < n
        invariant
            n == s@.len(),
            i <= n,
            p == (|c: char| c == '='),
            forall|j: int| 0 <= j < i ==> !p(#[trigger] s@[j]),
        decreases n - i,
    {
        if s.get_char(i) == '=' {
            proof {
                assert(is_first_index(s@, p, i as int));
                lemma_first_index(s@, p);
            }
            return Some(i);
        }
        i += 1;
    }
    proof {
        lemma_first_index(s@, p);
    }
    None
}

fn initial_matches(app: &App) -> (r: Matches)
    ensures
        r@ == initial_model(app.args@),
{
    let mut m = Matches::default();
    let mut i: usize = 0;
    while i < app.args.len()
        invariant
            i <= app.args@.len(),
            m@ == initial_model(app.args@.take(i as int)),
        decreases app.args@.len() - i,
    {
        let a = app.args[i];
        match a.kind {
            ArgKind::Flag => m.set_flag(a.name, false),
            ArgKind::Count => m.set_count(a.name, 0),
            _ => {},
        }
        i += 1;
        proof {
            let t = app.args@.take(i as int);
            assert(t.drop_last() =~= app.args@.take(i - 1));
            assert(t.last() == a);
        }
    }
    assert(app.args@.take(app.args@.len() as int) =~= app.args@);
    m
}

/// Reads a `--name`, `--name=value` or `--name value` token.
fn apply_long(app: &App, argv: &[&str], i: usize, m: &mut Matches) -> (next: usize)
    requires
        i < argv@.len(),
        argv@[i as int]@.len() >= 2,
        argv@[i as int]@[0] == '-',
        argv@[i as int]@[1] == '-',
        fits_in_counts(str_views(argv@)),
        counts_within(old(m)@, chars_before(str_views(argv@), i as int) as int),
    ensures
        i < next <= argv@.len(),
        scan(*app, str_views(argv@), i as int, old(m)@) == scan(
            *app,
            str_views(argv@),
            next as int,
            final(m)@,
        ),
        counts_within(final(m)@, chars_before(str_views(argv@), next as int) as int),
{
    let ghost views = str_views(argv@);
    let tok = argv[i];
    assert(views[i as int] == tok@);
    let n: usize = tok.unicode_len();
    let rest = tok.substring_char(2, n);
    assert(rest@ =~= views[i as int].skip(2));
    let eq = find_eq(rest);
    let ghost spec_name = match eq_index(rest@) {
        Some(p) => rest@.take(p),
        None => rest@,
    };
    let name: &str = match eq {
        Some(p) => {
            let s = rest.substring_char(0, p);
            assert(s@ =~= spec_name);
            s
        },
        None => rest,
    };
    assert(name@ == spec_name);
    proof {
        lemma_chars_before_monotone(views, i + 1, views.len() as int);
        lemma_chars_before_monotone(views, i as int, i + 1);
    }
    match find_by_long(app, name) {
        None => i + 1,
        Some(a) => match a.kind {
            ArgKind::Flag => {
                m.set_flag(a.name, true);
                i + 1
            },
            ArgKind::Count => {
                m.bump_count(a.name);
                i + 1
            },
            ArgKind::Value => match eq {
                Some(p) => {
                    let v = rest.substring_char(p + 1, rest.unicode_len());
                    assert(v@ =~= rest@.skip(p + 1));
                    m.set_value(a.name, String::from_str(v));
                    i + 1
                },
                None => {
                    if i + 1 < argv.len() {
                        assert(views[i + 1] == argv@[i + 1]@);
                        m.set_value(a.name, String::from_str(argv[i + 1]));
                        proof {
                            lemma_chars_before_monotone(views, i + 1, i + 2);
                        }
                        i + 2
                    } else {
                        m.set_value(a.name, String::new());
                        assert(scan(*app, views, i + 2, m@) == (m@, None::<int>));
                        assert(scan(*app, views, argv@.len() as int, m@) == (m@, None::<int>));
                        argv.len()
                    }
                },
            },
            ArgKind::Positional => i + 1,
        },
    }
}

/// Reads a short cluster such as `-v`, `-vvq`, `-ofile` or `-o file`.
fn apply_short(app: &App, argv: &[&str], i: usize, m: &mut Matches) -> (next: usize)
    requires
        i < argv@.len(),
        argv@[i as int]@.len() >= 1,
        argv@[i as int]@[0] == '-',
        !(argv@[i as int]@.len() >= 2 && argv@[i as int]@[1] == '-'),
        fits_in_counts(str_views(argv@)),
        counts_within(old(m)@, chars_before(str_views(argv@), i as int) as int),
    ensures
        i < next <= argv@.len(),
        scan(*app, str_views(argv@), i as int, old(m)@) == scan(
            *app,
            str_views(argv@),
            next as int,
            final(m)@,
        ),
        counts_within(final(m)@, chars_before(str_views(argv@), next as int) as int),
{
    let ghost views = str_views(argv@);
    let tok = argv[i];
    assert(views[i as int] == tok@);
    let n: usize = tok.unicode_len();
    let ghost chars = tok@.skip(1);
    let ghost nt = next_token(views, i as int);
    let ghost m0 = m@;
    let ghost base = chars_before(views, i as int) as int;
    proof {
        lemma_chars_before_monotone(views, i + 1, views.len() as int);
        lemma_chars_before_monotone(views, i as int, i + 1);
        if i + 1 < views.len() {
            lemma_chars_before_monotone(views, i + 1, i + 2);
        }
    }
    let mut ci: usize = 0;
    while ci + 1 < n
        invariant
            n == tok@.len(),
            n >= 1,
            ci + 1 <= n,
            chars == tok@.skip(1),
            views == str_views(argv@),
            views[i as int] == tok@,
            i < argv@.len(),
            base == chars_before(views, i as int),
            chars_before(views, i + 1) == base + n,
            base + n <= usize::MAX,
            m0 == old(m)@,
            nt == next_token(views, i as int),
            tok@[0] == '-',
            !(tok@.len() >= 2 && tok@[1] == '-'),
            argv@.len() <= usize::MAX,
            cluster(app.args@, chars, ci as int, nt, m@) == cluster(app.args@, chars, 0, nt, m0),
            counts_within(m@, base + ci),
        decreases n - ci,
    {
        let ghost mb = m@;
        let ch = tok.get_char(ci + 1);
        assert(chars[ci as int] == ch);
        assert(chars.len() == n - 1);
        match find_by_short(app, ch) {
            None => {},
            Some(a) => match a.kind {
                ArgKind::Flag => m.set_flag(a.name, true),
                ArgKind::Count => m.bump_count(a.name),
                ArgKind::Value => {
                    if ci + 2 < n {
                        let v = tok.substring_char(ci + 2, n);
                        assert(v@ =~= chars.skip(ci + 1));
                        m.set_value(a.name, String::from_str(v));
                        assert(cluster(app.args@, chars, ci as int, nt, mb) == (m@, false));
                        assert(views[i as int].skip(1) == chars);
                        return i + 1;
                    } else if i + 1 < argv.len() {
                        assert(views[i + 1] == argv@[i + 1]@);
                        m.set_value(a.name, String::from_str(argv[i + 1]));
                        assert(nt == views[i + 1]);
                        assert(cluster(app.args@, chars, ci as int, nt, mb) == (m@, true));
                        assert(views[i as int].skip(1) == chars);
                        return i + 2;
                    } else {
                        m.set_value(a.name, String::new());
                        assert(cluster(app.args@, chars, ci as int, nt, mb) == (m@, true));
                        assert(views[i as int].skip(1) == chars);
                        assert(scan(*app, views, i + 2, m@) == (m@, None::<int>));
                        assert(scan(*app, views, argv@.len() as int, m@) == (m@, None::<int>));
                        return argv.len();
                    }
                },
                ArgKind::Positional => {},
            },
        }
        ci += 1;
    }
    i + 1
}

/// Reads the tokens of one level, from `start` on.
fn scan_level(app: &App, argv: &[&str], start: usize, m: &mut Matches) -> (r: Option<usize>)
    requires
        start <= argv@.len(),
        fits_in_counts(str_views(argv@)),
        counts_within(old(m)@, chars_before(str_views(argv@), start as int) as int),
    ensures
        scan(*app, str_views(argv@), start as int, old(m)@) == (final(m)@, match r {
            Some(k) => Some(k as int),
            None => None::<int>,
        }),
{
    let ghost views = str_views(argv@);
    let ghost goal = scan(*app, views, start as int, m@);
    assert(goal == scan(*app, views, start as int, old(m)@));
    let mut i: usize = start;
    while i < argv.len()
        invariant
            start <= i <= argv@.len(),
            views == str_views(argv@),
            fits_in_counts(views),
            counts_within(m@, chars_before(views, i as int) as int),
            scan(*app, views, i as int, m@) == goal,
            goal == scan(*app, views, start as int, old(m)@),
        decreases argv@.len() - i,
    {
        let tok = argv[i];
        assert(views[i as int] == tok@);
        let n: usize = tok.unicode_len();
        if !(n > 0 && tok.get_char(0) == '-') {
            if app.find_subcommand(tok).is_some() {
                assert(subcommand_index(app.subcommands@, tok@) is Some);
                assert(scan(*app, views, i as int, m@) == (m@, Some(i as int)));
                return Some(i);
            }
            m.push_positional(String::from_str(tok));
            proof {
                lemma_chars_before_monotone(views, i as int, i + 1);
            }
            i += 1;
        } else if n >= 2 && tok.get_char(1) == '-' {
            i = apply_long(app, argv, i, m);
        } else {
            i = apply_short(app, argv, i, m);
        }
    }
    None
}

/// Whether `t` is `--help` or `-h`.
fn is_help(t: &str) -> (r: bool)
    ensures
        r == is_help_token(t@),
{
    str_eq(t, "--help") || str_eq(t, "-h")
}

fn help_among(argv: &[&str], start: usize, end: usize) -> (r: bool)
    requires
        start <= end <= argv@.len(),
    ensures
        r == help_between(str_views(argv@), start as int, end as int),
{
    let ghost views = str_views(argv@);
    let mut j: usize = start;
    while j < end
        invariant
            start <= j <= end <= argv@.len(),
            views == str_views(argv@),
            forall|q: int| start <= q < j ==> !is_help_token(#[trigger] views[q]),
        decreases end - j,
    {
        assert(views[j as int] == argv@[j as int]@);
        if is_help(argv[j]) {
            return true;
        }
        j += 1;
    }
    false
}

/// What a parse returns: the matches, or the help screen that was asked for.
pub enum ParseOutcome {
    Parsed(Matches),
    Help(String),
}

/// The outcome `r` is what `model` decides: the same matches, or the help text of
/// the application and parents that the model names.
pub open spec fn outcome_is(r: ParseOutcome, model: ParseModel) -> bool {
    match r {
        ParseOutcome::Parsed(m) => model == ParseModel::Parsed(m@),
        ParseOutcome::Help(t) => match model {
            ParseModel::Help(a, ps) => t@ == help_spec(a, ps),
            ParseModel::Parsed(_) => false,
        },
    }
}

fn extended(parents: &[&'static str], name: &'static str) -> (r: Vec<&'static str>)
    ensures
        r@ == parents@.push(name),
{
    let mut r: Vec<&'static str> = Vec::new();
    let mut i: usize = 0;
    while i < parents.len()
        invariant
            i <= parents@.len(),
            r@ == parents@.take(i as int),
        decreases parents@.len() - i,
    {
        r.push(parents[i]);
        i += 1;
        assert(r@ =~= parents@.take(i as int));
    }
    r.push(name);
    assert(r@ =~= parents@.push(name));
    r
}

fn parse_level(app: &App, argv: &[&str], start: usize, parents: &[&'static str]) -> (r: ParseOutcome)
    requires
        start <= argv@.len(),
        fits_in_counts(str_views(argv@)),
    ensures
        outcome_is(r, parse_spec(*app, str_views(parents@), str_views(argv@), start as int)),
    decreases argv@.len() - start,
{
    let ghost views = str_views(argv@);
    let mut m = initial_matches(app);
    proof {
        lemma_initial_counts(app.args@);
    }
    let at = scan_level(app, argv, start, &mut m);
    proof {
        lemma_scan_stop(*app, views, start as int, initial_model(app.args@));
    }
    let end: usize = match at {
        Some(k) => k,
        None => argv.len(),
    };
    if help_among(argv, start, end) {
        return ParseOutcome::Help(app.help_text_with_parents(parents));
    }
    match at {
        None => ParseOutcome::Parsed(m),
        Some(k) => {
            assert(views[k as int] == argv@[k as int]@);
            match app.find_subcommand(argv[k]) {
                Some(sub) => {
                    let sub_parents = extended(parents, app.name);
                    assert(str_views(sub_parents@) =~= str_views(parents@).push(app.name@));
                    match parse_level(sub, argv, k + 1, sub_parents.as_slice()) {
                        ParseOutcome::Help(t) => ParseOutcome::Help(t),
                        ParseOutcome::Parsed(sm) => {
                            m.set_sub(sub.name, sm);
                            ParseOutcome::Parsed(m)
                        },
                    }
                },
                None => {
                    proof {
                        assert(false);
                    }
                    ParseOutcome::Parsed(m)
                },
            }
        },
    }
}

/// Parses `argv` for `app`, reached through the subcommand names `parents`: the matches,
/// or the help screen when a level's tokens hold `--help` or `-h`.
pub fn parse_app_outcome(app: &App, argv: &[&str], parents: &[&'static str]) -> (r: ParseOutcome)
    requires
        fits_in_counts(str_views(argv@)),
    ensures
        outcome_is(r, parse_spec(*app, str_views(parents@), str_views(argv@), 0)),
{
    parse_level(app, argv, 0, parents)
}

/// Parses `argv` for `app`, reached through the subcommand names `parents`, where no
/// level asks for help.
pub fn parse_app(app: &App, argv: &[&str], parents: &[&'static str]) -> (r: Matches)
    requires
        fits_in_counts(str_views(argv@)),
        parse_spec(*app, str_views(parents@), str_views(argv@), 0) is Parsed,
    ensures
        parse_spec(*app, str_views(parents@), str_views(argv@), 0) == ParseModel::Parsed(r@),
{
    match parse_level(app, argv, 0, parents) {
        ParseOutcome::Parsed(m) => m,
        ParseOutcome::Help(_) => {
            proof {
                assert(false);
            }
            Matches::default()
        },
    }
}

impl App {
    /// Parses `argv` (the arguments after the program name), where no level asks for help.
    pub fn parse_args(self, argv: &[&str]) -> (r: Matches)
        requires
            fits_in_counts(str_views(argv@)),
            parse_spec(self, Seq::empty(), str_views(argv@), 0) is Parsed,
        ensures
            parse_spec(self, Seq::empty(), str_views(argv@), 0) == ParseModel::Parsed(r@),
    {
        let none: Vec<&'static str> = Vec::new();
        assert(str_views(none@) =~= Seq::<Seq<char>>::empty());
        parse_app(&self, argv, none.as_slice())
    }

    /// Parses `argv` (the arguments after the program name): the matches, or the help
    /// screen when a level's tokens hold `--help` or `-h`.
    pub fn try_parse_args(&self, argv: &[&str]) -> (r: ParseOutcome)
        requires
            fits_in_counts(str_views(argv@)),
        ensures
            outcome_is(r, parse_spec(*self, Seq::empty(), str_views(argv@), 0)),
    {
        let none: Vec<&'static str> = Vec::new();
        assert(str_views(none@) =~= Seq::<Seq<char>>::empty());
        parse_app_outcome(self, argv, none.as_slice())
    }
}

} // verus!
