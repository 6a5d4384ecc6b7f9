//! Properties of parsing that hold over all inputs.
use vstd::prelude::*;
use crate::app::{first_index, lemma_first_index, subcommand_index, App};
use crate::arg::{Arg, ArgKind};
use crate::matches::MatchesModel;
use crate::parse::{
    cluster, eq_index, help_between, initial_model, is_help_token, lemma_eq_index,
    lemma_long_index, lemma_scan_stop, lemma_short_index, long_index, next_token, parse_spec,
    scan, short_index, ParseModel,
};

verus! {

/// No argument of the list is called `name`.
pub open spec fn undeclared(args: Seq<Arg>, name: Seq<char>) -> bool {
    forall|i: int| 0 <= i < args.len() ==> (#[trigger] args[i]).name@ != name
}

/// Nothing is recorded under `name`.
pub open spec fn untouched(m: MatchesModel, name: Seq<char>) -> bool {
    &&& !m.flags.contains_key(name)
    &&& !m.counts.contains_key(name)
    &&& !m.values.contains_key(name)
}

proof fn lemma_initial_untouched(args: Seq<Arg>, name: Seq<char>)
    requires
        undeclared(args, name),
    ensures
        untouched(initial_model(args), name),
    decreases args.len(),
{
    if args.len() > 0 {
        assert(args.last() == args[args.len() - 1]);
        assert(undeclared(args.drop_last(), name)) by {
            assert forall|i: int| 0 <= i < args.drop_last().len() implies (
            #[trigger] args.drop_last()[i]).name@ != name by {
                assert(args.drop_last()[i] == args[i]);
            }
        }
        lemma_initial_untouched(args.drop_last(), name);
    }
}

proof fn lemma_cluster_untouched(
    args: Seq<Arg>,
    chars: Seq<char>,
    ci: int,
    next: Seq<char>,
    m: MatchesModel,
    name: Seq<char>,
)
    requires
        undeclared(args, name),
        untouched(m, name),
    ensures
        untouched(cluster(args, chars, ci, next, m).0, name),
    decreases chars.len() - ci,
{
    if ci < chars.len() {
        lemma_short_index(args, chars[ci]);
        match short_index(args, chars[ci]) {
            None => lemma_cluster_untouched(args, chars, ci + 1, next, m, name),
            Some(k) => {
                let a = args[k];
                match a.kind {
                    ArgKind::Flag => lemma_cluster_untouched(
                        args,
                        chars,
                        ci + 1,
                        next,
                        m.with_flag(a.name@, true),
                        name,
                    ),
                    ArgKind::Count => lemma_cluster_untouched(
                        args,
                        chars,
                        ci + 1,
                        next,
                        m.bumped(a.name@),
                        name,
                    ),
                    ArgKind::Value => {},
                    ArgKind::Positional => lemma_cluster_untouched(args, chars, ci + 1, next, m, name),
                }
            },
        }
    }
}

proof fn lemma_scan_untouched(app: App, argv: Seq<Seq<char>>, i: int, m: MatchesModel, name: Seq<char>)
    requires
        undeclared(app.args@, name),
        untouched(m, name),
    ensures
        untouched(scan(app, argv, i, m).0, name),
    decreases argv.len() + 1 - i,
{
    if i < argv.len() {
        let t = argv[i];
        if !(t.len() > 0 && t[0] == '-') {
            if subcommand_index(app.subcommands@, t) is None {
                lemma_scan_untouched(app, argv, i + 1, m.with_positional(t), name);
            }
        } else if t.len() >= 2 && t[1] == '-' {
            let rest = t.skip(2);
            let lname = match eq_index(rest) {
                Some(p) => rest.take(p),
                None => rest,
            };
            lemma_long_index(app.args@, lname);
            match long_index(app.args@, lname) {
                None => lemma_scan_untouched(app, argv, i + 1, m, name),
                Some(k) => {
                    let a = app.args@[k];
                    match a.kind {
                        ArgKind::Flag => lemma_scan_untouched(
                            app,
                            argv,
                            i + 1,
                            m.with_flag(a.name@, true),
                            name,
                        ),
                        ArgKind::Count => lemma_scan_untouched(
                            app,
                            argv,
                            i + 1,
                            m.bumped(a.name@),
                            name,
                        ),
                        ArgKind::Value => match eq_index(rest) {
                            Some(p) => lemma_scan_untouched(
                                app,
                                argv,
                                i + 1,
                                m.with_value(a.name@, rest.skip(p + 1)),
                                name,
                            ),
                            None => lemma_scan_untouched(
                                app,
                                argv,
                                i + 2,
                                m.with_value(a.name@, next_token(argv, i)),
                                name,
                            ),
                        },
                        ArgKind::Positional => lemma_scan_untouched(app, argv, i + 1, m, name),
                    }
                },
            }
        } else {
            let next = next_token(argv, i);
            lemma_cluster_untouched(app.args@, t.skip(1), 0, next, m, name);
            let (m2, took) = cluster(app.args@, t.skip(1), 0, next, m);
            lemma_scan_untouched(
                app,
                argv,
                if took {
                    i + 2
                } else {
                    i + 1
                },
                m2,
                name,
            );
        }
    }
}

/// A name that no argument of the application declares is never recorded: asking for it
/// answers `false`, 0 and no value, whatever the command line.
pub proof fn law_undeclared_names_unset(
    app: App,
    parents: Seq<Seq<char>>,
    argv: Seq<Seq<char>>,
    name: Seq<char>,
)
    requires
        undeclared(app.args@, name),
    ensures
        parse_spec(app, parents, argv, 0) matches ParseModel::Parsed(m) ==> {
            &&& !m.flag_of(name)
            &&& m.count_of(name) == 0
            &&& m.value_of(name) is None
        },
{
    lemma_initial_untouched(app.args@, name);
    lemma_scan_untouched(app, argv, 0, initial_model(app.args@), name);
}

/// When the first token names a subcommand, the rest of the command line belongs to it:
/// a help request there is that subcommand's help, reached through this application's
/// name; otherwise its matches stand under its name, and nothing else is read at this
/// level.
pub proof fn law_subcommand_dispatch(app: App, parents: Seq<Seq<char>>, argv: Seq<Seq<char>>)
    requires
        argv.len() > 0,
        !(argv[0].len() > 0 && argv[0][0] == '-'),
        subcommand_index(app.subcommands@, argv[0]) is Some,
    ensures
        ({
            let sub = app.subcommands@[subcommand_index(app.subcommands@, argv[0]).unwrap()];
            parse_spec(app, parents, argv, 0) == match parse_spec(
                sub,
                parents.push(app.name@),
                argv,
                1,
            ) {
                ParseModel::Help(a, p) => ParseModel::Help(a, p),
                ParseModel::Parsed(sm) => ParseModel::Parsed(
                    initial_model(app.args@).with_sub(sub.name@, sm),
                ),
            }
        }),
{
    assert(scan(app, argv, 0, initial_model(app.args@)) == (initial_model(app.args@), Some(0int)));
    assert(!help_between(argv, 0, 0));
}

/// The token starts with `-`.
pub open spec fn starts_with_dash(t: Seq<char>) -> bool {
    t.len() > 0 && t[0] == '-'
}

/// The name in a `--name` or `--name=value` token.
pub open spec fn long_name_of(t: Seq<char>) -> Seq<char> {
    let rest = t.skip(2);
    match eq_index(rest) {
        Some(p) => rest.take(p),
        None => rest,
    }
}

/// The argument at `k`, when there is one, is of kind `kind`.
pub open spec fn picks_kind(args: Seq<Arg>, k: Option<int>, kind: ArgKind) -> bool {
    k matches Some(j) && 0 <= j < args.len() && args[j].kind == kind
}

/// No character of the cluster from `ci` on selects a value argument.
pub open spec fn cluster_without_values(args: Seq<Arg>, chars: Seq<char>, ci: int) -> bool {
    forall|j: int|
        ci <= j < chars.len() ==> !picks_kind(args, #[trigger] short_index(args, chars[j]), ArgKind::Value)
}

/// The token is read on its own: a bare token names no subcommand, and no `--name` token
/// or short character selects a value argument.
pub open spec fn reads_alone(app: App, t: Seq<char>) -> bool {
    if !starts_with_dash(t) {
        subcommand_index(app.subcommands@, t) is None
    } else if t.len() >= 2 && t[1] == '-' {
        !picks_kind(app.args@, long_index(app.args@, long_name_of(t)), ArgKind::Value)
    } else {
        cluster_without_values(app.args@, t.skip(1), 0)
    }
}

/// Every token from position `i` on is read on its own.
pub open spec fn plain_command_line(app: App, argv: Seq<Seq<char>>, i: int) -> bool {
    forall|j: int| i <= j < argv.len() ==> reads_alone(app, #[trigger] argv[j])
}

/// The argument at `k`, when there is one, is of kind `kind` and called `name`.
pub open spec fn picks(args: Seq<Arg>, k: Option<int>, kind: ArgKind, name: Seq<char>) -> bool {
    k matches Some(j) && 0 <= j < args.len() && args[j].kind == kind && args[j].name@ == name
}

/// How many characters of a short cluster, from `ci` on, select an argument of kind
/// `kind` called `name`.
pub open spec fn short_hits(args: Seq<Arg>, chars: Seq<char>, ci: int, kind: ArgKind, name: Seq<char>) -> nat
    decreases chars.len() - ci,
{
    if ci >= chars.len() {
        0
    } else {
        (if picks(args, short_index(args, chars[ci]), kind, name) {
            1nat
        } else {
            0nat
        }) + short_hits(args, chars, ci + 1, kind, name)
    }
}

/// How many times one token selects an argument of kind `kind` called `name`.
pub open spec fn token_hits(args: Seq<Arg>, t: Seq<char>, kind: ArgKind, name: Seq<char>) -> nat {
    if !starts_with_dash(t) {
        0
    } else if t.len() >= 2 && t[1] == '-' {
        if picks(args, long_index(args, long_name_of(t)), kind, name) {
            1
        } else {
            0
        }
    } else {
        short_hits(args, t.skip(1), 0, kind, name)
    }
}

/// How many times the tokens from position `i` on select an argument of kind `kind`
/// called `name`.
pub open spec fn hits(args: Seq<Arg>, argv: Seq<Seq<char>>, i: int, kind: ArgKind, name: Seq<char>) -> nat
    decreases argv.len() - i,
{
    if i >= argv.len() {
        0
    } else {
        token_hits(args, argv[i], kind, name) + hits(args, argv, i + 1, kind, name)
    }
}

/// The tokens from position `i` on that do not start with `-`, in order.
pub open spec fn bare_tokens(argv: Seq<Seq<char>>, i: int) -> Seq<Seq<char>>
    decreases argv.len() - i,
{
    if i >= argv.len() {
        Seq::empty()
    } else if starts_with_dash(argv[i]) {
        bare_tokens(argv, i + 1)
    } else {
        seq![argv[i]] + bare_tokens(argv, i + 1)
    }
}

proof fn lemma_initial_shape(args: Seq<Arg>, name: Seq<char>)
    ensures
        initial_model(args).positionals == Seq::<Seq<char>>::empty(),
        initial_model(args).values == Map::<Seq<char>, Seq<char>>::empty(),
        initial_model(args).sub is None,
        initial_model(args).count_of(name) == 0,
        !initial_model(args).flag_of(name),
    decreases args.len(),
{
    if args.len() > 0 {
        lemma_initial_shape(args.drop_last(), name);
    }
}

proof fn lemma_cluster_plain(
    args: Seq<Arg>,
    chars: Seq<char>,
    ci: int,
    next: Seq<char>,
    m: MatchesModel,
    name: Seq<char>,
)
    requires
        0 <= ci,
        cluster_without_values(args, chars, ci),
    ensures
        ({
            let r = cluster(args, chars, ci, next, m);
            &&& !r.1
            &&& r.0.positionals == m.positionals
            &&& r.0.values == m.values
            &&& r.0.sub == m.sub
            &&& r.0.count_of(name) == m.count_of(name) + short_hits(
                args,
                chars,
                ci,
                ArgKind::Count,
                name,
            )
            &&& r.0.flag_of(name) == (m.flag_of(name) || short_hits(
                args,
                chars,
                ci,
                ArgKind::Flag,
                name,
            ) > 0)
        }),
    decreases chars.len() - ci,
{
    if ci < chars.len() {
        lemma_short_index(args, chars[ci]);
        match short_index(args, chars[ci]) {
            None => lemma_cluster_plain(args, chars, ci + 1, next, m, name),
            Some(k) => {
                let a = args[k];
                match a.kind {
                    ArgKind::Flag => lemma_cluster_plain(
                        args,
                        chars,
                        ci + 1,
                        next,
                        m.with_flag(a.name@, true),
                        name,
                    ),
                    ArgKind::Count => lemma_cluster_plain(
                        args,
                        chars,
                        ci + 1,
                        next,
                        m.bumped(a.name@),
                        name,
                    ),
                    ArgKind::Value => {},
                    ArgKind::Positional => lemma_cluster_plain(args, chars, ci + 1, next, m, name),
                }
            },
        }
    }
}

proof fn lemma_scan_plain(app: App, argv: Seq<Seq<char>>, i: int, m: MatchesModel, name: Seq<char>)
    requires
        plain_command_line(app, argv, i),
        0 <= i,
    ensures
        ({
            let r = scan(app, argv, i, m);
            &&& r.1 is None
            &&& r.0.positionals == m.positionals + bare_tokens(argv, i)
            &&& r.0.values == m.values
            &&& r.0.sub == m.sub
            &&& r.0.count_of(name) == m.count_of(name) + hits(
                app.args@,
                argv,
                i,
                ArgKind::Count,
                name,
            )
            &&& r.0.flag_of(name) == (m.flag_of(name) || hits(
                app.args@,
                argv,
                i,
                ArgKind::Flag,
                name,
            ) > 0)
        }),
    decreases argv.len() + 1 - i,
{
    if i >= argv.len() {
        assert(m.positionals + bare_tokens(argv, i) =~= m.positionals);
    } else {
        let t = argv[i];
        assert(reads_alone(app, t));
        if !(t.len() > 0 && t[0] == '-') {
            lemma_scan_plain(app, argv, i + 1, m.with_positional(t), name);
            assert(m.with_positional(t).positionals + bare_tokens(argv, i + 1) =~= m.positionals
                + bare_tokens(argv, i));
        } else if t.len() >= 2 && t[1] == '-' {
            let lname = long_name_of(t);
            lemma_long_index(app.args@, lname);
            match long_index(app.args@, lname) {
                None => lemma_scan_plain(app, argv, i + 1, m, name),
                Some(k) => {
                    let a = app.args@[k];
                    match a.kind {
                        ArgKind::Flag => lemma_scan_plain(
                            app,
                            argv,
                            i + 1,
                            m.with_flag(a.name@, true),
                            name,
                        ),
                        ArgKind::Count => lemma_scan_plain(
                            app,
                            argv,
                            i + 1,
                            m.bumped(a.name@),
                            name,
                        ),
                        ArgKind::Value => {},
                        ArgKind::Positional => lemma_scan_plain(app, argv, i + 1, m, name),
                    }
                },
            }
        } else {
            let next = next_token(argv, i);
            lemma_cluster_plain(app.args@, t.skip(1), 0, next, m, name);
            let (m2, took) = cluster(app.args@, t.skip(1), 0, next, m);
            lemma_scan_plain(app, argv, i + 1, m2, name);
        }
    }
}

/// On a command line whose tokens are each read on their own (no bare token names a
/// subcommand, no token or short character selects a value argument) and that holds no
/// `--help` or `-h`: the positional arguments are the tokens that do not start with `-`,
/// in order; a counted argument counts every token and every short character that names
/// it (`-vvv` counts three); a flag is set exactly when some token or short character
/// names it; no value and no subcommand is recorded.
pub proof fn law_plain_command_line(
    app: App,
    parents: Seq<Seq<char>>,
    argv: Seq<Seq<char>>,
    name: Seq<char>,
)
    requires
        plain_command_line(app, argv, 0),
        !help_between(argv, 0, argv.len() as int),
    ensures
        parse_spec(app, parents, argv, 0) matches ParseModel::Parsed(m) && {
            &&& m.positionals == bare_tokens(argv, 0)
            &&& m.count_of(name) == hits(app.args@, argv, 0, ArgKind::Count, name)
            &&& m.flag_of(name) == (hits(app.args@, argv, 0, ArgKind::Flag, name) > 0)
            &&& m.values == Map::<Seq<char>, Seq<char>>::empty()
            &&& m.sub is None
        },
{
    lemma_initial_shape(app.args@, name);
    lemma_scan_plain(app, argv, 0, initial_model(app.args@), name);
    assert(Seq::<Seq<char>>::empty() + bare_tokens(argv, 0) =~= bare_tokens(argv, 0));
}

/// Where the tokens of a level end: at the token that selects a subcommand, or at the
/// end of the command line.
pub open spec fn level_end(app: App, argv: Seq<Seq<char>>, start: int) -> int {
    match scan(app, argv, start, initial_model(app.args@)).1 {
        Some(k) => k,
        None => argv.len() as int,
    }
}

/// A level without subcommands owns every token after `start`.
pub proof fn lemma_level_end_without_subcommands(app: App, argv: Seq<Seq<char>>, start: int)
    requires
        app.subcommands@.len() == 0,
    ensures
        level_end(app, argv, start) == argv.len(),
{
    crate::parse::lemma_scan_stop(app, argv, start, initial_model(app.args@));
}

/// `--help` or `-h` among the tokens of a level (even one taken as a value) answers
/// with the help of that level, reached through `parents`.
pub proof fn law_help_requested(app: App, parents: Seq<Seq<char>>, argv: Seq<Seq<char>>, start: int)
    requires
        help_between(argv, start, level_end(app, argv, start)),
    ensures
        parse_spec(app, parents, argv, start) == ParseModel::Help(app, parents),
{
}

/// `-h` or `--help` among the tokens of a subcommand asks for that subcommand's help,
/// reached through the application's name: help is scoped to the level where it is given.
pub proof fn law_help_scoped_to_subcommand(app: App, parents: Seq<Seq<char>>, argv: Seq<Seq<char>>)
    requires
        argv.len() > 0,
        !(argv[0].len() > 0 && argv[0][0] == '-'),
        subcommand_index(app.subcommands@, argv[0]) is Some,
        help_between(
            argv,
            1,
            level_end(
                app.subcommands@[subcommand_index(app.subcommands@, argv[0]).unwrap()],
                argv,
                1,
            ),
        ),
    ensures
        parse_spec(app, parents, argv, 0) == ParseModel::Help(
            app.subcommands@[subcommand_index(app.subcommands@, argv[0]).unwrap()],
            parents.push(app.name@),
        ),
{
    let sub = app.subcommands@[subcommand_index(app.subcommands@, argv[0]).unwrap()];
    law_subcommand_dispatch(app, parents, argv);
    law_help_requested(sub, parents.push(app.name@), argv, 1);
}

/// What `scan` stops at, moved `d` positions on.
pub open spec fn moved(at: Option<int>, d: int) -> Option<int> {
    match at {
        Some(k) => Some(k + d),
        None => None,
    }
}

/// Tokens put before the command line move where `scan` stops and change nothing else.
proof fn lemma_scan_shift(app: App, pre: Seq<Seq<char>>, a: Seq<Seq<char>>, i: int, m: MatchesModel)
    requires
        0 <= i,
    ensures
        scan(app, pre + a, i + pre.len(), m).0 == scan(app, a, i, m).0,
        scan(app, pre + a, i + pre.len(), m).1 == moved(scan(app, a, i, m).1, pre.len() as int),
    decreases a.len() + 1 - i,
{
    let b = pre + a;
    let p = pre.len() as int;
    if i < a.len() {
        assert(b[i + p] == a[i]);
        if i + 1 < a.len() {
            assert(b[i + p + 1] == a[i + 1]);
        }
        assert(next_token(b, i + p) == next_token(a, i));
        let t = a[i];
        if !(t.len() > 0 && t[0] == '-') {
            if subcommand_index(app.subcommands@, t) is None {
                lemma_scan_shift(app, pre, a, i + 1, m.with_positional(t));
            }
        } else if t.len() >= 2 && t[1] == '-' {
            let rest = t.skip(2);
            let name = long_name_of(t);
            match long_index(app.args@, name) {
                None => lemma_scan_shift(app, pre, a, i + 1, m),
                Some(k) => {
                    let arg = app.args@[k];
                    match arg.kind {
                        ArgKind::Flag => lemma_scan_shift(app, pre, a, i + 1, m.with_flag(arg.name@, true)),
                        ArgKind::Count => lemma_scan_shift(app, pre, a, i + 1, m.bumped(arg.name@)),
                        ArgKind::Value => match eq_index(rest) {
                            Some(q) => lemma_scan_shift(
                                app,
                                pre,
                                a,
                                i + 1,
                                m.with_value(arg.name@, rest.skip(q + 1)),
                            ),
                            None => lemma_scan_shift(
                                app,
                                pre,
                                a,
                                i + 2,
                                m.with_value(arg.name@, next_token(a, i)),
                            ),
                        },
                        ArgKind::Positional => lemma_scan_shift(app, pre, a, i + 1, m),
                    }
                },
            }
        } else {
            let (m2, took) = cluster(app.args@, t.skip(1), 0, next_token(a, i), m);
            lemma_scan_shift(
                app,
                pre,
                a,
                if took {
                    i + 2
                } else {
                    i + 1
                },
                m2,
            );
        }
    }
}

/// Parsing from a position reads only the tokens from there on: tokens put before the
/// command line leave the result of parsing from the same token unchanged.
pub proof fn law_parse_ignores_earlier_tokens(
    app: App,
    parents: Seq<Seq<char>>,
    pre: Seq<Seq<char>>,
    argv: Seq<Seq<char>>,
    start: int,
)
    requires
        0 <= start,
    ensures
        parse_spec(app, parents, pre + argv, start + pre.len()) == parse_spec(app, parents, argv, start),
    decreases argv.len() - start,
{
    let b = pre + argv;
    let p = pre.len() as int;
    let init = initial_model(app.args@);
    lemma_scan_shift(app, pre, argv, start, init);
    lemma_scan_stop(app, argv, start, init);
    let at = scan(app, argv, start, init).1;
    let end: int = match at {
        Some(k) => k,
        None => argv.len() as int,
    };
    assert(help_between(b, start + p, end + p) == help_between(argv, start, end)) by {
        if help_between(argv, start, end) {
            let j = choose|j: int|
                start <= j < end && 0 <= j < argv.len() && is_help_token(#[trigger] argv[j]);
            assert(b[j + p] == argv[j]);
        }
        if help_between(b, start + p, end + p) {
            let j = choose|j: int|
                start + p <= j < end + p && 0 <= j < b.len() && is_help_token(#[trigger] b[j]);
            assert(b[j] == argv[j - p]);
        }
    }
    if let Some(k) = at {
        assert(b[k + p] == argv[k]);
        let sub = app.subcommands@[subcommand_index(app.subcommands@, argv[k]).unwrap()];
        law_parse_ignores_earlier_tokens(sub, parents.push(app.name@), pre, argv, k + 1);
    }
}

proof fn lemma_cluster_next_free(
    args: Seq<Arg>,
    chars: Seq<char>,
    ci: int,
    n1: Seq<char>,
    n2: Seq<char>,
    m: MatchesModel,
)
    requires
        0 <= ci,
        cluster_without_values(args, chars, ci),
    ensures
        cluster(args, chars, ci, n1, m) == cluster(args, chars, ci, n2, m),
        !cluster(args, chars, ci, n1, m).1,
    decreases chars.len() - ci,
{
    if ci < chars.len() {
        lemma_short_index(args, chars[ci]);
        match short_index(args, chars[ci]) {
            None => lemma_cluster_next_free(args, chars, ci + 1, n1, n2, m),
            Some(k) => {
                let a = args[k];
                match a.kind {
                    ArgKind::Flag => lemma_cluster_next_free(
                        args,
                        chars,
                        ci + 1,
                        n1,
                        n2,
                        m.with_flag(a.name@, true),
                    ),
                    ArgKind::Count => lemma_cluster_next_free(
                        args,
                        chars,
                        ci + 1,
                        n1,
                        n2,
                        m.bumped(a.name@),
                    ),
                    ArgKind::Value => {},
                    ArgKind::Positional => lemma_cluster_next_free(args, chars, ci + 1, n1, n2, m),
                }
            },
        }
    }
}

/// When the tokens before position `k` are each read on their own, `scan` reads them as
/// it would read them alone, and goes on from `k` with what they gave.
proof fn lemma_scan_prefix(app: App, argv: Seq<Seq<char>>, k: int, i: int, m: MatchesModel)
    requires
        0 <= i <= k <= argv.len(),
        forall|j: int| i <= j < k ==> reads_alone(app, #[trigger] argv[j]),
    ensures
        scan(app, argv.take(k), i, m).1 is None,
        scan(app, argv, i, m) == scan(app, argv, k, scan(app, argv.take(k), i, m).0),
    decreases k - i,
{
    let s = argv.take(k);
    if i < k {
        assert(s[i] == argv[i]);
        let t = argv[i];
        assert(reads_alone(app, t));
        if !(t.len() > 0 && t[0] == '-') {
            lemma_scan_prefix(app, argv, k, i + 1, m.with_positional(t));
        } else if t.len() >= 2 && t[1] == '-' {
            let name = long_name_of(t);
            lemma_long_index(app.args@, name);
            match long_index(app.args@, name) {
                None => lemma_scan_prefix(app, argv, k, i + 1, m),
                Some(kk) => {
                    let a = app.args@[kk];
                    match a.kind {
                        ArgKind::Flag => lemma_scan_prefix(app, argv, k, i + 1, m.with_flag(a.name@, true)),
                        ArgKind::Count => lemma_scan_prefix(app, argv, k, i + 1, m.bumped(a.name@)),
                        ArgKind::Value => {},
                        ArgKind::Positional => lemma_scan_prefix(app, argv, k, i + 1, m),
                    }
                },
            }
        } else {
            lemma_cluster_next_free(app.args@, t.skip(1), 0, next_token(argv, i), next_token(s, i), m);
            let (m2, took) = cluster(app.args@, t.skip(1), 0, next_token(argv, i), m);
            lemma_scan_prefix(app, argv, k, i + 1, m2);
        }
    }
}

/// A subcommand selected at any position: when every token before position `k` is read
/// on its own and none of them asks for help, and the token at `k` is a bare token that
/// names a subcommand, those tokens parse as a command line of their own, and the
/// subcommand parses the tokens after its name. The positional arguments of this level
/// are the tokens before `k` that do not start with `-`. A help request after the name is
/// the subcommand's help, reached through this application's name; otherwise the
/// subcommand's matches stand under its name beside what the tokens before it gave.
pub proof fn law_subcommand_dispatch_at(
    app: App,
    parents: Seq<Seq<char>>,
    argv: Seq<Seq<char>>,
    k: int,
)
    requires
        0 <= k < argv.len(),
        plain_command_line(app, argv.take(k), 0),
        !help_between(argv, 0, k),
        !starts_with_dash(argv[k]),
        subcommand_index(app.subcommands@, argv[k]) is Some,
    ensures
        parse_spec(app, parents, argv.take(k), 0) is Parsed,
        parse_spec(app, parents, argv.take(k), 0)->Parsed_0.positionals == bare_tokens(argv.take(k), 0),
        ({
            let sub = app.subcommands@[subcommand_index(app.subcommands@, argv[k]).unwrap()];
            let m0 = parse_spec(app, parents, argv.take(k), 0)->Parsed_0;
            parse_spec(app, parents, argv, 0) == match parse_spec(
                sub,
                parents.push(app.name@),
                argv.skip(k + 1),
                0,
            ) {
                ParseModel::Help(a, p) => ParseModel::Help(a, p),
                ParseModel::Parsed(sm) => ParseModel::Parsed(m0.with_sub(sub.name@, sm)),
            }
        }),
{
    let s = argv.take(k);
    let init = initial_model(app.args@);
    assert forall|j: int| 0 <= j < k implies reads_alone(app, #[trigger] argv[j]) by {
        assert(s[j] == argv[j]);
    }
    lemma_scan_prefix(app, argv, k, 0, init);
    let m0 = scan(app, s, 0, init).0;
    assert(scan(app, argv, k, m0) == (m0, Some(k)));
    assert(!help_between(s, 0, k)) by {
        if help_between(s, 0, k) {
            let j = choose|j: int| 0 <= j < k && 0 <= j < s.len() && is_help_token(#[trigger] s[j]);
            assert(s[j] == argv[j]);
        }
    }
    assert(parse_spec(app, parents, s, 0) == ParseModel::Parsed(m0));
    law_plain_command_line(app, parents, s, Seq::empty());
    let sub = app.subcommands@[subcommand_index(app.subcommands@, argv[k]).unwrap()];
    law_parse_ignores_earlier_tokens(sub, parents.push(app.name@), argv.take(k + 1), argv.skip(k + 1), 0);
    assert(argv.take(k + 1) + argv.skip(k + 1) =~= argv);
}

/// An unknown long option is ignored: a `--name` or `--name=value` token whose name no
/// argument answers to, put before a command line, leaves the result unchanged.
pub proof fn law_unknown_long_option_ignored(
    app: App,
    parents: Seq<Seq<char>>,
    t: Seq<char>,
    argv: Seq<Seq<char>>,
)
    requires
        t.len() >= 2,
        t[0] == '-',
        t[1] == '-',
        long_index(app.args@, long_name_of(t)) is None,
        !is_help_token(t),
    ensures
        parse_spec(app, parents, seq![t] + argv, 0) == parse_spec(app, parents, argv, 0),
{
    let b = seq![t] + argv;
    let init = initial_model(app.args@);
    assert(b[0] == t);
    assert(scan(app, b, 0, init) == scan(app, b, 1, init));
    lemma_scan_stop(app, b, 1, init);
    let at = scan(app, b, 1, init).1;
    let end: int = match at {
        Some(k) => k,
        None => b.len() as int,
    };
    assert(help_between(b, 0, end) == help_between(b, 1, end)) by {
        if help_between(b, 0, end) {
            let j = choose|j: int| 0 <= j < end && 0 <= j < b.len() && is_help_token(#[trigger] b[j]);
            assert(j != 0);
        }
    }
    assert(parse_spec(app, parents, b, 0) == parse_spec(app, parents, b, 1));
    law_parse_ignores_earlier_tokens(app, parents, seq![t], argv, 0);
}

/// The argument at `k` is a value argument that `--name` and `-c` both select.
pub open spec fn value_arg_selected(app: App, k: int) -> bool {
    &&& 0 <= k < app.args@.len()
    &&& app.args@[k].kind == ArgKind::Value
    &&& app.args@[k].short is Some
    &&& app.args@[k].short != Some('-')
    &&& long_index(app.args@, app.args@[k].name@) == Some(k)
    &&& short_index(app.args@, app.args@[k].short.unwrap()) == Some(k)
    &&& forall|j: int| 0 <= j < app.args@[k].name@.len() ==> app.args@[k].name@[j] != '='
}

proof fn lemma_value_separate_long(app: App, parents: Seq<Seq<char>>, k: int, v: Seq<char>)
    requires
        value_arg_selected(app, k),
        !is_help_token(v),
        !is_help_token("--"@ + app.args@[k].name@),
    ensures
        parse_spec(app, parents, seq!["--"@ + app.args@[k].name@, v], 0) == ParseModel::Parsed(
            initial_model(app.args@).with_value(app.args@[k].name@, v),
        ),
{
    reveal_strlit("--");
    let n = app.args@[k].name@;
    let m0 = initial_model(app.args@);
    let expected_m = m0.with_value(n, v);
    let a = seq!["--"@ + n, v];
    assert(a[0].skip(2) =~= n);
    lemma_eq_index(n);
    assert(a[1] == v);
    assert(next_token(a, 0) == v);
    assert(scan(app, a, 2, expected_m) == (expected_m, None::<int>));
    assert(scan(app, a, 0, m0) == (expected_m, None::<int>));
    assert(!help_between(a, 0, 2));
}

proof fn lemma_value_inline_long(app: App, parents: Seq<Seq<char>>, k: int, v: Seq<char>)
    requires
        value_arg_selected(app, k),
        !is_help_token("--"@ + app.args@[k].name@ + "="@ + v),
    ensures
        parse_spec(app, parents, seq!["--"@ + app.args@[k].name@ + "="@ + v], 0)
            == ParseModel::Parsed(initial_model(app.args@).with_value(app.args@[k].name@, v)),
{
    reveal_strlit("--");
    reveal_strlit("=");
    let n = app.args@[k].name@;
    let m0 = initial_model(app.args@);
    let expected_m = m0.with_value(n, v);
    let b = seq!["--"@ + n + "="@ + v];
    let rest = b[0].skip(2);
    assert(rest =~= n + "="@ + v);
    lemma_eq_index(rest);
    assert(rest[n.len() as int] == '=');
    assert forall|j: int| 0 <= j < n.len() implies rest[j] != '=' by {
        assert(rest[j] == n[j]);
    }
    assert(eq_index(rest) == Some(n.len() as int));
    assert(rest.take(n.len() as int) =~= n);
    assert(rest.skip(n.len() as int + 1) =~= v);
    assert(scan(app, b, 1, expected_m) == (expected_m, None::<int>));
    assert(scan(app, b, 0, m0) == (expected_m, None::<int>));
    assert(!help_between(b, 0, 1));
}

proof fn lemma_value_separate_short(app: App, parents: Seq<Seq<char>>, k: int, v: Seq<char>)
    requires
        value_arg_selected(app, k),
        !is_help_token(v),
        !is_help_token(seq!['-', app.args@[k].short.unwrap()]),
    ensures
        parse_spec(app, parents, seq![seq!['-', app.args@[k].short.unwrap()], v], 0)
            == ParseModel::Parsed(initial_model(app.args@).with_value(app.args@[k].name@, v)),
{
    let n = app.args@[k].name@;
    let c = app.args@[k].short.unwrap();
    let m0 = initial_model(app.args@);
    let expected_m = m0.with_value(n, v);
    let cc = seq![seq!['-', c], v];
    assert(cc[0].skip(1) =~= seq![c]);
    assert(next_token(cc, 0) == v);
    assert(cluster(app.args@, seq![c], 0, v, m0) == (expected_m, true));
    assert(scan(app, cc, 2, expected_m) == (expected_m, None::<int>));
    assert(scan(app, cc, 0, m0) == (expected_m, None::<int>));
    assert(!help_between(cc, 0, 2));
}

proof fn lemma_value_adjacent_short(app: App, parents: Seq<Seq<char>>, k: int, v: Seq<char>)
    requires
        value_arg_selected(app, k),
        v.len() > 0,
        !is_help_token(seq!['-', app.args@[k].short.unwrap()] + v),
    ensures
        parse_spec(app, parents, seq![seq!['-', app.args@[k].short.unwrap()] + v], 0)
            == ParseModel::Parsed(initial_model(app.args@).with_value(app.args@[k].name@, v)),
{
    let n = app.args@[k].name@;
    let c = app.args@[k].short.unwrap();
    let m0 = initial_model(app.args@);
    let expected_m = m0.with_value(n, v);
    let d = seq![seq!['-', c] + v];
    let chars = d[0].skip(1);
    assert(chars =~= seq![c] + v);
    assert(chars[0] == c);
    assert(chars.skip(1) =~= v);
    assert(cluster(app.args@, chars, 0, next_token(d, 0), m0) == (expected_m, false));
    assert(scan(app, d, 1, expected_m) == (expected_m, None::<int>));
    assert(scan(app, d, 0, m0) == (expected_m, None::<int>));
    assert(!help_between(d, 0, 1));
}

/// The four ways of giving a value agree: `--name value`, `--name=value`, `-c value` and
/// `-cvalue` all record `value` for the argument, and nothing else, when `--name` and
/// `-c` both select it, its name holds no `=`, the value is not empty and none of the
/// tokens asks for help.
pub proof fn law_value_forms_agree(app: App, parents: Seq<Seq<char>>, k: int, v: Seq<char>)
    requires
        value_arg_selected(app, k),
        v.len() > 0,
        !is_help_token(v),
        !is_help_token("--"@ + app.args@[k].name@),
        !is_help_token("--"@ + app.args@[k].name@ + "="@ + v),
        !is_help_token(seq!['-', app.args@[k].short.unwrap()]),
        !is_help_token(seq!['-', app.args@[k].short.unwrap()] + v),
    ensures
        ({
            let n = app.args@[k].name@;
            let c = app.args@[k].short.unwrap();
            let expected = ParseModel::Parsed(initial_model(app.args@).with_value(n, v));
            &&& parse_spec(app, parents, seq!["--"@ + n, v], 0) == expected
            &&& parse_spec(app, parents, seq!["--"@ + n + "="@ + v], 0) == expected
            &&& parse_spec(app, parents, seq![seq!['-', c], v], 0) == expected
            &&& parse_spec(app, parents, seq![seq!['-', c] + v], 0) == expected
        }),
{
    lemma_value_separate_long(app, parents, k, v);
    lemma_value_inline_long(app, parents, k, v);
    lemma_value_separate_short(app, parents, k, v);
    lemma_value_adjacent_short(app, parents, k, v);
}

/// `subcommand_name` names a subcommand exactly when `subcommand` answers for that name.
pub proof fn law_subcommand_accessors_agree(m: MatchesModel, name: Seq<char>)
    ensures
        m.sub_of(name) is Some <==> (m.sub matches Some((n, _)) && n == name),
{
}

/// The first character of a short cluster that selects a value argument.
pub open spec fn value_char_at(args: Seq<Arg>, chars: Seq<char>) -> Option<int> {
    first_index(chars, |c: char| picks_kind(args, short_index(args, c), ArgKind::Value))
}

/// The token is complete in itself: a bare token that names no subcommand, a `--name`
/// token that selects no value argument or carries its value after `=`, or a short
/// cluster whose value character, if any, is followed by the value.
pub open spec fn whole_token(app: App, t: Seq<char>) -> bool {
    if !starts_with_dash(t) {
        subcommand_index(app.subcommands@, t) is None
    } else if t.len() >= 2 && t[1] == '-' {
        !(picks_kind(app.args@, long_index(app.args@, long_name_of(t)), ArgKind::Value) && eq_index(
            t.skip(2),
        ) is None)
    } else {
        match value_char_at(app.args@, t.skip(1)) {
            None => true,
            Some(p) => p + 1 < t.len() - 1,
        }
    }
}

/// The token is an option that takes the token after it as its value: `--name` of a
/// value argument without `=`, or a short cluster that ends with a value character.
pub open spec fn takes_value(app: App, t: Seq<char>) -> bool {
    if !starts_with_dash(t) {
        false
    } else if t.len() >= 2 && t[1] == '-' {
        picks_kind(app.args@, long_index(app.args@, long_name_of(t)), ArgKind::Value) && eq_index(
            t.skip(2),
        ) is None
    } else {
        value_char_at(app.args@, t.skip(1)) == Some(t.len() - 2)
    }
}

/// The tokens at positions `i..k` are whole options and bare tokens: each one is complete
/// in itself, or is an option followed by its value.
pub open spec fn whole_options(app: App, argv: Seq<Seq<char>>, i: int, k: int) -> bool
    decreases k - i,
{
    if i >= k {
        i == k
    } else if whole_token(app, argv[i]) {
        whole_options(app, argv, i + 1, k)
    } else if takes_value(app, argv[i]) && i + 2 <= k {
        whole_options(app, argv, i + 2, k)
    } else {
        false
    }
}

proof fn lemma_cluster_value_char(
    args: Seq<Arg>,
    chars: Seq<char>,
    ci: int,
    q: int,
    n1: Seq<char>,
    n2: Seq<char>,
    m: MatchesModel,
)
    requires
        0 <= ci <= q <= chars.len(),
        forall|j: int|
            ci <= j < q ==> !picks_kind(args, #[trigger] short_index(args, chars[j]), ArgKind::Value),
        q < chars.len() ==> picks_kind(args, short_index(args, chars[q]), ArgKind::Value),
    ensures
        q + 1 != chars.len() ==> cluster(args, chars, ci, n1, m) == cluster(args, chars, ci, n2, m)
            && !cluster(args, chars, ci, n1, m).1,
        q + 1 == chars.len() ==> cluster(args, chars, ci, n1, m).1,
    decreases chars.len() - ci,
{
    if ci < chars.len() {
        lemma_short_index(args, chars[ci]);
        match short_index(args, chars[ci]) {
            None => lemma_cluster_value_char(args, chars, ci + 1, q, n1, n2, m),
            Some(k) => {
                let a = args[k];
                match a.kind {
                    ArgKind::Flag => lemma_cluster_value_char(
                        args,
                        chars,
                        ci + 1,
                        q,
                        n1,
                        n2,
                        m.with_flag(a.name@, true),
                    ),
                    ArgKind::Count => lemma_cluster_value_char(
                        args,
                        chars,
                        ci + 1,
                        q,
                        n1,
                        n2,
                        m.bumped(a.name@),
                    ),
                    ArgKind::Value => {
                        assert(ci == q);
                    },
                    ArgKind::Positional => lemma_cluster_value_char(args, chars, ci + 1, q, n1, n2, m),
                }
            },
        }
    }
}

proof fn lemma_value_char_at(args: Seq<Arg>, chars: Seq<char>) -> (q: int)
    ensures
        0 <= q <= chars.len(),
        forall|j: int|
            0 <= j < q ==> !picks_kind(args, #[trigger] short_index(args, chars[j]), ArgKind::Value),
        q < chars.len() ==> picks_kind(args, short_index(args, chars[q]), ArgKind::Value),
        value_char_at(args, chars) == (if q < chars.len() {
            Some(q)
        } else {
            None::<int>
        }),
{
    let p = |c: char| picks_kind(args, short_index(args, c), ArgKind::Value);
    lemma_first_index(chars, p);
    match first_index(chars, p) {
        Some(i) => i,
        None => {
            assert forall|j: int| 0 <= j < chars.len() implies !picks_kind(
                args,
                #[trigger] short_index(args, chars[j]),
                ArgKind::Value,
            ) by {
                assert(!p(chars[j]));
            }
            chars.len() as int
        },
    }
}

/// When the tokens at `i..k` are whole options, `scan` reads them as it would read them
/// alone, and goes on from `k` with what they gave.
proof fn lemma_scan_whole(app: App, argv: Seq<Seq<char>>, k: int, i: int, m: MatchesModel)
    requires
        0 <= i <= k <= argv.len(),
        whole_options(app, argv, i, k),
    ensures
        scan(app, argv.take(k), i, m).1 is None,
        scan(app, argv, i, m) == scan(app, argv, k, scan(app, argv.take(k), i, m).0),
    decreases k - i,
{
    let s = argv.take(k);
    if i < k {
        assert(s[i] == argv[i]);
        let t = argv[i];
        if whole_token(app, t) {
            if !(t.len() > 0 && t[0] == '-') {
                lemma_scan_whole(app, argv, k, i + 1, m.with_positional(t));
            } else if t.len() >= 2 && t[1] == '-' {
                let rest = t.skip(2);
                let name = long_name_of(t);
                lemma_long_index(app.args@, name);
                match long_index(app.args@, name) {
                    None => lemma_scan_whole(app, argv, k, i + 1, m),
                    Some(kk) => {
                        let a = app.args@[kk];
                        match a.kind {
                            ArgKind::Flag => lemma_scan_whole(app, argv, k, i + 1, m.with_flag(a.name@, true)),
                            ArgKind::Count => lemma_scan_whole(app, argv, k, i + 1, m.bumped(a.name@)),
                            ArgKind::Value => {
                                let q = eq_index(rest).unwrap();
                                lemma_scan_whole(app, argv, k, i + 1, m.with_value(a.name@, rest.skip(q + 1)));
                            },
                            ArgKind::Positional => lemma_scan_whole(app, argv, k, i + 1, m),
                        }
                    },
                }
            } else {
                let chars = t.skip(1);
                let q = lemma_value_char_at(app.args@, chars);
                lemma_cluster_value_char(app.args@, chars, 0, q, next_token(argv, i), next_token(s, i), m);
                let (m2, took) = cluster(app.args@, chars, 0, next_token(argv, i), m);
                lemma_scan_whole(app, argv, k, i + 1, m2);
            }
        } else {
            assert(takes_value(app, t));
            assert(s[i + 1] == argv[i + 1]);
            assert(next_token(argv, i) == next_token(s, i));
            if t.len() >= 2 && t[1] == '-' {
                let name = long_name_of(t);
                lemma_long_index(app.args@, name);
                let a = app.args@[long_index(app.args@, name).unwrap()];
                lemma_scan_whole(app, argv, k, i + 2, m.with_value(a.name@, next_token(argv, i)));
            } else {
                let chars = t.skip(1);
                let q = lemma_value_char_at(app.args@, chars);
                lemma_cluster_value_char(app.args@, chars, 0, q, next_token(argv, i), next_token(s, i), m);
                let (m2, took) = cluster(app.args@, chars, 0, next_token(argv, i), m);
                lemma_scan_whole(app, argv, k, i + 2, m2);
            }
        }
    }
}

/// A bare token that names a subcommand, after any run of whole options (flags, counted
/// arguments, unknown options, positional tokens, and value options with their values in
/// any of the four forms) that asks for no help, is dispatched: the tokens before it parse
/// as a command line of their own, and the subcommand parses the tokens after its name. A
/// help request there is the subcommand's help, reached through this application's name;
/// otherwise the subcommand's matches stand under its name beside what the tokens before
/// it gave.
pub proof fn law_subcommand_after_whole_options(
    app: App,
    parents: Seq<Seq<char>>,
    argv: Seq<Seq<char>>,
    k: int,
)
    requires
        0 <= k < argv.len(),
        whole_options(app, argv, 0, k),
        !help_between(argv, 0, k),
        !starts_with_dash(argv[k]),
        subcommand_index(app.subcommands@, argv[k]) is Some,
    ensures
        parse_spec(app, parents, argv.take(k), 0) is Parsed,
        ({
            let sub = app.subcommands@[subcommand_index(app.subcommands@, argv[k]).unwrap()];
            let m0 = parse_spec(app, parents, argv.take(k), 0)->Parsed_0;
            parse_spec(app, parents, argv, 0) == match parse_spec(
                sub,
                parents.push(app.name@),
                argv.skip(k + 1),
                0,
            ) {
                ParseModel::Help(a, p) => ParseModel::Help(a, p),
                ParseModel::Parsed(sm) => ParseModel::Parsed(m0.with_sub(sub.name@, sm)),
            }
        }),
{
    let s = argv.take(k);
    let init = initial_model(app.args@);
    lemma_scan_whole(app, argv, k, 0, init);
    let m0 = scan(app, s, 0, init).0;
    assert(scan(app, argv, k, m0) == (m0, Some(k)));
    assert(!help_between(s, 0, k)) by {
        if help_between(s, 0, k) {
            let j = choose|j: int| 0 <= j < k && 0 <= j < s.len() && is_help_token(#[trigger] s[j]);
            assert(s[j] == argv[j]);
        }
    }
    assert(parse_spec(app, parents, s, 0) == ParseModel::Parsed(m0));
    let sub = app.subcommands@[subcommand_index(app.subcommands@, argv[k]).unwrap()];
    law_parse_ignores_earlier_tokens(sub, parents.push(app.name@), argv.take(k + 1), argv.skip(k + 1), 0);
    assert(argv.take(k + 1) + argv.skip(k + 1) =~= argv);
}

} // verus!
