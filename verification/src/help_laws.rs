//! Properties of the help screen that hold for every application.
use vstd::prelude::*;
use crate::app::App;
use crate::arg::{Arg, ArgKind};
use crate::ansi::bold_spec;
use crate::help::{
    about_section, argument_lines, arguments_section, has_positionals, help_with, is_positional,
    category_labels, category_of, command_line, group_lines, name_width, option_line, option_lines, placeholder,
    positional_placeholders, usage_section,
};
use crate::text::byte_len;

verus! {

/// The arguments paired with their names in upper case, keeping the positional ones.
pub open spec fn positional_pairs(args: Seq<Arg>, ups: Seq<Seq<char>>) -> Seq<(Arg, Seq<char>)> {
    args.zip_with(ups).filter(|p: (Arg, Seq<char>)| p.0.kind == ArgKind::Positional)
}

/// The placeholder of each positional argument, in the order of declaration.
pub open spec fn positional_marks(args: Seq<Arg>, ups: Seq<Seq<char>>) -> Seq<Seq<char>> {
    positional_pairs(args, ups).map_values(|p: (Arg, Seq<char>)| placeholder(p.1))
}

/// Each item on a line of its own, indented by two spaces.
pub open spec fn one_per_line(items: Seq<Seq<char>>) -> Seq<char>
    decreases items.len(),
{
    if items.len() == 0 {
        Seq::empty()
    } else {
        one_per_line(items.drop_last()) + "  "@ + items.last() + "\n"@
    }
}

proof fn lemma_positional_marks(args: Seq<Arg>, ups: Seq<Seq<char>>)
    requires
        args.len() == ups.len(),
    ensures
        argument_lines(args, ups) == one_per_line(positional_marks(args, ups)),
        positional_placeholders(args, ups) == positional_marks(args, ups),
        has_positionals(args) == (positional_marks(args, ups).len() > 0),
    decreases args.len(),
{
    reveal(Seq::filter);
    let z = args.zip_with(ups);
    if args.len() == 0 {
        assert(z.len() == 0);
        assert(positional_pairs(args, ups).len() == 0);
        assert(positional_marks(args, ups) =~= Seq::<Seq<char>>::empty());
    } else {
        let a0 = args.drop_last();
        let u0 = ups.drop_last();
        lemma_positional_marks(a0, u0);
        assert(z.drop_last() =~= a0.zip_with(u0));
        assert(z.last() == (args.last(), ups.last()));
        let f = positional_pairs(a0, u0);
        let marks0 = positional_marks(a0, u0);
        assert(marks0.len() == f.len());
        assert(forall|j: int| 0 <= j < a0.len() ==> #[trigger] a0[j] == args[j]);
        if is_positional(args.last()) {
            assert(positional_pairs(args, ups) == f.push((args.last(), ups.last())));
            assert(positional_marks(args, ups) =~= marks0.push(placeholder(ups.last())));
            assert(positional_marks(args, ups).drop_last() =~= marks0);
            assert(has_positionals(args)) by {
                assert(is_positional(args[args.len() - 1]));
            }
        } else {
            assert(positional_pairs(args, ups) == f);
            assert(positional_marks(args, ups) =~= marks0);
            assert(has_positionals(args) == has_positionals(a0)) by {
                if has_positionals(args) {
                    let j = choose|j: int| 0 <= j < args.len() && is_positional(#[trigger] args[j]);
                    assert(j < a0.len());
                    assert(is_positional(a0[j]));
                }
                if has_positionals(a0) {
                    let j = choose|j: int| 0 <= j < a0.len() && is_positional(#[trigger] a0[j]);
                    assert(is_positional(args[j]));
                }
            }
        }
    }
}

/// The arguments section lists the positional arguments, one line each, in the order of
/// declaration: its `i`-th line is the placeholder of the `i`-th positional argument,
/// and it has as many lines as there are positional arguments. These are the placeholders
/// of the usage line too. Without positional arguments there is no such section.
pub proof fn law_arguments_one_line_each(args: Seq<Arg>, ups: Seq<Seq<char>>)
    requires
        args.len() == ups.len(),
    ensures
        argument_lines(args, ups) == one_per_line(positional_marks(args, ups)),
        arguments_section(args, ups) == if positional_marks(args, ups).len() > 0 {
            "\n"@ + bold_spec("arguments:"@) + "\n"@ + one_per_line(positional_marks(args, ups))
        } else {
            Seq::empty()
        },
        positional_placeholders(args, ups) == positional_marks(args, ups),
{
    lemma_positional_marks(args, ups);
}

/// The arguments that are not positional, paired with their names in upper case.
pub open spec fn option_pairs(args: Seq<Arg>, ups: Seq<Seq<char>>) -> Seq<(Arg, Seq<char>)> {
    args.zip_with(ups).filter(|p: (Arg, Seq<char>)| p.0.kind != ArgKind::Positional)
}

/// The line of each pair, one after the other.
pub open spec fn lines_for(pairs: Seq<(Arg, Seq<char>)>) -> Seq<char>
    decreases pairs.len(),
{
    if pairs.len() == 0 {
        Seq::empty()
    } else {
        lines_for(pairs.drop_last()) + option_line(pairs.last().0, pairs.last().1)
    }
}

/// The options section lists each argument that is not positional, one line each, in the
/// order of declaration, and no other argument.
pub proof fn law_options_one_line_each(args: Seq<Arg>, ups: Seq<Seq<char>>)
    requires
        args.len() == ups.len(),
    ensures
        option_lines(args, ups) == lines_for(option_pairs(args, ups)),
    decreases args.len(),
{
    reveal(Seq::filter);
    let z = args.zip_with(ups);
    if args.len() == 0 {
        assert(z.len() == 0);
        assert(option_pairs(args, ups).len() == 0);
    } else {
        let a0 = args.drop_last();
        let u0 = ups.drop_last();
        law_options_one_line_each(a0, u0);
        assert(z.drop_last() =~= a0.zip_with(u0));
        assert(z.last() == (args.last(), ups.last()));
        let f = option_pairs(a0, u0);
        if !is_positional(args.last()) {
            assert(option_pairs(args, ups) == f.push((args.last(), ups.last())));
            assert(option_pairs(args, ups).drop_last() =~= f);
        } else {
            assert(option_pairs(args, ups) == f);
        }
    }
}

/// The subcommands of category `cat`, in order.
pub open spec fn in_category(subs: Seq<App>, cat: Option<Seq<char>>) -> Seq<App> {
    subs.filter(|a: App| category_of(a) == cat)
}

/// The command line of each subcommand, one after the other.
pub open spec fn command_lines(subs: Seq<App>, width: nat, indent: Seq<char>) -> Seq<char>
    decreases subs.len(),
{
    if subs.len() == 0 {
        Seq::empty()
    } else {
        command_lines(subs.drop_last(), width, indent) + command_line(subs.last(), width, indent)
    }
}

/// A group lists each subcommand of its category, one line each, in the order of
/// declaration, and no other subcommand.
pub proof fn law_group_one_line_each(subs: Seq<App>, cat: Option<Seq<char>>, width: nat, indent: Seq<char>)
    ensures
        group_lines(subs, cat, width, indent) == command_lines(in_category(subs, cat), width, indent),
    decreases subs.len(),
{
    reveal(Seq::filter);
    if subs.len() > 0 {
        law_group_one_line_each(subs.drop_last(), cat, width, indent);
        let f = in_category(subs.drop_last(), cat);
        if category_of(subs.last()) == cat {
            assert(in_category(subs, cat) == f.push(subs.last()));
            assert(in_category(subs, cat).drop_last() =~= f);
        } else {
            assert(in_category(subs, cat) == f);
        }
    }
}

/// The category headings name each category of the subcommands once, and nothing else.
pub proof fn law_category_labels_each_once(subs: Seq<App>)
    ensures
        forall|i: int, j: int|
            0 <= i < j < category_labels(subs).len() ==> category_labels(subs)[i]
                != category_labels(subs)[j],
        forall|i: int|
            #![trigger category_labels(subs)[i]]
            0 <= i < category_labels(subs).len() ==> exists|k: int|
                0 <= k < subs.len() && category_of(#[trigger] subs[k]) == Some(
                    category_labels(subs)[i],
                ),
        forall|k: int|
            0 <= k < subs.len() && (#[trigger] category_of(subs[k])) is Some ==> category_labels(
                subs,
            ).contains(category_of(subs[k]).unwrap()),
    decreases subs.len(),
{
    if subs.len() > 0 {
        let s0 = subs.drop_last();
        law_category_labels_each_once(s0);
        let l0 = category_labels(s0);
        let l = category_labels(subs);
        let last = subs.len() - 1;
        assert(subs[last] == subs.last());
        assert(forall|j: int| 0 <= j < s0.len() ==> #[trigger] s0[j] == subs[j]);
        assert forall|i: int| #![trigger l[i]] 0 <= i < l.len() implies exists|k: int|
            0 <= k < subs.len() && category_of(#[trigger] subs[k]) == Some(l[i]) by {
            if i < l0.len() {
                assert(l[i] == l0[i]);
                let k = choose|k: int| 0 <= k < s0.len() && category_of(#[trigger] s0[k]) == Some(l0[i]);
                assert(category_of(subs[k]) == Some(l[i]));
            } else {
                assert(category_of(subs[last]) == Some(l[i]));
            }
        }
        assert forall|k: int| 0 <= k < subs.len() && (#[trigger] category_of(subs[k])) is Some implies l.contains(
            category_of(subs[k]).unwrap(),
        ) by {
            let c = category_of(subs[k]).unwrap();
            if k < last {
                assert(category_of(s0[k]) is Some);
                assert(l0.contains(c));
                let w = choose|w: int| 0 <= w < l0.len() && l0[w] == c;
                assert(l[w] == c);
            } else {
                if !l0.contains(c) {
                    assert(l[l.len() - 1] == c);
                } else {
                    let w = choose|w: int| 0 <= w < l0.len() && l0[w] == c;
                    assert(l[w] == c);
                }
            }
        }
    }
}

/// The name column is as wide as the widest subcommand name, in bytes.
pub proof fn law_name_width_is_widest(subs: Seq<App>)
    ensures
        forall|i: int| 0 <= i < subs.len() ==> byte_len((#[trigger] subs[i]).name@) <= name_width(subs),
        subs.len() > 0 ==> exists|i: int|
            0 <= i < subs.len() && byte_len((#[trigger] subs[i]).name@) == name_width(subs),
        subs.len() == 0 ==> name_width(subs) == 0,
    decreases subs.len(),
{
    if subs.len() > 0 {
        let s0 = subs.drop_last();
        law_name_width_is_widest(s0);
        assert(forall|j: int| 0 <= j < s0.len() ==> #[trigger] s0[j] == subs[j]);
        let last = subs.len() - 1;
        assert(subs[last] == subs.last());
        assert forall|i: int| 0 <= i < subs.len() implies byte_len((#[trigger] subs[i]).name@)
            <= name_width(subs) by {
            if i < last {
                assert(byte_len(s0[i].name@) <= name_width(s0));
            }
        }
        if byte_len(subs.last().name@) <= name_width(s0) && s0.len() > 0 {
            let w = choose|i: int| 0 <= i < s0.len() && byte_len((#[trigger] s0[i]).name@) == name_width(s0);
            assert(byte_len(subs[w].name@) == name_width(subs));
        } else {
            assert(byte_len(subs[last].name@) == name_width(subs));
        }
    }
}

/// The description of an application, when it has one, stands on its own line right after
/// the usage line, whatever the parents: an empty line, then the description indented by
/// two spaces.
pub proof fn law_about_follows_usage(app: App, parents: Seq<Seq<char>>, ups: Seq<Seq<char>>)
    ensures
        app.about matches Some(a) ==> {
            let u = usage_section(app, parents, ups).len() as int;
            let d = "\n  "@ + a@ + "\n"@;
            help_with(app, parents, ups).subrange(u, u + d.len()) == d
        },
{
    reveal_strlit("\n  ");
    reveal_strlit("\n");
    reveal_strlit("  ");
    if let Some(a) = app.about {
        let d = "\n  "@ + a@ + "\n"@;
        assert(about_section(app) =~= d);
        let u = usage_section(app, parents, ups);
        let h = help_with(app, parents, ups);
        assert(h.subrange(u.len() as int, (u.len() + d.len()) as int) =~= d) by {
            assert forall|j: int| 0 <= j < d.len() implies h[u.len() + j] == d[j] by {}
        }
    }
}

/// Apart from the usage line, the help screen of an application without subcommands is
/// the same whatever parents it is reached through.
pub proof fn law_help_after_usage_ignores_parents(
    app: App,
    parents1: Seq<Seq<char>>,
    parents2: Seq<Seq<char>>,
    ups: Seq<Seq<char>>,
)
    requires
        app.subcommands@.len() == 0,
    ensures
        help_with(app, parents1, ups).skip(usage_section(app, parents1, ups).len() as int)
            == help_with(app, parents2, ups).skip(usage_section(app, parents2, ups).len() as int),
{
    let h1 = help_with(app, parents1, ups);
    let h2 = help_with(app, parents2, ups);
    assert(h1.skip(usage_section(app, parents1, ups).len() as int) =~= h2.skip(
        usage_section(app, parents2, ups).len() as int,
    ));
}

} // verus!
