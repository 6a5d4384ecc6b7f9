//! The help screen of an application, as text.
use vstd::prelude::*;
use crate::ansi::{bold, bold_spec, cyan, cyan_spec, dim, dim_spec, green, green_spec, yellow, yellow_spec};
use crate::app::App;
use crate::arg::{Arg, ArgKind};
use crate::text::{lemma_string_views_push, byte_len, join_spec, joined, joined_strs, push_char, spaces, spaces_spec, str_eq, str_views, string_views, to_uppercase, uppercase_of};

verus! {

/// `<NAME>` for an argument whose name in upper case is `up`, in yellow.
pub open spec fn placeholder(up: Seq<char>) -> Seq<char> {
    yellow_spec("<"@ + up + ">"@)
}

/// The names of the arguments in upper case, as `str::to_uppercase` gives them.
pub open spec fn upper_names(args: Seq<Arg>) -> Seq<Seq<char>> {
    args.map_values(|a: Arg| uppercase_of(a.name@))
}

pub open spec fn is_positional(a: Arg) -> bool {
    a.kind == ArgKind::Positional
}

pub open spec fn has_options(args: Seq<Arg>) -> bool {
    exists|i: int| 0 <= i < args.len() && !is_positional(#[trigger] args[i])
}

pub open spec fn has_positionals(args: Seq<Arg>) -> bool {
    exists|i: int| 0 <= i < args.len() && is_positional(#[trigger] args[i])
}

/// The placeholders of the positional arguments, in order; `ups` holds the names of the
/// arguments in upper case.
pub open spec fn positional_placeholders(args: Seq<Arg>, ups: Seq<Seq<char>>) -> Seq<Seq<char>>
    decreases args.len(),
{
    if args.len() == 0 {
        Seq::empty()
    } else if is_positional(args.last()) {
        positional_placeholders(args.drop_last(), ups.drop_last()).push(placeholder(ups.last()))
    } else {
        positional_placeholders(args.drop_last(), ups.drop_last())
    }
}

/// The words of the usage line: the parents, the name in bold, `[OPTIONS]` when there
/// are options, `<COMMAND>` when there are subcommands, then each positional placeholder.
pub open spec fn usage_parts(app: App, parents: Seq<Seq<char>>, ups: Seq<Seq<char>>) -> Seq<Seq<char>> {
    parents.push(bold_spec(app.name@)) + (if has_options(app.args@) {
        seq![dim_spec("[OPTIONS]"@)]
    } else {
        Seq::empty()
    }) + (if app.subcommands@.len() > 0 {
        seq![cyan_spec("<COMMAND>"@)]
    } else {
        Seq::empty()
    }) + positional_placeholders(app.args@, ups)
}

pub open spec fn usage_section(app: App, parents: Seq<Seq<char>>, ups: Seq<Seq<char>>) -> Seq<char> {
    bold_spec("usage:"@) + " "@ + join_spec(usage_parts(app, parents, ups), " "@) + "\n"@
}

pub open spec fn about_section(app: App) -> Seq<char> {
    match app.about {
        Some(a) => "\n"@ + "  "@ + a@ + "\n"@,
        None => Seq::empty(),
    }
}

/// One line per positional argument.
pub open spec fn argument_lines(args: Seq<Arg>, ups: Seq<Seq<char>>) -> Seq<char>
    decreases args.len(),
{
    if args.len() == 0 {
        Seq::empty()
    } else if is_positional(args.last()) {
        argument_lines(args.drop_last(), ups.drop_last()) + "  "@ + placeholder(ups.last()) + "\n"@
    } else {
        argument_lines(args.drop_last(), ups.drop_last())
    }
}

pub open spec fn arguments_section(args: Seq<Arg>, ups: Seq<Seq<char>>) -> Seq<char> {
    if has_positionals(args) {
        "\n"@ + bold_spec("arguments:"@) + "\n"@ + argument_lines(args, ups)
    } else {
        Seq::empty()
    }
}

/// The spaces that pad `s` to 24 bytes (none when it is longer).
pub open spec fn pad_to_24(s: Seq<char>) -> nat {
    if byte_len(s) < 24 {
        (24 - byte_len(s)) as nat
    } else {
        0
    }
}

pub open spec fn short_column(a: Arg) -> Seq<char> {
    match a.short {
        Some(c) => green_spec("-"@.push(c)) + ", "@,
        None => "    "@,
    }
}

pub open spec fn long_column(a: Arg, up: Seq<char>) -> Seq<char> {
    if a.kind == ArgKind::Value {
        green_spec("--"@ + a.name@) + " "@ + placeholder(up)
    } else {
        green_spec("--"@ + a.name@)
    }
}

/// The long column without styling, whose width decides the padding.
pub open spec fn plain_long_column(a: Arg, up: Seq<char>) -> Seq<char> {
    if a.kind == ArgKind::Value {
        "--"@ + a.name@ + " <"@ + up + ">"@
    } else {
        "--"@ + a.name@
    }
}

pub open spec fn kind_label(k: ArgKind) -> Seq<char> {
    match k {
        ArgKind::Flag => dim_spec("[flag]"@),
        ArgKind::Count => dim_spec("[count]"@),
        ArgKind::Value => dim_spec("[value]"@),
        ArgKind::Positional => Seq::empty(),
    }
}

pub open spec fn option_line(a: Arg, up: Seq<char>) -> Seq<char> {
    "  "@ + short_column(a) + long_column(a, up) + spaces_spec(pad_to_24(plain_long_column(a, up)))
        + "  "@ + kind_label(a.kind) + "\n"@
}

/// One line per argument that is not positional.
pub open spec fn option_lines(args: Seq<Arg>, ups: Seq<Seq<char>>) -> Seq<char>
    decreases args.len(),
{
    if args.len() == 0 {
        Seq::empty()
    } else if is_positional(args.last()) {
        option_lines(args.drop_last(), ups.drop_last())
    } else {
        option_lines(args.drop_last(), ups.drop_last()) + option_line(args.last(), ups.last())
    }
}

pub open spec fn help_option_line() -> Seq<char> {
    "  "@ + (green_spec("-h"@) + ", "@ + green_spec("--help"@)) + spaces_spec(
        pad_to_24("-h, --help"@),
    ) + "  "@ + dim_spec("print help"@) + "\n"@
}

pub open spec fn options_section(args: Seq<Arg>, ups: Seq<Seq<char>>) -> Seq<char> {
    "\n"@ + bold_spec("options:"@) + "\n"@ + option_lines(args, ups) + help_option_line()
}

pub open spec fn opt_view(o: Option<&str>) -> Option<Seq<char>> {
    match o {
        Some(c) => Some(c@),
        None => None,
    }
}

pub open spec fn category_of(a: App) -> Option<Seq<char>> {
    opt_view(a.category)
}

/// The distinct categories of the subcommands, in order of first appearance.
pub open spec fn category_labels(subs: Seq<App>) -> Seq<Seq<char>>
    decreases subs.len(),
{
    if subs.len() == 0 {
        Seq::empty()
    } else {
        let labels = category_labels(subs.drop_last());
        match category_of(subs.last()) {
            Some(c) => if labels.contains(c) {
                labels
            } else {
                labels.push(c)
            },
            None => labels,
        }
    }
}

/// The widest subcommand name, in bytes.
pub open spec fn name_width(subs: Seq<App>) -> nat
    decreases subs.len(),
{
    if subs.len() == 0 {
        0
    } else {
        let w: nat = name_width(subs.drop_last());
        if byte_len(subs.last().name@) > w {
            byte_len(subs.last().name@)
        } else {
            w
        }
    }
}

pub open spec fn command_about(a: App) -> Seq<char> {
    match a.about {
        Some(t) => dim_spec(t@),
        None => Seq::empty(),
    }
}

pub open spec fn command_line(a: App, width: nat, indent: Seq<char>) -> Seq<char> {
    let n: nat = byte_len(a.name@);
    let pad: nat = if n < width {
        (width - n) as nat
    } else {
        0
    };
    indent + cyan_spec(a.name@) + spaces_spec(pad) + "  "@ + command_about(a) + "\n"@
}

/// The lines of the subcommands in category `cat`, in order.
pub open spec fn group_lines(subs: Seq<App>, cat: Option<Seq<char>>, width: nat, indent: Seq<char>) -> Seq<
    char,
>
    decreases subs.len(),
{
    if subs.len() == 0 {
        Seq::empty()
    } else if category_of(subs.last()) == cat {
        group_lines(subs.drop_last(), cat, width, indent) + command_line(subs.last(), width, indent)
    } else {
        group_lines(subs.drop_last(), cat, width, indent)
    }
}

/// Each category under its heading, in order of the labels.
pub open spec fn labelled_groups(labels: Seq<Seq<char>>, subs: Seq<App>, width: nat) -> Seq<char>
    decreases labels.len(),
{
    if labels.len() == 0 {
        Seq::empty()
    } else {
        labelled_groups(labels.drop_last(), subs, width) + "  "@ + dim_spec(labels.last() + ":"@)
            + "\n"@ + group_lines(subs, Some(labels.last()), width, "    "@)
    }
}

pub open spec fn has_uncategorised(subs: Seq<App>) -> bool {
    exists|i: int| 0 <= i < subs.len() && (#[trigger] subs[i]).category is None
}

/// The subcommands: categorised ones first, by category in order of first appearance,
/// then the others under `other:`; without any category, one plain list.
pub open spec fn command_groups(subs: Seq<App>) -> Seq<char> {
    let labels = category_labels(subs);
    let width: nat = name_width(subs);
    if labels.len() > 0 {
        labelled_groups(labels, subs, width) + if has_uncategorised(subs) {
            "  "@ + dim_spec("other:"@) + "\n"@ + group_lines(subs, None, width, "    "@)
        } else {
            Seq::empty()
        }
    } else {
        group_lines(subs, None, width, "  "@)
    }
}

pub open spec fn commands_section(app: App, parents: Seq<Seq<char>>) -> Seq<char> {
    if app.subcommands@.len() > 0 {
        "\n"@ + bold_spec("commands:"@) + "\n"@ + command_groups(app.subcommands@) + "\n"@ + "  "@
            + dim_spec(
            "run '"@ + join_spec(parents.push(app.name@), " "@)
                + " <COMMAND> --help' for subcommand help"@,
        ) + "\n"@
    } else {
        Seq::empty()
    }
}

/// The help screen of `app` reached through the subcommand names `parents`, where
/// `ups` holds the names of its arguments in upper case.
pub open spec fn help_with(app: App, parents: Seq<Seq<char>>, ups: Seq<Seq<char>>) -> Seq<char> {
    usage_section(app, parents, ups) + about_section(app) + arguments_section(app.args@, ups)
        + options_section(app.args@, ups) + commands_section(app, parents)
}

/// The help screen of `app` reached through the subcommand names `parents`.
pub open spec fn help_spec(app: App, parents: Seq<Seq<char>>) -> Seq<char> {
    help_with(app, parents, upper_names(app.args@))
}

fn placeholder_text(up: &str) -> (r: String)
    ensures
        r@ == placeholder(up@),
{
    let mut s = String::from_str("<");
    s.append(up);
    s.append(">");
    yellow(s.as_str())
}

fn is_positional_arg(a: &Arg) -> (r: bool)
    ensures
        r == is_positional(*a),
{
    match a.kind {
        ArgKind::Positional => true,
        _ => false,
    }
}

fn any_option(args: &[Arg]) -> (r: bool)
    ensures
        r == has_options(args@),
{
    let mut i: usize = 0;
    while i < args.len()
        invariant
            i <= args@.len(),
            forall|j: int| 0 <= j < i ==> is_positional(#[trigger] args@[j]),
        decreases args@.len() - i,
    {
        if !is_positional_arg(&args[i]) {
            return true;
        }
        i += 1;
    }
    false
}

fn any_positional(args: &[Arg]) -> (r: bool)
    ensures
        r == has_positionals(args@),
{
    let mut i: usize = 0;
    while i < args.len()
        invariant
            i <= args@.len(),
            forall|j: int| 0 <= j < i ==> !is_positional(#[trigger] args@[j]),
        decreases args@.len() - i,
    {
        if is_positional_arg(&args[i]) {
            return true;
        }
        i += 1;
    }
    false
}

fn usage_text(app: &App, parents: &[&'static str], ups: &[String]) -> (r: String)
    requires
        ups@.len() == app.args@.len(),
    ensures
        r@ == usage_section(*app, str_views(parents@), string_views(ups@)),
{
    let ghost uv = string_views(ups@);
    let ghost pv = str_views(parents@);
    let mut parts: Vec<String> = Vec::new();
    let mut i: usize = 0;
    while i < parents.len()
        invariant
            i <= parents@.len(),
            pv == str_views(parents@),
            string_views(parts@) == pv.take(i as int),
        decreases parents@.len() - i,
    {
        let ghost before = parts@;
        let p = String::from_str(parents[i]);
        parts.push(p);
        proof {
            lemma_string_views_push(before, p);
        }
        i += 1;
        assert(string_views(parts@) =~= pv.take(i as int));
    }
    assert(pv.take(parents@.len() as int) =~= pv);
    parts.push(bold(app.name));
    let ghost head = pv.push(bold_spec(app.name@));
    assert(string_views(parts@) =~= head);
    if any_option(app.args.as_slice()) {
        parts.push(dim("[OPTIONS]"));
    }
    let ghost with_options = head + (if has_options(app.args@) {
        seq![dim_spec("[OPTIONS]"@)]
    } else {
        Seq::empty()
    });
    assert(string_views(parts@) =~= with_options);
    if app.subcommands.len() > 0 {
        parts.push(cyan("<COMMAND>"));
    }
    let ghost base = with_options + (if app.subcommands@.len() > 0 {
        seq![cyan_spec("<COMMAND>"@)]
    } else {
        Seq::empty()
    });
    assert(string_views(parts@) =~= base);
    let args = app.args.as_slice();
    let mut k: usize = 0;
    while k < args.len()
        invariant
            k <= args@.len(),
            args@ == app.args@,
            ups@.len() == args@.len(),
            uv == string_views(ups@),
            string_views(parts@) == base + positional_placeholders(
                args@.take(k as int),
                uv.take(k as int),
            ),
        decreases args@.len() - k,
    {
        let ghost before = parts@;
        if is_positional_arg(&args[k]) {
            let p = placeholder_text(ups[k].as_str());
            parts.push(p);
            proof {
                lemma_string_views_push(before, p);
            }
        }
        k += 1;
        proof {
            let t = args@.take(k as int);
            let u = uv.take(k as int);
            assert(t.drop_last() =~= args@.take(k - 1));
            assert(u.drop_last() =~= uv.take(k - 1));
            assert(t.last() == args@[k - 1]);
            assert(u.last() == uv[k - 1]);
            assert(string_views(parts@) =~= base + positional_placeholders(t, u));
        }
    }
    assert(args@.take(args@.len() as int) =~= args@);
    assert(uv.take(uv.len() as int) =~= uv);
    assert(string_views(parts@) =~= usage_parts(*app, pv, uv));
    let line = joined(&parts, " ");
    let mut r = bold("usage:");
    r.append(" ");
    r.append(line.as_str());
    r.append("\n");
    assert(r@ =~= usage_section(*app, pv, uv));
    r
}

fn about_text(app: &App) -> (r: String)
    ensures
        r@ == about_section(*app),
{
    match app.about {
        Some(a) => {
            let mut r = String::from_str("\n");
            r.append("  ");
            r.append(a);
            r.append("\n");
            r
        },
        None => String::new(),
    }
}

fn arguments_text(args: &[Arg], ups: &[String]) -> (r: String)
    requires
        ups@.len() == args@.len(),
    ensures
        r@ == arguments_section(args@, string_views(ups@)),
{
    let ghost uv = string_views(ups@);
    if !any_positional(args) {
        return String::new();
    }
    let mut r = String::from_str("\n");
    r.append(bold("arguments:").as_str());
    r.append("\n");
    let ghost head = r@;
    let mut k: usize = 0;
    while k < args.len()
        invariant
            k <= args@.len(),
            ups@.len() == args@.len(),
            uv == string_views(ups@),
            r@ == head + argument_lines(args@.take(k as int), uv.take(k as int)),
        decreases args@.len() - k,
    {
        if is_positional_arg(&args[k]) {
            r.append("  ");
            r.append(placeholder_text(ups[k].as_str()).as_str());
            r.append("\n");
        }
        k += 1;
        proof {
            let t = args@.take(k as int);
            let u = uv.take(k as int);
            assert(t.drop_last() =~= args@.take(k - 1));
            assert(u.drop_last() =~= uv.take(k - 1));
            assert(t.last() == args@[k - 1]);
            assert(u.last() == uv[k - 1]);
            assert(r@ =~= head + argument_lines(t, u));
        }
    }
    assert(args@.take(args@.len() as int) =~= args@);
    assert(uv.take(uv.len() as int) =~= uv);
    r
}

fn pad_for(s: &str) -> (r: usize)
    ensures
        r as nat == pad_to_24(s@),
{
    24usize.saturating_sub(s.len())
}

fn option_line_text(a: &Arg, up: &str) -> (r: String)
    ensures
        r@ == option_line(*a, up@),
{
    let mut r = String::from_str("  ");
    match a.short {
        Some(c) => {
            let mut dash = String::from_str("-");
            push_char(&mut dash, c);
            r.append(green(dash.as_str()).as_str());
            r.append(", ");
        },
        None => {
            r.append("    ");
        },
    }
    assert(r@ =~= "  "@ + short_column(*a));
    let mut dashed = String::from_str("--");
    dashed.append(a.name);
    r.append(green(dashed.as_str()).as_str());
    let mut plain = dashed;
    let is_value = match a.kind {
        ArgKind::Value => true,
        _ => false,
    };
    if is_value {
        r.append(" ");
        r.append(placeholder_text(up).as_str());
        plain.append(" <");
        plain.append(up);
        plain.append(">");
    }
    assert(r@ =~= "  "@ + short_column(*a) + long_column(*a, up@));
    assert(plain@ =~= plain_long_column(*a, up@));
    let pad: usize = pad_for(plain.as_str());
    r.append(spaces(pad).as_str());
    r.append("  ");
    let label = match a.kind {
        ArgKind::Flag => dim("[flag]"),
        ArgKind::Count => dim("[count]"),
        ArgKind::Value => dim("[value]"),
        ArgKind::Positional => String::new(),
    };
    r.append(label.as_str());
    r.append("\n");
    assert(r@ =~= option_line(*a, up@));
    r
}

fn options_text(args: &[Arg], ups: &[String]) -> (r: String)
    requires
        ups@.len() == args@.len(),
    ensures
        r@ == options_section(args@, string_views(ups@)),
{
    let ghost uv = string_views(ups@);
    let mut r = String::from_str("\n");
    r.append(bold("options:").as_str());
    r.append("\n");
    let ghost head = r@;
    let mut k: usize = 0;
    while k < args.len()
        invariant
            k <= args@.len(),
            ups@.len() == args@.len(),
            uv == string_views(ups@),
            r@ == head + option_lines(args@.take(k as int), uv.take(k as int)),
        decreases args@.len() - k,
    {
        if !is_positional_arg(&args[k]) {
            r.append(option_line_text(&args[k], ups[k].as_str()).as_str());
        }
        k += 1;
        proof {
            let t = args@.take(k as int);
            let u = uv.take(k as int);
            assert(t.drop_last() =~= args@.take(k - 1));
            assert(u.drop_last() =~= uv.take(k - 1));
            assert(t.last() == args@[k - 1]);
            assert(u.last() == uv[k - 1]);
            assert(r@ =~= head + option_lines(t, u));
        }
    }
    assert(args@.take(args@.len() as int) =~= args@);
    assert(uv.take(uv.len() as int) =~= uv);
    let ghost lines = r@;
    let mut flags = green("-h");
    flags.append(", ");
    flags.append(green("--help").as_str());
    r.append("  ");
    r.append(flags.as_str());
    r.append(spaces(pad_for("-h, --help")).as_str());
    r.append("  ");
    r.append(dim("print help").as_str());
    r.append("\n");
    assert(r@ =~= lines + help_option_line());
    r
}

fn same_category(a: &App, cat: Option<&str>) -> (r: bool)
    ensures
        r == (category_of(*a) == opt_view(cat)),
{
    match (a.category, cat) {
        (Some(x), Some(y)) => str_eq(x, y),
        (None, None) => true,
        _ => false,
    }
}

fn width_of(subs: &[App]) -> (r: usize)
    ensures
        r as nat == name_width(subs@),
{
    let mut w: usize = 0;
    let mut i: usize = 0;
    while i < subs.len()
        invariant
            i <= subs@.len(),
            w as nat == name_width(subs@.take(i as int)),
        decreases subs@.len() - i,
    {
        let n: usize = subs[i].name.len();
        if n > w {
            w = n;
        }
        i += 1;
        proof {
            let t = subs@.take(i as int);
            assert(t.drop_last() =~= subs@.take(i - 1));
            assert(t.last() == subs@[i - 1]);
        }
    }
    assert(subs@.take(subs@.len() as int) =~= subs@);
    w
}

fn contains_str(v: &Vec<&'static str>, s: &str) -> (r: bool)
    ensures
        r == str_views(v@).contains(s@),
{
    let mut i: usize = 0;
    while i < v.len()
        invariant
            i <= v@.len(),
            forall|j: int| 0 <= j < i ==> v@[j]@ != s@,
        decreases v@.len() - i,
    {
        if str_eq(v[i], s) {
            assert(str_views(v@)[i as int] == s@);
            return true;
        }
        i += 1;
    }
    assert forall|j: int| 0 <= j < str_views(v@).len() implies str_views(v@)[j] != s@ by {
        assert(str_views(v@)[j] == v@[j]@);
    }
    false
}

fn labels_of(subs: &[App]) -> (r: Vec<&'static str>)
    ensures
        str_views(r@) == category_labels(subs@),
{
    let mut r: Vec<&'static str> = Vec::new();
    let mut i: usize = 0;
    assert(str_views(r@) =~= Seq::<Seq<char>>::empty());
    while i < subs.len()
        invariant
            i <= subs@.len(),
            str_views(r@) == category_labels(subs@.take(i as int)),
        decreases subs@.len() - i,
    {
        let ghost before = r@;
        match subs[i].category {
            Some(c) => {
                if !contains_str(&r, c) {
                    r.push(c);
                    assert(str_views(r@) =~= str_views(before).push(c@));
                }
            },
            None => {},
        }
        i += 1;
        proof {
            let t = subs@.take(i as int);
            assert(t.drop_last() =~= subs@.take(i - 1));
            assert(t.last() == subs@[i - 1]);
        }
    }
    assert(subs@.take(subs@.len() as int) =~= subs@);
    r
}

fn any_uncategorised(subs: &[App]) -> (r: bool)
    ensures
        r == has_uncategorised(subs@),
{
    let mut i: usize = 0;
    while i < subs.len()
        invariant
            i <= subs@.len(),
            forall|j: int| 0 <= j < i ==> (#[trigger] subs@[j]).category is Some,
        decreases subs@.len() - i,
    {
        if subs[i].category.is_none() {
            return true;
        }
        i += 1;
    }
    false
}

fn command_line_text(a: &App, width: usize, indent: &str) -> (r: String)
    ensures
        r@ == command_line(*a, width as nat, indent@),
{
    let pad: usize = width.saturating_sub(a.name.len());
    let mut r = String::from_str(indent);
    r.append(cyan(a.name).as_str());
    r.append(spaces(pad).as_str());
    r.append("  ");
    match a.about {
        Some(t) => {
            r.append(dim(t).as_str());
        },
        None => {},
    }
    r.append("\n");
    assert(r@ =~= command_line(*a, width as nat, indent@));
    r
}

fn group_text(subs: &[App], cat: Option<&str>, width: usize, indent: &str) -> (r: String)
    ensures
        r@ == group_lines(subs@, opt_view(cat), width as nat, indent@),
{
    let mut r = String::new();
    let mut i: usize = 0;
    while i < subs.len()
        invariant
            i <= subs@.len(),
            r@ == group_lines(subs@.take(i as int), opt_view(cat), width as nat, indent@),
        decreases subs@.len() - i,
    {
        if same_category(&subs[i], cat) {
            r.append(command_line_text(&subs[i], width, indent).as_str());
        }
        i += 1;
        proof {
            let t = subs@.take(i as int);
            assert(t.drop_last() =~= subs@.take(i - 1));
            assert(t.last() == subs@[i - 1]);
        }
    }
    assert(subs@.take(subs@.len() as int) =~= subs@);
    r
}

fn command_groups_text(subs: &[App]) -> (r: String)
    ensures
        r@ == command_groups(subs@),
{
    let labels = labels_of(subs);
    let width: usize = width_of(subs);
    let ghost lv = str_views(labels@);
    if labels.len() == 0 {
        return group_text(subs, None, width, "  ");
    }
    let mut r = String::new();
    let mut j: usize = 0;
    while j < labels.len()
        invariant
            j <= labels@.len(),
            lv == str_views(labels@),
            lv == category_labels(subs@),
            width as nat == name_width(subs@),
            r@ == labelled_groups(lv.take(j as int), subs@, width as nat),
        decreases labels@.len() - j,
    {
        let label = labels[j];
        r.append("  ");
        let mut heading = String::from_str(label);
        heading.append(":");
        r.append(dim(heading.as_str()).as_str());
        r.append("\n");
        r.append(group_text(subs, Some(label), width, "    ").as_str());
        j += 1;
        proof {
            let t = lv.take(j as int);
            assert(t.drop_last() =~= lv.take(j - 1));
            assert(t.last() == label@);
        }
    }
    assert(lv.take(lv.len() as int) =~= lv);
    let ghost groups = r@;
    if any_uncategorised(subs) {
        r.append("  ");
        r.append(dim("other:").as_str());
        r.append("\n");
        r.append(group_text(subs, None, width, "    ").as_str());
    }
    assert(r@ =~= command_groups(subs@));
    r
}

fn commands_text(app: &App, parents: &[&'static str]) -> (r: String)
    ensures
        r@ == commands_section(*app, str_views(parents@)),
{
    if app.subcommands.len() == 0 {
        return String::new();
    }
    let mut r = String::from_str("\n");
    r.append(bold("commands:").as_str());
    r.append("\n");
    r.append(command_groups_text(app.subcommands.as_slice()).as_str());
    r.append("\n");
    r.append("  ");
    let mut full: Vec<&'static str> = Vec::new();
    let mut i: usize = 0;
    while i < parents.len()
        invariant
            i <= parents@.len(),
            full@ == parents@.take(i as int),
        decreases parents@.len() - i,
    {
        full.push(parents[i]);
        i += 1;
        assert(full@ =~= parents@.take(i as int));
    }
    full.push(app.name);
    assert(str_views(full@) =~= str_views(parents@).push(app.name@));
    let mut hint = String::from_str("run '");
    hint.append(joined_strs(full.as_slice(), " ").as_str());
    hint.append(" <COMMAND> --help' for subcommand help");
    r.append(dim(hint.as_str()).as_str());
    r.append("\n");
    assert(r@ =~= commands_section(*app, str_views(parents@)));
    r
}

/// The names of the arguments in upper case.
fn upper_case_names(args: &[Arg]) -> (r: Vec<String>)
    ensures
        string_views(r@) == upper_names(args@),
{
    let mut r: Vec<String> = Vec::new();
    let mut i: usize = 0;
    while i < args.len()
        invariant
            i <= args@.len(),
            string_views(r@) == upper_names(args@).take(i as int),
        decreases args@.len() - i,
    {
        let ghost before = r@;
        let up = to_uppercase(args[i].name);
        r.push(up);
        proof {
            lemma_string_views_push(before, up);
        }
        i += 1;
        assert(string_views(r@) =~= upper_names(args@).take(i as int));
    }
    assert(upper_names(args@).take(args@.len() as int) =~= upper_names(args@));
    r
}

/// The help screen of `app` reached through `parents`, given the names of its arguments
/// in upper case (`ups`, one per argument, in order).
pub fn render_help(app: &App, parents: &[&'static str], ups: &[String]) -> (r: String)
    requires
        ups@.len() == app.args@.len(),
    ensures
        r@ == help_with(*app, str_views(parents@), string_views(ups@)),
{
    let mut r = usage_text(app, parents, ups);
    r.append(about_text(app).as_str());
    r.append(arguments_text(app.args.as_slice(), ups).as_str());
    r.append(options_text(app.args.as_slice(), ups).as_str());
    r.append(commands_text(app, parents).as_str());
    assert(r@ =~= help_with(*app, str_views(parents@), string_views(ups@)));
    r
}

impl App {
    /// The help screen, with a usage line that starts with the names of the parent
    /// commands through which this subcommand is reached.
    pub fn help_text_with_parents(&self, parents: &[&'static str]) -> (r: String)
        ensures
            r@ == help_spec(*self, str_views(parents@)),
    {
        let ups = upper_case_names(self.args.as_slice());
        render_help(self, parents, ups.as_slice())
    }

    /// The help screen of this application on its own.
    pub fn help_text(&self) -> (r: String)
        ensures
            r@ == help_spec(*self, Seq::empty()),
    {
        let none: Vec<&'static str> = Vec::new();
        assert(str_views(none@) =~= Seq::<Seq<char>>::empty());
        self.help_text_with_parents(none.as_slice())
    }
}

} // verus!
