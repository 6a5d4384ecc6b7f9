use miniclap::{App, Arg, ArgKind};

fn b(s: &str) -> String {
    format!("\x1b[1m{s}\x1b[0m")
}
fn d(s: &str) -> String {
    format!("\x1b[2m{s}\x1b[0m")
}
fn c(s: &str) -> String {
    format!("\x1b[36m{s}\x1b[0m")
}
fn y(s: &str) -> String {
    format!("\x1b[33m{s}\x1b[0m")
}
fn g(s: &str) -> String {
    format!("\x1b[32m{s}\x1b[0m")
}

fn tool() -> App {
    App::new("tool")
        .about("does something useful")
        .arg(Arg::new("verbose", 'v', ArgKind::Count))
        .arg(Arg::new("output", 'o', ArgKind::Value))
        .arg(Arg::new("dry-run", ' ', ArgKind::Flag).no_short())
        .arg(Arg::positional("file"))
        .subcommand(App::new("add").about("add a package").category("packages"))
        .subcommand(App::new("remove").category("packages"))
        .subcommand(App::new("self-update"))
}

#[test]
fn full_help_screen() {
    let mut want = String::new();
    want += &format!(
        "{} {} {} {} {}\n",
        b("usage:"),
        b("tool"),
        d("[OPTIONS]"),
        c("<COMMAND>"),
        y("<FILE>")
    );
    want += "\n  does something useful\n";
    want += &format!("\n{}\n  {}\n", b("arguments:"), y("<FILE>"));
    want += &format!("\n{}\n", b("options:"));
    want += &format!("  {}, {}{}  {}\n", g("-v"), g("--verbose"), " ".repeat(15), d("[count]"));
    want += &format!(
        "  {}, {} {}{}  {}\n",
        g("-o"),
        g("--output"),
        y("<OUTPUT>"),
        " ".repeat(7),
        d("[value]")
    );
    want += &format!("      {}{}  {}\n", g("--dry-run"), " ".repeat(15), d("[flag]"));
    want += &format!("  {}, {}{}  {}\n", g("-h"), g("--help"), " ".repeat(14), d("print help"));
    want += &format!("\n{}\n", b("commands:"));
    want += &format!("  {}\n", d("packages:"));
    want += &format!("    {}{}  {}\n", c("add"), " ".repeat(8), d("add a package"));
    want += &format!("    {}{}  \n", c("remove"), " ".repeat(5));
    want += &format!("  {}\n", d("other:"));
    want += &format!("    {}  \n", c("self-update"));
    want += &format!("\n  {}\n", d("run 'tool <COMMAND> --help' for subcommand help"));
    assert_eq!(tool().help_text(), want);
}

#[test]
fn usage_line_starts_with_parents() {
    let add = App::new("add").subcommand(App::new("x"));
    let text = add.help_text_with_parents(&["mytool"]);
    let first = text.lines().next().unwrap().to_string();
    assert_eq!(first, format!("{} mytool {} {}", b("usage:"), b("add"), c("<COMMAND>")));
    assert!(text.contains(&d("run 'mytool add <COMMAND> --help' for subcommand help")));
}

#[test]
fn help_of_bare_app() {
    let text = App::new("t").help_text();
    let want = format!(
        "{} {}\n\n{}\n  {}, {}{}  {}\n",
        b("usage:"),
        b("t"),
        b("options:"),
        g("-h"),
        g("--help"),
        " ".repeat(14),
        d("print help")
    );
    assert_eq!(text, want);
}

#[test]
fn commands_without_categories_have_no_headings() {
    let app = App::new("t").subcommand(App::new("ab").about("x")).subcommand(App::new("c"));
    let text = app.help_text();
    assert!(text.contains(&format!("\n{}\n  {}  {}\n  {} {}  \n", b("commands:"), c("ab"), d("x"), c("c"), "")));
    assert!(!text.contains(&d("other:")));
}

#[test]
fn categories_keep_first_appearance_order() {
    let app = App::new("t")
        .subcommand(App::new("a").category("two"))
        .subcommand(App::new("b"))
        .subcommand(App::new("c").category("one"))
        .subcommand(App::new("d").category("two"));
    let text = app.help_text();
    let two = text.find(&d("two:")).unwrap();
    let one = text.find(&d("one:")).unwrap();
    let other = text.find(&d("other:")).unwrap();
    assert!(two < one && one < other);
    let a = text.find(&c("a")).unwrap();
    let dd = text.find(&c("d")).unwrap();
    assert!(two < a && a < dd && dd < one);
}

#[test]
fn uppercase_placeholder_for_value_and_positional() {
    let app = App::new("t").arg(Arg::new("out-dir", 'o', ArgKind::Value)).arg(Arg::positional("src"));
    let text = app.help_text();
    assert!(text.contains(&y("<OUT-DIR>")));
    assert!(text.contains(&y("<SRC>")));
}

#[test]
fn long_option_pads_to_nothing() {
    let app = App::new("t").arg(Arg::new("a-very-long-option-name", 'a', ArgKind::Flag));
    let text = app.help_text();
    assert!(text.contains(&format!("  {}, {}  {}\n", g("-a"), g("--a-very-long-option-name"), d("[flag]"))));
}

#[test]
fn render_help_uses_the_given_upper_case_names() {
    let app = App::new("t").arg(Arg::new("out", 'o', ArgKind::Value)).arg(Arg::positional("src"));
    let ups = vec![String::from("OUTPUT"), String::from("SOURCE")];
    let text = miniclap::help::render_help(&app, &[], &ups);
    assert!(text.contains(&y("<OUTPUT>")));
    assert!(text.contains(&y("<SOURCE>")));
    assert!(!text.contains(&y("<OUT>")));
    let usual = miniclap::help::render_help(&app, &[], &[String::from("OUT"), String::from("SRC")]);
    assert_eq!(usual, app.help_text());
}
