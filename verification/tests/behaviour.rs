use miniclap::{find_by_long, find_by_short, App, Arg, ArgKind, ParseOutcome};

fn tool() -> App {
    App::new("tool")
        .arg(Arg::new("verbose", 'v', ArgKind::Count))
        .arg(Arg::new("quiet", 'q', ArgKind::Flag))
        .arg(Arg::new("output", 'o', ArgKind::Value))
        .arg(Arg::positional("file"))
        .subcommand(App::new("add").arg(Arg::new("force", 'f', ArgKind::Flag)))
}

#[test]
fn arg_new_sets_fields() {
    let a = Arg::new("output", 'o', ArgKind::Value);
    assert_eq!(a.name, "output");
    assert_eq!(a.short, Some('o'));
    assert_eq!(a.kind, ArgKind::Value);
}

#[test]
fn arg_positional_has_no_short() {
    let a = Arg::positional("file");
    assert_eq!(a.name, "file");
    assert_eq!(a.short, None);
    assert_eq!(a.kind, ArgKind::Positional);
}

#[test]
fn arg_no_short_drops_short() {
    let a = Arg::new("dry-run", ' ', ArgKind::Flag).no_short();
    assert_eq!(a.short, None);
    assert_eq!(a.name, "dry-run");
    assert_eq!(a.kind, ArgKind::Flag);
}

#[test]
fn app_builders_keep_order() {
    let app = App::new("tool")
        .about("does things")
        .category("main")
        .arg(Arg::new("a", 'a', ArgKind::Flag))
        .arg(Arg::new("b", 'b', ArgKind::Count))
        .subcommand(App::new("x"))
        .subcommand(App::new("y"));
    assert_eq!(app.name, "tool");
    assert_eq!(app.about, Some("does things"));
    assert_eq!(app.category, Some("main"));
    let names: Vec<&str> = app.args().iter().map(|a| a.name).collect();
    assert_eq!(names, vec!["a", "b"]);
    assert_eq!(app.find_subcommand("y").unwrap().name, "y");
    assert!(app.find_subcommand("z").is_none());
}

#[test]
fn find_subcommand_takes_first_of_same_name() {
    let app = App::new("tool")
        .subcommand(App::new("x").about("first"))
        .subcommand(App::new("x").about("second"));
    assert_eq!(app.find_subcommand("x").unwrap().about, Some("first"));
}

#[test]
fn find_by_long_skips_positionals() {
    let app = App::new("tool")
        .arg(Arg::positional("file"))
        .arg(Arg::new("file", 'f', ArgKind::Value));
    let found = find_by_long(&app, "file").unwrap();
    assert_eq!(found.kind, ArgKind::Value);
    assert!(find_by_long(&app, "missing").is_none());
}

#[test]
fn find_by_short_takes_first() {
    let app = App::new("tool")
        .arg(Arg::new("one", 'x', ArgKind::Flag))
        .arg(Arg::new("two", 'x', ArgKind::Count));
    assert_eq!(find_by_short(&app, 'x').unwrap().name, "one");
    assert!(find_by_short(&app, 'y').is_none());
}

#[test]
fn long_count_with_equals_still_counts() {
    let m = tool().parse_args(&["--verbose=3"]);
    assert_eq!(m.count("verbose"), 1);
}

#[test]
fn short_cluster_flag_then_adjacent_value() {
    let m = tool().parse_args(&["-vqofile.txt"]);
    assert_eq!(m.count("verbose"), 1);
    assert!(m.flag("quiet"));
    assert_eq!(m.value("output"), Some("file.txt"));
}

#[test]
fn short_value_last_in_cluster_takes_next_token() {
    let m = tool().parse_args(&["-vo", "out.txt", "in.txt"]);
    assert_eq!(m.count("verbose"), 1);
    assert_eq!(m.value("output"), Some("out.txt"));
    assert_eq!(m.positionals(), &["in.txt"]);
}

#[test]
fn value_at_end_is_empty() {
    assert_eq!(tool().parse_args(&["--output"]).value("output"), Some(""));
    assert_eq!(tool().parse_args(&["-o"]).value("output"), Some(""));
}

#[test]
fn value_takes_token_that_looks_like_a_flag() {
    let m = tool().parse_args(&["--output", "-q"]);
    assert_eq!(m.value("output"), Some("-q"));
    assert!(!m.flag("quiet"));
}

#[test]
fn value_takes_subcommand_name() {
    let m = tool().parse_args(&["-o", "add"]);
    assert_eq!(m.value("output"), Some("add"));
    assert_eq!(m.subcommand_name(), None);
}

#[test]
fn last_value_wins() {
    let m = tool().parse_args(&["--output", "a", "--output=b"]);
    assert_eq!(m.value("output"), Some("b"));
}

#[test]
fn value_forms_agree() {
    for argv in [
        vec!["--output", "x.txt"],
        vec!["--output=x.txt"],
        vec!["-o", "x.txt"],
        vec!["-ox.txt"],
    ] {
        let m = tool().parse_args(&argv);
        assert_eq!(m.value("output"), Some("x.txt"));
        assert!(m.positionals().is_empty());
    }
}

#[test]
fn inline_value_keeps_later_equals() {
    let m = tool().parse_args(&["--output=a=b"]);
    assert_eq!(m.value("output"), Some("a=b"));
}

#[test]
fn unknown_tokens_are_ignored() {
    let m = tool().parse_args(&["--nope", "-z", "-", "--", "x"]);
    assert_eq!(m.count("verbose"), 0);
    assert!(!m.flag("quiet"));
    assert_eq!(m.value("output"), None);
    assert_eq!(m.positionals(), &["x"]);
}

#[test]
fn undeclared_names_stay_unset_whatever_the_tokens() {
    let m = tool().parse_args(&["-vvq", "--output", "o", "nope"]);
    assert!(!m.flag("nope"));
    assert_eq!(m.count("nope"), 0);
    assert_eq!(m.value("nope"), None);
}

#[test]
fn count_counts_every_occurrence() {
    let m = tool().parse_args(&["-vqv", "--verbose", "a", "-v"]);
    assert_eq!(m.count("verbose"), 4);
    assert!(m.flag("quiet"));
    assert_eq!(m.positionals(), &["a"]);
}

#[test]
fn cluster_equals_separate_tokens() {
    let a = tool().parse_args(&["-vq"]);
    let b = tool().parse_args(&["-v", "-q"]);
    assert_eq!(a.count("verbose"), b.count("verbose"));
    assert_eq!(a.flag("quiet"), b.flag("quiet"));
}

#[test]
fn subcommand_gets_the_rest() {
    let m = tool().parse_args(&["-v", "x", "add", "-f", "y"]);
    assert_eq!(m.count("verbose"), 1);
    assert_eq!(m.positionals(), &["x"]);
    let sub = m.subcommand("add").unwrap();
    assert!(sub.flag("force"));
    assert_eq!(sub.positionals(), &["y"]);
    assert_eq!(sub.count("verbose"), 0);
}

#[test]
fn subcommand_name_and_subcommand_agree() {
    let m = tool().parse_args(&["add"]);
    assert_eq!(m.subcommand_name(), Some("add"));
    assert!(m.subcommand("add").is_some());
    assert!(m.subcommand("tool").is_none());
    let none = tool().parse_args(&[]);
    assert!(none.subcommand("add").is_none());
}

#[test]
fn help_at_root_gives_root_help() {
    let app = tool();
    match app.try_parse_args(&["-v", "--help"]) {
        ParseOutcome::Help(text) => assert_eq!(text, app.help_text()),
        ParseOutcome::Parsed(_) => panic!("expected help"),
    }
}

#[test]
fn help_taken_as_value_still_asks_for_help() {
    let app = tool();
    match app.try_parse_args(&["-o", "-h"]) {
        ParseOutcome::Help(text) => assert_eq!(text, app.help_text()),
        ParseOutcome::Parsed(_) => panic!("expected help"),
    }
}

#[test]
fn help_after_subcommand_is_scoped() {
    let app = tool();
    match app.try_parse_args(&["add", "-h"]) {
        ParseOutcome::Help(text) => {
            let sub = app.find_subcommand("add").unwrap();
            assert_eq!(text, sub.help_text_with_parents(&["tool"]));
        }
        ParseOutcome::Parsed(_) => panic!("expected help"),
    }
}

#[test]
fn help_before_subcommand_is_the_root_help() {
    let app = tool();
    match app.try_parse_args(&["--help", "add"]) {
        ParseOutcome::Help(text) => assert_eq!(text, app.help_text()),
        ParseOutcome::Parsed(_) => panic!("expected help"),
    }
}

#[test]
fn try_parse_without_help_parses() {
    match tool().try_parse_args(&["-v"]) {
        ParseOutcome::Parsed(m) => assert_eq!(m.count("verbose"), 1),
        ParseOutcome::Help(_) => panic!("expected matches"),
    }
}

#[test]
fn parse_app_with_parents_parses() {
    let app = tool();
    let m = miniclap::parse_app(&app, &["-q", "add"], &["outer"]);
    assert!(m.flag("quiet"));
    assert_eq!(m.subcommand_name(), Some("add"));
}

#[test]
fn parse_app_outcome_scopes_help_under_parents() {
    let app = tool();
    match miniclap::parse_app_outcome(&app, &["add", "--help"], &["outer"]) {
        ParseOutcome::Help(text) => {
            let sub = app.find_subcommand("add").unwrap();
            assert_eq!(text, sub.help_text_with_parents(&["outer", "tool"]));
        }
        ParseOutcome::Parsed(_) => panic!("expected help"),
    }
}

#[test]
fn non_ascii_tokens() {
    let m = tool().parse_args(&["--output=é", "ü"]);
    assert_eq!(m.value("output"), Some("é"));
    assert_eq!(m.positionals(), &["ü"]);
}

#[test]
fn dispatch_at_later_position_matches_separate_parses() {
    let whole = tool().parse_args(&["-v", "x", "-q", "add", "-f", "y"]);
    let before = tool().parse_args(&["-v", "x", "-q"]);
    let after = tool().find_subcommand("add").unwrap().clone().parse_args(&["-f", "y"]);
    assert_eq!(whole.count("verbose"), before.count("verbose"));
    assert_eq!(whole.flag("quiet"), before.flag("quiet"));
    assert_eq!(whole.positionals(), before.positionals());
    assert_eq!(whole.subcommand_name(), Some("add"));
    let sub = whole.subcommand("add").unwrap();
    assert_eq!(sub.flag("force"), after.flag("force"));
    assert_eq!(sub.positionals(), after.positionals());
    assert_eq!(sub.positionals(), &["y"]);
}

#[test]
fn unknown_long_option_before_the_line_is_ignored() {
    for unknown in ["--nope", "--nope=3", "--"] {
        let with = tool().parse_args(&[unknown, "-v", "a", "add", "-f"]);
        let without = tool().parse_args(&["-v", "a", "add", "-f"]);
        assert_eq!(with.count("verbose"), without.count("verbose"));
        assert_eq!(with.count("verbose"), 1);
        assert_eq!(with.flag("quiet"), without.flag("quiet"));
        assert_eq!(with.value("output"), without.value("output"));
        assert_eq!(with.positionals(), without.positionals());
        assert_eq!(with.subcommand_name(), without.subcommand_name());
        assert_eq!(
            with.subcommand("add").unwrap().flag("force"),
            without.subcommand("add").unwrap().flag("force")
        );
    }
}

#[test]
fn unknown_long_option_does_not_take_the_next_token() {
    let m = tool().parse_args(&["--nope", "x"]);
    assert_eq!(m.positionals(), &["x"]);
}

#[test]
fn clone_copies_nested_subcommands() {
    let app = App::new("tool").subcommand(
        App::new("remote")
            .about("manage remotes")
            .category("setup")
            .arg(Arg::new("verbose", 'v', ArgKind::Flag))
            .subcommand(App::new("add").arg(Arg::positional("url"))),
    );
    let copy = app.clone();
    let remote = copy.find_subcommand("remote").unwrap();
    assert_eq!(remote.about, Some("manage remotes"));
    assert_eq!(remote.category, Some("setup"));
    assert_eq!(remote.args().len(), 1);
    assert_eq!(remote.args()[0].name, "verbose");
    let add = remote.find_subcommand("add").unwrap();
    assert_eq!(add.args()[0].name, "url");
    assert_eq!(add.args()[0].kind, ArgKind::Positional);
}
