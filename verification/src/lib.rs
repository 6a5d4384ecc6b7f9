//! A small command line parser: declare an application with its arguments
//! and subcommands, parse an argument vector into matches, and render help.
pub mod ansi;
pub mod app;
pub mod arg;
pub mod help;
pub mod help_laws;
pub mod laws;
pub mod matches;
pub mod parse;
pub mod text;

pub use app::App;
pub use arg::{Arg, ArgKind};
pub use matches::Matches;
pub use parse::{find_by_long, find_by_short, parse_app, parse_app_outcome, ParseOutcome};
