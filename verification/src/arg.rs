//! Argument declarations.
use vstd::prelude::*;

verus! {

/// How an argument is given on the command line.
#[derive(Debug, Clone, Copy, PartialEq, Eq, Structural)]
pub enum ArgKind {
    /// Present or absent: `--verbose`.
    Flag,
    /// How many times it appears: `-vvv` counts three.
    Count,
    /// Takes a string: `--output file.txt`, `--output=file.txt`, `-o file.txt`, `-ofile.txt`.
    Value,
    /// A bare argument that does not start with `-`.
    Positional,
}

/// One declared argument: its long name, its optional short character and its kind.
#[derive(Debug, Clone, Copy)]
pub struct Arg {
    pub name: &'static str,
    pub short: Option<char>,
    pub kind: ArgKind,
}

impl Arg {
    /// An argument with a long name, a short character and a kind.
    pub fn new(name: &'static str, short: char, kind: ArgKind) -> (r: Self)
        ensures
            r.name == name,
            r.short == Some(short),
            r.kind == kind,
    {
        Arg { name, short: Some(short), kind }
    }

    /// A positional argument: it has no short character.
    pub fn positional(name: &'static str) -> (r: Self)
        ensures
            r.name == name,
            r.short == None::<char>,
            r.kind == ArgKind::Positional,
    {
        Arg { name, short: None, kind: ArgKind::Positional }
    }

    /// The same argument without a short character (a long-only argument).
    pub fn no_short(self) -> (r: Self)
        ensures
            r.name == self.name,
            r.short == None::<char>,
            r.kind == self.kind,
    {
        let mut s = self;
        s.short = None;
        s
    }
}

} // verus!
