//! Terminal styling: wraps text in ANSI escape sequences.
use vstd::prelude::*;

verus! {

/// Text wrapped in the escape sequence `start` and the reset sequence.
pub open spec fn styled(start: Seq<char>, s: Seq<char>) -> Seq<char> {
    start + s + "\x1b[0m"@
}

pub open spec fn bold_spec(s: Seq<char>) -> Seq<char> {
    styled("\x1b[1m"@, s)
}

pub open spec fn dim_spec(s: Seq<char>) -> Seq<char> {
    styled("\x1b[2m"@, s)
}

pub open spec fn cyan_spec(s: Seq<char>) -> Seq<char> {
    styled("\x1b[36m"@, s)
}

pub open spec fn yellow_spec(s: Seq<char>) -> Seq<char> {
    styled("\x1b[33m"@, s)
}

pub open spec fn green_spec(s: Seq<char>) -> Seq<char> {
    styled("\x1b[32m"@, s)
}

fn style(start: &str, s: &str) -> (r: String)
    ensures
        r@ == styled(start@, s@),
{
    let mut r = String::from_str(start);
    r.append(s);
    r.append("\x1b[0m");
    r
}

/// `s` in bold.
pub fn bold(s: &str) -> (r: String)
    ensures
        r@ == bold_spec(s@),
{
    style("\x1b[1m", s)
}

/// `s` dimmed.
pub fn dim(s: &str) -> (r: String)
    ensures
        r@ == dim_spec(s@),
{
    style("\x1b[2m", s)
}

/// `s` in cyan.
pub fn cyan(s: &str) -> (r: String)
    ensures
        r@ == cyan_spec(s@),
{
    style("\x1b[36m", s)
}

/// `s` in yellow.
pub fn yellow(s: &str) -> (r: String)
    ensures
        r@ == yellow_spec(s@),
{
    style("\x1b[33m", s)
}

/// `s` in green.
pub fn green(s: &str) -> (r: String)
    ensures
        r@ == green_spec(s@),
{
    style("\x1b[32m", s)
}

} // verus!
