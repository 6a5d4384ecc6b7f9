use miniclap::ansi::{bold, cyan, dim, green, yellow};

#[test]
fn bold_wraps_in_escape_codes() {
    assert_eq!(bold("usage:"), "\x1b[1musage:\x1b[0m");
}

#[test]
fn dim_wraps_in_escape_codes() {
    assert_eq!(dim("[flag]"), "\x1b[2m[flag]\x1b[0m");
}

#[test]
fn cyan_wraps_in_escape_codes() {
    assert_eq!(cyan("add"), "\x1b[36madd\x1b[0m");
}

#[test]
fn yellow_wraps_in_escape_codes() {
    assert_eq!(yellow("<FILE>"), "\x1b[33m<FILE>\x1b[0m");
}

#[test]
fn green_wraps_in_escape_codes() {
    assert_eq!(green("-v"), "\x1b[32m-v\x1b[0m");
}

#[test]
fn styling_empty_text() {
    assert_eq!(bold(""), "\x1b[1m\x1b[0m");
}
