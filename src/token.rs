use vstd::prelude::*;

verus! {

broadcast use vstd::string::axiom_spec_iter, vstd::string::next_postcondition;

/// A token that names an option: it starts with `-`, has a second
/// character, and is not exactly `--`.
pub open spec fn is_flag_token(t: Seq<char>) -> bool {
    t.len() >= 2 && t[0] == '-' && !(t.len() == 2 && t[1] == '-')
}

/// `-h` or `--help`.
pub open spec fn is_help_token(t: Seq<char>) -> bool {
    t == seq!['-', 'h'] || t == seq!['-', '-', 'h', 'e', 'l', 'p']
}

/// `-V` or `--version`.
pub open spec fn is_version_token(t: Seq<char>) -> bool {
    t == seq!['-', 'V'] || t == seq!['-', '-', 'v', 'e', 'r', 's', 'i', 'o', 'n']
}

/// Whether a token names an option rather than a positional value.
pub fn flag_token(s: &String) -> (r: bool)
    ensures
        r == is_flag_token(s@),
{
    let mut it = s.as_str().chars();
    let a = it.next();
    let b = it.next();
    let c = it.next();
    match (a, b) {
        (Some(x), Some(y)) => x == '-' && !(y == '-' && c.is_none()),
        _ => false,
    }
}

/// The owned string `dashes` followed by `s`.
pub fn dash_prefixed(dashes: &str, s: &String) -> (r: String)
    ensures
        r@ == dashes@ + s@,
{
    dashes.to_owned().concat(s.as_str())
}

/// The short help flag, `-h`.
pub fn short_help() -> (r: String)
    ensures
        r@ == seq!['-', 'h'],
{
    proof {
        reveal_strlit("-h");
    }
    "-h".to_owned()
}

/// The long help flag, `--help`.
pub fn long_help() -> (r: String)
    ensures
        r@ == seq!['-', '-', 'h', 'e', 'l', 'p'],
{
    proof {
        reveal_strlit("--help");
    }
    "--help".to_owned()
}

/// The short version flag, `-V`.
pub fn short_version() -> (r: String)
    ensures
        r@ == seq!['-', 'V'],
{
    proof {
        reveal_strlit("-V");
    }
    "-V".to_owned()
}

/// The long version flag, `--version`.
pub fn long_version() -> (r: String)
    ensures
        r@ == seq!['-', '-', 'v', 'e', 'r', 's', 'i', 'o', 'n'],
{
    proof {
        reveal_strlit("--version");
    }
    "--version".to_owned()
}

} // verus!
