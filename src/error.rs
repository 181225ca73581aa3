use vstd::prelude::*;

verus! {

/// What went wrong in a parse, as the contracts speak of it.
pub enum Fail {
    UnknownOption(Seq<char>),
    MissingValue(Seq<char>),
    NoProvide(Seq<char>),
    NoProvideEnough(Seq<char>),
    NoNeed(Seq<Seq<char>>),
    OptionMissing(Seq<char>),
    ArgsMissing(Seq<char>),
    ZeroArgs,
    ZeroArgsOrCommand,
}

/// A parse failure: the offending token or slot name, and its kind.
#[derive(Debug, PartialEq, Eq)]
pub enum ParseError {
    /// A flag-shaped token that no option declares.
    UnknownOption(String),
    /// A value-taking option given as the last token.
    MissingValue(String),
    /// A required positional slot got no token at all.
    NoProvide(String),
    /// A required positional slot got fewer tokens than its arity.
    NoProvideEnough(String),
    /// Tokens left over once every positional slot is served.
    NoNeed(Vec<String>),
    /// A required option holds no value after the parse.
    OptionMissing(String),
    /// A required positional slot holds no value after the parse.
    ArgsMissing(String),
    /// The active command was given no token and does not accept that.
    ZeroArgs,
    /// As `ZeroArgs`, on the main command of an application with sub-commands.
    ZeroArgsOrCommand,
}

/// The character sequences of a list of strings.
pub open spec fn strs(v: Seq<String>) -> Seq<Seq<char>> {
    Seq::new(v.len(), |k: int| v[k]@)
}

impl View for ParseError {
    type V = Fail;

    open spec fn view(&self) -> Fail {
        match self {
            ParseError::UnknownOption(s) => Fail::UnknownOption(s@),
            ParseError::MissingValue(s) => Fail::MissingValue(s@),
            ParseError::NoProvide(s) => Fail::NoProvide(s@),
            ParseError::NoProvideEnough(s) => Fail::NoProvideEnough(s@),
            ParseError::NoNeed(v) => Fail::NoNeed(strs(v@)),
            ParseError::OptionMissing(s) => Fail::OptionMissing(s@),
            ParseError::ArgsMissing(s) => Fail::ArgsMissing(s@),
            ParseError::ZeroArgs => Fail::ZeroArgs,
            ParseError::ZeroArgsOrCommand => Fail::ZeroArgsOrCommand,
        }
    }
}

/// The view of a result whose success carries nothing.
pub open spec fn unit_result(r: Result<(), ParseError>) -> Result<(), Fail> {
    match r {
        Ok(_) => Ok(()),
        Err(e) => Err(e@),
    }
}

/// A copy of a list of strings, element by element.
pub fn copy_strs(t: &[String], lo: usize, hi: usize) -> (r: Vec<String>)
    requires
        lo <= hi <= t@.len(),
    ensures
        strs(r@) == strs(t@).subrange(lo as int, hi as int),
{
    let mut r: Vec<String> = Vec::new();
    let mut i: usize = lo;
    while i < hi
        invariant
            lo <= i <= hi <= t@.len(),
            r@.len() == i - lo,
            strs(r@) == strs(t@).subrange(lo as int, i as int),
        decreases hi - i,
    {
        let c = t[i].clone();
        let ghost before = r@;
        r.push(c);
        assert(r@ == before.push(t@[i as int]));
        i = i + 1;
        assert(strs(r@) =~= strs(t@).subrange(lo as int, i as int));
    }
    r
}

} // verus!
