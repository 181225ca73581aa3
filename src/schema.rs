use vstd::prelude::*;
use crate::error::strs;
use crate::token::dash_prefixed;

verus! {

/// What an option holds: a presence flag, or the text of its value.
#[derive(Debug, PartialEq, Eq)]
pub enum OptValue {
    /// A boolean option: `true` once its flag was seen.
    Bool(bool),
    /// A value-taking option: its value, if given or defaulted.
    Str(Option<String>),
}

/// The contents of an option's storage.
pub enum OptVal {
    Bool(bool),
    Str(Option<Seq<char>>),
}

impl View for OptValue {
    type V = OptVal;

    open spec fn view(&self) -> OptVal {
        match self {
            OptValue::Bool(b) => OptVal::Bool(*b),
            OptValue::Str(None) => OptVal::Str(None),
            OptValue::Str(Some(s)) => OptVal::Str(Some(s@)),
        }
    }
}

/// The storage of an option after it was bound to `tok` (ignored by a
/// boolean option).
pub open spec fn bound_opt(v: OptVal, tok: Seq<char>) -> OptVal {
    match v {
        OptVal::Bool(_) => OptVal::Bool(true),
        OptVal::Str(_) => OptVal::Str(Some(tok)),
    }
}

/// Whether the storage holds a value: a flag always does.
pub open spec fn has_value(v: OptVal) -> bool {
    match v {
        OptVal::Bool(_) => true,
        OptVal::Str(s) => s is Some,
    }
}

/// The contents of a positional slot's storage.
pub open spec fn args_val(v: Option<Vec<String>>) -> Option<Seq<Seq<char>>> {
    match v {
        Some(t) => Some(strs(t@)),
        None => None,
    }
}

/// An option: a named flag, short (`-x`), long (`--xx`) or both.
pub struct Opt {
    pub name: String,
    pub value: OptValue,
    pub optional: bool,
    pub short: Option<String>,
    pub long: Option<String>,
    pub help: String,
}

/// Whether `t` is one of the flags of `o`.
pub open spec fn names_flag(o: Opt, t: Seq<char>) -> bool {
    (o.short matches Some(s) && t == seq!['-'] + s@) || (o.long matches Some(l) && t
        == seq!['-', '-'] + l@)
}

impl Opt {
    /// An option with no flag yet, required, with no help text.
    pub fn new(name: &str, value: OptValue) -> (r: Opt)
        ensures
            r.name@ == name@,
            r.value@ == value@,
            !r.optional,
            r.short is None,
            r.long is None,
            r.help@.len() == 0,
    {
        Opt {
            name: name.to_owned(),
            value,
            optional: false,
            short: None,
            long: None,
            help: String::new(),
        }
    }

    /// Marks the option as optional: it is not checked after the parse.
    pub fn optional(self) -> (r: Opt)
        ensures
            r == (Opt { optional: true, ..self }),
    {
        Opt { optional: true, ..self }
    }

    /// Sets the short flag, written without its dash.
    pub fn short(self, short: &str) -> (r: Opt)
        ensures
            r.short matches Some(s) && s@ == short@,
            r.name == self.name && r.value == self.value && r.optional == self.optional,
            r.long == self.long && r.help == self.help,
    {
        Opt { short: Some(short.to_owned()), ..self }
    }

    /// Sets the long flag, written without its dashes.
    pub fn long(self, long: &str) -> (r: Opt)
        ensures
            r.long matches Some(l) && l@ == long@,
            r.name == self.name && r.value == self.value && r.optional == self.optional,
            r.short == self.short && r.help == self.help,
    {
        Opt { long: Some(long.to_owned()), ..self }
    }

    /// Sets the help text.
    pub fn help(self, help: &str) -> (r: Opt)
        ensures
            r.help@ == help@,
            r.name == self.name && r.value == self.value && r.optional == self.optional,
            r.short == self.short && r.long == self.long,
    {
        Opt { help: help.to_owned(), ..self }
    }

    /// Binds the option to a token: a flag is set, a value is replaced.
    pub fn parse(&mut self, tok: &String)
        ensures
            final(self).value@ == bound_opt(old(self).value@, tok@),
            final(self).name == old(self).name && final(self).optional == old(self).optional,
            final(self).short == old(self).short && final(self).long == old(self).long,
            final(self).help == old(self).help,
    {
        let v = match &self.value {
            OptValue::Bool(_) => OptValue::Bool(true),
            OptValue::Str(_) => OptValue::Str(Some(tok.clone())),
        };
        self.value = v;
    }

    pub fn value(&self) -> (r: &OptValue)
        ensures
            r == &self.value,
    {
        &self.value
    }

    pub fn value_mut(&mut self) -> (r: &mut OptValue)
        ensures
            *r == old(self).value,
            final(self).value == *final(r),
            final(self).name == old(self).name && final(self).optional == old(self).optional,
            final(self).short == old(self).short && final(self).long == old(self).long,
            final(self).help == old(self).help,
    {
        &mut self.value
    }

    pub fn is_optional(&self) -> (r: bool)
        ensures
            r == self.optional,
    {
        self.optional
    }

    pub fn is_bool(&self) -> (r: bool)
        ensures
            r == (self.value is Bool),
    {
        match &self.value {
            OptValue::Bool(_) => true,
            OptValue::Str(_) => false,
        }
    }

    pub fn name_get(&self) -> (r: &String)
        ensures
            r == &self.name,
    {
        &self.name
    }

    /// The short flag with its dash.
    pub fn short_get(&self) -> (r: Option<String>)
        ensures
            match (r, self.short) {
                (Some(f), Some(s)) => f@ == seq!['-'] + s@,
                (None, None) => true,
                _ => false,
            },
    {
        match &self.short {
            Some(s) => {
                proof {
                    reveal_strlit("-");
                }
                Some(dash_prefixed("-", s))
            },
            None => None,
        }
    }

    /// The long flag with its dashes.
    pub fn long_get(&self) -> (r: Option<String>)
        ensures
            match (r, self.long) {
                (Some(f), Some(l)) => f@ == seq!['-', '-'] + l@,
                (None, None) => true,
                _ => false,
            },
    {
        match &self.long {
            Some(l) => {
                proof {
                    reveal_strlit("--");
                }
                Some(dash_prefixed("--", l))
            },
            None => None,
        }
    }

    pub fn help_get(&self) -> (r: &String)
        ensures
            r == &self.help,
    {
        &self.help
    }
}

/// A positional slot: it takes a fixed number of tokens, or, without a
/// length, as many as are left to it.
pub struct Args {
    pub name: String,
    pub value: Option<Vec<String>>,
    pub optional: bool,
    pub len: Option<usize>,
    pub help: String,
}

impl Args {
    /// A required slot of unbounded arity; `value` is its default.
    pub fn new(name: &str, value: Option<Vec<String>>) -> (r: Args)
        ensures
            r.name@ == name@,
            r.value == value,
            !r.optional,
            r.len is None,
            r.help@.len() == 0,
    {
        Args { name: name.to_owned(), value, optional: false, len: None, help: String::new() }
    }

    /// Fixes the slot's arity.
    pub fn len(self, len: usize) -> (r: Args)
        ensures
            r == (Args { len: Some(len), ..self }),
    {
        Args { len: Some(len), ..self }
    }

    /// Marks the slot as optional.
    pub fn optional(self) -> (r: Args)
        ensures
            r == (Args { optional: true, ..self }),
    {
        Args { optional: true, ..self }
    }

    /// Sets the help text.
    pub fn help(self, help: &str) -> (r: Args)
        ensures
            r.help@ == help@,
            r.name == self.name && r.value == self.value && r.optional == self.optional,
            r.len == self.len,
    {
        Args { help: help.to_owned(), ..self }
    }

    /// Binds the slot to a block of tokens.
    pub fn parse(&mut self, toks: Vec<String>)
        ensures
            final(self).value == Some(toks),
            final(self).name == old(self).name && final(self).optional == old(self).optional,
            final(self).len == old(self).len && final(self).help == old(self).help,
    {
        self.value = Some(toks);
    }

    pub fn value(&self) -> (r: &Option<Vec<String>>)
        ensures
            r == &self.value,
    {
        &self.value
    }

    pub fn value_mut(&mut self) -> (r: &mut Option<Vec<String>>)
        ensures
            *r == old(self).value,
            final(self).value == *final(r),
            final(self).name == old(self).name && final(self).optional == old(self).optional,
            final(self).len == old(self).len && final(self).help == old(self).help,
    {
        &mut self.value
    }

    pub fn is_optional(&self) -> (r: bool)
        ensures
            r == self.optional,
    {
        self.optional
    }

    pub fn name_get(&self) -> (r: &String)
        ensures
            r == &self.name,
    {
        &self.name
    }

    pub fn help_get(&self) -> (r: &String)
        ensures
            r == &self.help,
    {
        &self.help
    }
}

} // verus!
