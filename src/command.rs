use vstd::prelude::*;
use crate::error::{Fail, ParseError, strs};
use crate::token::{is_flag_token, flag_token};
use crate::schema::{Opt, OptValue, OptVal, Args, names_flag, bound_opt, args_val};
use crate::distribute::{Plan, plan, precheck, one_unbounded, same_slots, after_plan, args_handle};

verus! {

/// Some flag of `a` is also a flag of `b`.
pub open spec fn clashes(a: Opt, b: Opt) -> bool {
    (a.short matches Some(s) && names_flag(b, seq!['-'] + s@)) || (a.long matches Some(l)
        && names_flag(b, seq!['-', '-'] + l@))
}

/// Two options that share neither name nor flag.
pub open spec fn apart(a: Opt, b: Opt) -> bool {
    a.name@ != b.name@ && !clashes(a, b) && !clashes(b, a)
}

/// `o` can join `opts`: it has a flag, and neither its name nor its flags
/// are taken.
pub open spec fn fits(opts: Seq<Opt>, o: Opt) -> bool {
    &&& (o.short is Some || o.long is Some)
    &&& forall|i: int| 0 <= i < opts.len() ==> #[trigger] apart(opts[i], o)
}

/// The first option of `opts[..n]` that answers to the flag `t`.
pub open spec fn first_match(opts: Seq<Opt>, t: Seq<char>, n: int) -> Option<int>
    decreases n,
{
    if n <= 0 {
        None
    } else {
        match first_match(opts, t, n - 1) {
            Some(k) => Some(k),
            None => if names_flag(opts[n - 1], t) {
                Some(n - 1)
            } else {
                None
            },
        }
    }
}

/// What the options hold.
pub open spec fn opt_vals(opts: Seq<Opt>) -> Seq<OptVal> {
    Seq::new(opts.len(), |i: int| opts[i].value@)
}

/// The scan of the tokens from `i` on: `vals` is what the options hold so
/// far, `pos` the positional tokens met so far.
pub open spec fn scan(opts: Seq<Opt>, t: Seq<Seq<char>>, i: int, vals: Seq<OptVal>, pos: Seq<Seq<char>>) -> Result<(Seq<OptVal>, Seq<Seq<char>>), Fail>
    decreases t.len() - i,
{
    if i >= t.len() || i < 0 {
        Ok((vals, pos))
    } else if is_flag_token(t[i]) {
        match first_match(opts, t[i], opts.len() as int) {
            None => Err(Fail::UnknownOption(t[i])),
            Some(k) => if opts[k].value is Bool {
                scan(opts, t, i + 1, vals.update(k, bound_opt(vals[k], Seq::empty())), pos)
            } else if i + 1 < t.len() {
                scan(opts, t, i + 2, vals.update(k, bound_opt(vals[k], t[i + 1])), pos)
            } else {
                Err(Fail::MissingValue(t[i]))
            },
        }
    } else {
        scan(opts, t, i + 1, vals, pos.push(t[i]))
    }
}

/// The `-h`/`--help` option: optional, boolean, unset.
pub open spec fn is_help_opt(o: Opt) -> bool {
    &&& o.name@ == seq!['h', 'e', 'l', 'p']
    &&& o.value == OptValue::Bool(false)
    &&& o.optional
    &&& o.short matches Some(s) && s@ == seq!['h']
    &&& o.long matches Some(l) && l@ == seq!['h', 'e', 'l', 'p']
}

/// The `-V`/`--version` option: optional, boolean, unset.
pub open spec fn is_version_opt(o: Opt) -> bool {
    &&& o.name@ == seq!['v', 'e', 'r', 's', 'i', 'o', 'n']
    &&& o.value == OptValue::Bool(false)
    &&& o.optional
    &&& o.short matches Some(s) && s@ == seq!['V']
    &&& o.long matches Some(l) && l@ == seq!['v', 'e', 'r', 's', 'i', 'o', 'n']
}

/// What the options hold where the scan from `i` on stops, at the end of
/// the tokens or at the token that fails it.
pub open spec fn scanned(opts: Seq<Opt>, t: Seq<Seq<char>>, i: int, vals: Seq<OptVal>) -> Seq<OptVal>
    decreases t.len() - i,
{
    if i >= t.len() || i < 0 {
        vals
    } else if is_flag_token(t[i]) {
        match first_match(opts, t[i], opts.len() as int) {
            None => vals,
            Some(k) => if opts[k].value is Bool {
                scanned(opts, t, i + 1, vals.update(k, bound_opt(vals[k], Seq::empty())))
            } else if i + 1 < t.len() {
                scanned(opts, t, i + 2, vals.update(k, bound_opt(vals[k], t[i + 1])))
            } else {
                vals
            },
        }
    } else {
        scanned(opts, t, i + 1, vals)
    }
}

/// The parse of one command's tokens: what its options then hold and
/// which block each positional slot gets.
pub open spec fn cmd_outcome(c: Cmd, t: Seq<Seq<char>>) -> Result<(Seq<OptVal>, Plan), Fail> {
    match scan(c.opts@, t, 0, opt_vals(c.opts@), Seq::empty()) {
        Err(e) => Err(e),
        Ok((vals, pos)) => match plan(c.args@, pos) {
            Err(e) => Err(e),
            Ok(p) => Ok((vals, p)),
        },
    }
}

/// The options of `new` are those of `old`, but for what they hold.
pub open spec fn same_opts(old: Seq<Opt>, new: Seq<Opt>) -> bool {
    &&& new.len() == old.len()
    &&& forall|i: int| 0 <= i < old.len() ==> same_opt(old[i], #[trigger] new[i])
}

/// `b` is `a`, but for what it holds.
pub open spec fn same_opt(a: Opt, b: Opt) -> bool {
    b.name == a.name && b.optional == a.optional && b.short == a.short && b.long == a.long
        && b.help == a.help && (b.value is Bool <==> a.value is Bool)
}

pub proof fn lemma_first_match_same(a: Seq<Opt>, b: Seq<Opt>, t: Seq<char>, n: int)
    requires
        same_opts(a, b),
        n <= a.len(),
    ensures
        first_match(a, t, n) == first_match(b, t, n),
    decreases n,
{
    if n > 0 {
        lemma_first_match_same(a, b, t, n - 1);
        assert(same_opt(a[n - 1], b[n - 1]));
    }
}

pub proof fn lemma_first_match_stays(s: Seq<Opt>, t: Seq<char>, m: int, n: int)
    requires
        m <= n,
        first_match(s, t, m) is Some,
    ensures
        first_match(s, t, n) == first_match(s, t, m),
    decreases n - m,
{
    if m < n {
        lemma_first_match_stays(s, t, m, n - 1);
    }
}

/// The index of the first option that answers to the flag `t`.
fn lookup(opts: &Vec<Opt>, t: &String) -> (r: Option<usize>)
    ensures
        match r {
            Some(k) => k < opts@.len() && first_match(opts@, t@, opts@.len() as int) == Some(k as int),
            None => first_match(opts@, t@, opts@.len() as int) is None,
        },
{
    let mut i: usize = 0;
    while i < opts.len()
        invariant
            i <= opts@.len(),
            first_match(opts@, t@, i as int) is None,
        decreases opts@.len() - i,
    {
        if answers(&opts[i], t) {
            assert(first_match(opts@, t@, i + 1) == Some(i as int));
            proof {
                lemma_first_match_stays(opts@, t@, i + 1, opts@.len() as int);
            }
            return Some(i);
        }
        i = i + 1;
    }
    None
}

/// A command: its options, its positional slots, and whether it may be
/// given no token at all.
pub struct Cmd {
    pub name: Option<String>,
    pub desc: String,
    pub opts: Vec<Opt>,
    pub args: Vec<Args>,
    pub allow_zero_args: bool,
}

impl Cmd {
    /// Names and flags are unique, each option has a flag, and at most one
    /// slot is of unbounded arity.
    pub open spec fn wf(&self) -> bool {
        &&& forall|i: int, j: int|
            0 <= i < j < self.opts@.len() ==> #[trigger] apart(self.opts@[i], self.opts@[j])
        &&& forall|i: int|
            0 <= i < self.opts@.len() ==> (#[trigger] self.opts@[i].short is Some
                || self.opts@[i].long is Some)
        &&& one_unbounded(self.args@)
    }

    /// An empty command: no name, no option, no slot.
    pub fn empty() -> (r: Cmd)
        ensures
            r.name is None,
            r.desc@.len() == 0,
            r.opts@.len() == 0,
            r.args@.len() == 0,
            r.allow_zero_args,
            r.wf(),
    {
        Cmd { name: None, desc: String::new(), opts: Vec::new(), args: Vec::new(), allow_zero_args: true }
    }

    /// The `-h`/`--help` option, optional and boolean.
    pub fn help_opt() -> (r: Opt)
        ensures
            r.name@ == seq!['h', 'e', 'l', 'p'],
            r.value == OptValue::Bool(false),
            r.optional,
            r.short matches Some(s) && s@ == seq!['h'],
            r.long matches Some(l) && l@ == seq!['h', 'e', 'l', 'p'],
    {
        proof {
            reveal_strlit("help");
            reveal_strlit("h");
        }
        Opt::new("help", OptValue::Bool(false)).optional().short("h").long("help").help(
            "Show the help message",
        )
    }

    /// The `-V`/`--version` option, optional and boolean.
    pub fn version_opt() -> (r: Opt)
        ensures
            r.name@ == seq!['v', 'e', 'r', 's', 'i', 'o', 'n'],
            r.value == OptValue::Bool(false),
            r.optional,
            r.short matches Some(s) && s@ == seq!['V'],
            r.long matches Some(l) && l@ == seq!['v', 'e', 'r', 's', 'i', 'o', 'n'],
    {
        proof {
            reveal_strlit("version");
            reveal_strlit("V");
        }
        Opt::new("version", OptValue::Bool(false)).optional().short("V").long("version").help(
            "Show the version message",
        )
    }

    /// A sub-command named `name`, with the `-h`/`--help` option.
    pub fn new(name: &str) -> (r: Cmd)
        ensures
            r.name matches Some(n) && n@ == name@,
            r.desc@.len() == 0,
            r.opts@.len() == 1,
            is_help_opt(r.opts@[0]),
            r.args@.len() == 0,
            r.allow_zero_args,
            r.wf(),
    {
        let mut c = Cmd::empty();
        c.name = Some(name.to_owned());
        let h = Cmd::help_opt();
        c.opts.push(h);
        c
    }

    /// Sets the description.
    pub fn desc(self, desc: &str) -> (r: Cmd)
        ensures
            r.desc@ == desc@,
            r.name == self.name && r.opts == self.opts && r.args == self.args,
            r.allow_zero_args == self.allow_zero_args,
    {
        Cmd { desc: desc.to_owned(), ..self }
    }

    /// Appends a positional slot.
    pub fn args(self, args: Args) -> (r: Cmd)
        requires
            self.wf(),
            one_unbounded(self.args@.push(args)),
        ensures
            r.args@ == self.args@.push(args),
            r.name == self.name && r.opts == self.opts && r.desc == self.desc,
            r.allow_zero_args == self.allow_zero_args,
            r.wf(),
    {
        let mut v = self.args;
        v.push(args);
        let c = Cmd { args: v, ..self };
        assert(c.opts == self.opts);
        assert(one_unbounded(c.args@));
        c
    }

    /// Whether `o` can join this command's options.
    pub fn can_take(&self, o: &Opt) -> (r: bool)
        ensures
            r == fits(self.opts@, *o),
    {
        if o.short.is_none() && o.long.is_none() {
            return false;
        }
        let mut i: usize = 0;
        while i < self.opts.len()
            invariant
                i <= self.opts@.len(),
                o.short is Some || o.long is Some,
                forall|j: int| 0 <= j < i ==> #[trigger] apart(self.opts@[j], *o),
            decreases self.opts@.len() - i,
        {
            let p = &self.opts[i];
            let same = p.name == o.name;
            let c1 = clash(o, p);
            let c2 = clash(p, o);
            if same || c1 || c2 {
                assert(!apart(self.opts@[i as int], *o));
                return false;
            }
            assert(apart(self.opts@[i as int], *o));
            i = i + 1;
        }
        true
    }

    /// Adds an option.
    pub fn opt(self, opt: Opt) -> (r: Cmd)
        requires
            self.wf(),
            fits(self.opts@, opt),
        ensures
            r.opts@ == self.opts@.push(opt),
            r.name == self.name && r.args == self.args && r.desc == self.desc,
            r.allow_zero_args == self.allow_zero_args,
            r.wf(),
    {
        let mut v = self.opts;
        v.push(opt);
        let c = Cmd { opts: v, ..self };
        assert(forall|i: int| 0 <= i < self.opts@.len() ==> c.opts@[i] == self.opts@[i]);
        assert(c.opts@[self.opts@.len() as int] == opt);
        c
    }

    /// Parses the tokens of this command's region: options are bound as
    /// they are met, and the other tokens are shared out among the
    /// positional slots.
    pub fn parse(&mut self, args: &[String]) -> (r: Result<(), ParseError>)
        requires
            old(self).wf(),
        ensures
            final(self).wf(),
            final(self).name == old(self).name && final(self).desc == old(self).desc,
            final(self).allow_zero_args == old(self).allow_zero_args,
            same_opts(old(self).opts@, final(self).opts@),
            same_slots(old(self).args@, final(self).args@),
            opt_vals(final(self).opts@) == scanned(old(self).opts@, strs(args@), 0, opt_vals(old(self).opts@)),
            r is Err ==> final(self).args@ == old(self).args@,
            match cmd_outcome(*old(self), strs(args@)) {
                Ok((vals, p)) => r is Ok && opt_vals(final(self).opts@) == vals && forall|i: int|
                    0 <= i < p.len() ==> #[trigger] args_val(final(self).args@[i].value)
                        == after_plan(old(self).args@[i], p[i]),
                Err(e) => r matches Err(x) && x@ == e,
            },
    {
        let ghost o = self.opts@;
        let ghost t = strs(args@);
        let mut pos: Vec<String> = Vec::new();
        assert(strs(pos@) =~= Seq::empty());
        let mut i: usize = 0;
        while i < args.len()
            invariant
                i <= args@.len(),
                t == strs(args@),
                o == old(self).opts@,
                old(self).wf(),
                same_opts(o, self.opts@),
                self.args == old(self).args && self.name == old(self).name,
                self.desc == old(self).desc && self.allow_zero_args == old(self).allow_zero_args,
                scan(o, t, 0, opt_vals(o), Seq::empty()) == scan(
                    o,
                    t,
                    i as int,
                    opt_vals(self.opts@),
                    strs(pos@),
                ),
                scanned(o, t, 0, opt_vals(o)) == scanned(o, t, i as int, opt_vals(self.opts@)),
            decreases args@.len() - i,
        {
            let a = &args[i];
            if flag_token(a) {
                proof {
                    lemma_first_match_same(o, self.opts@, t[i as int], o.len() as int);
                }
                match lookup(&self.opts, a) {
                    None => {
                        proof { lemma_opts_kept(*old(self), *self); }
                        return Err(ParseError::UnknownOption(a.clone()));
                    },
                    Some(k) => {
                        let ghost before = self.opts@;
                        assert(same_opt(o[k as int], before[k as int]));
                        if self.opts[k].is_bool() {
                            self.opts[k].parse(a);
                            i = i + 1;
                        } else if i + 1 < args.len() {
                            self.opts[k].parse(&args[i + 1]);
                            i = i + 2;
                        } else {
                            proof { lemma_opts_kept(*old(self), *self); }
                            return Err(ParseError::MissingValue(a.clone()));
                        }
                        assert(self.opts@ == before.update(k as int, self.opts@[k as int]));
                        assert(opt_vals(self.opts@) =~= opt_vals(before).update(
                            k as int,
                            self.opts@[k as int].value@,
                        ));
                        assert(same_opt(before[k as int], self.opts@[k as int])) by {
                            match before[k as int].value {
                                OptValue::Bool(_) => {},
                                OptValue::Str(x) => {
                                    assert(before[k as int].value@ is Str);
                                    assert(self.opts@[k as int].value@ is Str);
                                },
                            }
                        }
                        assert(same_opts(o, self.opts@)) by {
                            assert forall|j: int| 0 <= j < o.len() implies same_opt(o[j], #[trigger] self.opts@[j]) by {
                                assert(same_opt(o[j], before[j]));
                                if j != k {
                                    assert(self.opts@[j] == before[j]);
                                }
                            }
                        }
                    },
                }
            } else {
                let ghost pb = pos@;
                pos.push(a.clone());
                assert(strs(pos@) =~= strs(pb).push(t[i as int]));
                i = i + 1;
            }
        }
        let res = args_handle(&mut self.args, pos.as_slice());
        proof { lemma_opts_kept(*old(self), *self); }
        res
    }

    /// Whether the command is well formed: names and flags unique, each
    /// option with a flag, at most one slot of unbounded arity.
    pub fn is_wf(&self) -> (r: bool)
        ensures
            r == self.wf(),
    {
        let n = self.opts.len();
        let mut i: usize = 0;
        while i < n
            invariant
                n == self.opts@.len(),
                i <= n,
                forall|a: int, b: int| 0 <= a < b < n && a < i ==> #[trigger] apart(self.opts@[a], self.opts@[b]),
                forall|a: int| 0 <= a < i ==> (#[trigger] self.opts@[a].short is Some || self.opts@[a].long is Some),
            decreases n - i,
        {
            let o = &self.opts[i];
            if o.short.is_none() && o.long.is_none() {
                return false;
            }
            let mut j: usize = i + 1;
            while j < n
                invariant
                    n == self.opts@.len(),
                    i < n,
                    i < j <= n,
                    o == self.opts@[i as int],
                    forall|a: int, b: int| 0 <= a < b < n && a < i ==> #[trigger] apart(self.opts@[a], self.opts@[b]),
                    forall|b: int| i < b < j ==> #[trigger] apart(self.opts@[i as int], self.opts@[b]),
                decreases n - j,
            {
                let p = &self.opts[j];
                let same = o.name == p.name;
                let c1 = clash(o, p);
                let c2 = clash(p, o);
                if same || c1 || c2 {
                    assert(!apart(self.opts@[i as int], self.opts@[j as int]));
                    return false;
                }
                assert(apart(self.opts@[i as int], self.opts@[j as int]));
                j = j + 1;
            }
            assert forall|a: int, b: int| 0 <= a < b < n && a < i + 1 implies #[trigger] apart(self.opts@[a], self.opts@[b]) by {
                if a == i {
                    assert(apart(self.opts@[i as int], self.opts@[b]));
                }
            }
            i = i + 1;
        }
        let mut seen: bool = false;
        let mut k: usize = 0;
        while k < self.args.len()
            invariant
                k <= self.args@.len(),
                forall|a: int, b: int|
                    0 <= a < b < k && (#[trigger] self.args@[a]).len is None ==> (#[trigger] self.args@[b]).len is Some,
                seen <==> exists|a: int| 0 <= a < k && (#[trigger] self.args@[a]).len is None,
            decreases self.args@.len() - k,
        {
            if self.args[k].len.is_none() {
                if seen {
                    let ghost w = choose|a: int| 0 <= a < k && (#[trigger] self.args@[a]).len is None;
                    assert(self.args@[w].len is None && self.args@[k as int].len is None);
                    return false;
                }
                seen = true;
            }
            k = k + 1;
        }
        true
    }

    /// Whether the command accepts being given no token.
    pub fn allow_zero_args(self, allow: bool) -> (r: Cmd)
        ensures
            r == (Cmd { allow_zero_args: allow, ..self }),
    {
        Cmd { allow_zero_args: allow, ..self }
    }
}

/// Well-formedness depends on names, flags and arities alone.
pub proof fn lemma_opts_kept(a: Cmd, b: Cmd)
    requires
        a.wf(),
        same_opts(a.opts@, b.opts@),
        same_slots(a.args@, b.args@),
    ensures
        b.wf(),
{
    assert forall|i: int, j: int| 0 <= i < j < b.opts@.len() implies #[trigger] apart(b.opts@[i], b.opts@[j]) by {
        assert(apart(a.opts@[i], a.opts@[j]));
        assert(same_opt(a.opts@[i], b.opts@[i]));
        assert(same_opt(a.opts@[j], b.opts@[j]));
    }
    assert forall|i: int| 0 <= i < b.opts@.len() implies (#[trigger] b.opts@[i].short is Some
        || b.opts@[i].long is Some) by {
        assert(same_opt(a.opts@[i], b.opts@[i]));
    }
    assert forall|i: int, j: int| 0 <= i < j < b.args@.len() && b.args@[i].len is None implies b.args@[j].len is Some by {
        assert(b.args@[i].name == a.args@[i].name);
        assert(b.args@[j].name == a.args@[j].name);
    }
}

/// Whether the token `t` is one of the flags of `o`.
fn answers(o: &Opt, t: &String) -> (r: bool)
    ensures
        r == names_flag(*o, t@),
{
    let s = o.short_get();
    let l = o.long_get();
    let a = match &s {
        Some(f) => *f == *t,
        None => false,
    };
    let b = match &l {
        Some(f) => *f == *t,
        None => false,
    };
    a || b
}

/// Whether some flag of `a` is a flag of `b`.
fn clash(a: &Opt, b: &Opt) -> (r: bool)
    ensures
        r == clashes(*a, *b),
{
    let s = a.short_get();
    let l = a.long_get();
    let x = match &s {
        Some(f) => answers(b, f),
        None => false,
    };
    let y = match &l {
        Some(f) => answers(b, f),
        None => false,
    };
    x || y
}

} // verus!
