use vstd::prelude::*;
use crate::error::{Fail, ParseError, strs, copy_strs};
use crate::token::{is_help_token, is_version_token, short_help, long_help, short_version, long_version};
use crate::schema::{Opt, OptVal, Args, has_value, args_val};
use crate::distribute::{one_unbounded, same_slots, after_plan};
use crate::command::{Cmd, is_help_opt, is_version_opt, fits, apart, clashes, cmd_outcome, opt_vals, same_opts, scanned};

verus! {

/// What the help and version texts are made from, and which command the
/// parse resolved to.
pub struct Helper {
    pub name: String,
    pub version: String,
    pub desc: String,
    pub authors: Vec<(String, String)>,
    pub addrs: Vec<(String, String)>,
    /// Name and description of each sub-command.
    pub cmds: Vec<(String, String)>,
    /// The sub-command named among the tokens, if any.
    pub current_cmd: Option<String>,
    pub current_exe: Option<String>,
    pub current_dir: Option<String>,
    pub home_dir: Option<String>,
    pub temp_dir: String,
}

/// How a parse that did not fail ended.
#[derive(Debug, PartialEq, Eq)]
pub enum Outcome {
    /// Every token was bound.
    Done,
    /// Help was asked for: of this sub-command, or of the main command.
    Help(Option<String>),
    /// The version was asked for.
    Version,
}

/// The outcome of a parse, as the contracts speak of it.
pub enum Reply {
    Done,
    Help(Option<Seq<char>>),
    Version,
}

pub open spec fn name_view(n: Option<String>) -> Option<Seq<char>> {
    match n {
        Some(s) => Some(s@),
        None => None,
    }
}

impl View for Outcome {
    type V = Reply;

    open spec fn view(&self) -> Reply {
        match self {
            Outcome::Done => Reply::Done,
            Outcome::Help(n) => Reply::Help(name_view(*n)),
            Outcome::Version => Reply::Version,
        }
    }
}

pub open spec fn reply(r: Result<Outcome, ParseError>) -> Result<Reply, Fail> {
    match r {
        Ok(o) => Ok(o@),
        Err(e) => Err(e@),
    }
}

/// The first of `cs[..n]` named `t`.
pub open spec fn cmd_named(cs: Seq<Cmd>, t: Seq<char>, n: int) -> Option<int>
    decreases n,
{
    if n <= 0 {
        None
    } else {
        match cmd_named(cs, t, n - 1) {
            Some(j) => Some(j),
            None => if cs[n - 1].name matches Some(x) && x@ == t {
                Some(n - 1)
            } else {
                None
            },
        }
    }
}

/// The first token from `i` on that names a sub-command: its index, and
/// the sub-command's.
pub open spec fn split_from(cs: Seq<Cmd>, t: Seq<Seq<char>>, i: int) -> Option<(int, int)>
    decreases t.len() - i,
{
    if i < 0 || i >= t.len() {
        None
    } else {
        match cmd_named(cs, t[i], cs.len() as int) {
            Some(c) => Some((i, c)),
            None => split_from(cs, t, i + 1),
        }
    }
}

/// The first help token from `i` on.
pub open spec fn help_from(t: Seq<Seq<char>>, i: int) -> Option<int>
    decreases t.len() - i,
{
    if i < 0 || i >= t.len() {
        None
    } else if is_help_token(t[i]) {
        Some(i)
    } else {
        help_from(t, i + 1)
    }
}

/// The first version token from `i` on.
pub open spec fn version_from(t: Seq<Seq<char>>, i: int) -> Option<int>
    decreases t.len() - i,
{
    if i < 0 || i >= t.len() {
        None
    } else if is_version_token(t[i]) {
        Some(i)
    } else {
        version_from(t, i + 1)
    }
}

/// What is decided before any token is bound: a help or version request,
/// or an empty token list that the main command does not accept.
pub open spec fn early(a: App, t: Seq<Seq<char>>) -> Option<Result<Reply, Fail>> {
    let sp = split_from(a.cmds@, t, 0);
    match help_from(t, 0) {
        Some(h) => Some(
            Ok(
                Reply::Help(
                    match sp {
                        Some((i, c)) => if i < h {
                            name_view(a.cmds@[c].name)
                        } else {
                            None
                        },
                        None => None,
                    },
                ),
            ),
        ),
        None => {
            let wants_version = match version_from(t, 0) {
                Some(v) => match sp {
                    Some((i, c)) => i >= v,
                    None => true,
                },
                None => false,
            };
            if wants_version {
                Some(Ok(Reply::Version))
            } else if !a.main.allow_zero_args && t.len() == 0 {
                if a.cmds@.len() > 0 {
                    Some(Err(Fail::ZeroArgsOrCommand))
                } else {
                    Some(Err(Fail::ZeroArgs))
                }
            } else {
                None
            }
        },
    }
}

/// The first required option from `i` on that holds no value.
pub open spec fn missing_opt(s: Seq<Opt>, i: int) -> Option<int>
    decreases s.len() - i,
{
    if i < 0 || i >= s.len() {
        None
    } else if !s[i].optional && !has_value(s[i].value@) {
        Some(i)
    } else {
        missing_opt(s, i + 1)
    }
}

/// The first required slot from `i` on that holds no value.
pub open spec fn missing_arg(s: Seq<Args>, i: int) -> Option<int>
    decreases s.len() - i,
{
    if i < 0 || i >= s.len() {
        None
    } else if !s[i].optional && s[i].value is None {
        Some(i)
    } else {
        missing_arg(s, i + 1)
    }
}

/// What the check after the parse finds missing in a command.
pub open spec fn missing(c: Cmd) -> Option<Fail> {
    match missing_opt(c.opts@, 0) {
        Some(k) => Some(Fail::OptionMissing(c.opts@[k].name@)),
        None => match missing_arg(c.args@, 0) {
            Some(k) => Some(Fail::ArgsMissing(c.args@[k].name@)),
            None => None,
        },
    }
}

/// `new` is `old` after a successful parse of `t`.
pub open spec fn cmd_bound(old: Cmd, new: Cmd, t: Seq<Seq<char>>) -> bool {
    match cmd_outcome(old, t) {
        Ok((vals, p)) => opt_vals(new.opts@) == vals && forall|i: int|
            0 <= i < p.len() ==> #[trigger] args_val(new.args@[i].value) == after_plan(
                old.args@[i],
                p[i],
            ),
        Err(_) => false,
    }
}

/// The tokens of the main command's region.
pub open spec fn main_region(a: App, t: Seq<Seq<char>>) -> Seq<Seq<char>> {
    match split_from(a.cmds@, t, 0) {
        Some((i, c)) => t.subrange(0, i),
        None => t,
    }
}

/// The check of a command after its parse: its error, or `next`.
pub open spec fn checked(c: Cmd, next: Result<Reply, Fail>) -> Result<Reply, Fail> {
    match missing(c) {
        Some(e) => Err(e),
        None => next,
    }
}

/// The rule on a selected sub-command given no token, applied once its
/// region was parsed and checked.
pub open spec fn zero_rule(c: Cmd, suf: Seq<Seq<char>>) -> Result<Reply, Fail> {
    if !c.allow_zero_args && suf.len() == 0 {
        Err(Fail::ZeroArgs)
    } else {
        Ok(Reply::Done)
    }
}

/// What a parse of `t` with the application `old` leaves in `new` and
/// returns as `r`.
pub open spec fn parsed(old: App, new: App, t: Seq<Seq<char>>, r: Result<Reply, Fail>) -> bool {
    match early(old, t) {
        Some(x) => r == x,
        None => {
            let pre = main_region(old, t);
            match cmd_outcome(old.main, pre) {
                Err(e) => r == Err::<Reply, Fail>(e),
                Ok(_) => cmd_bound(old.main, new.main, pre) && match split_from(old.cmds@, t, 0) {
                    None => r == checked(new.main, Ok(Reply::Done)),
                    Some((i, c)) => {
                        let suf = t.subrange(i + 1, t.len() as int);
                        match cmd_outcome(old.cmds@[c], suf) {
                            Err(e) => r == Err::<Reply, Fail>(e),
                            Ok(_) => cmd_bound(old.cmds@[c], new.cmds@[c], suf) && r == checked(
                                new.main,
                                checked(new.cmds@[c], zero_rule(old.cmds@[c], suf)),
                            ),
                        }
                    },
                },
            }
        },
    }
}

/// Everything a parse of `t` with the application `old` states of the
/// application `new` it leaves and of its outcome `r`.
pub open spec fn parse_post(old: App, new: App, t: Seq<Seq<char>>, r: Result<Reply, Fail>) -> bool {
    let sp = split_from(old.cmds@, t, 0);
    let pre = main_region(old, t);
    &&& new.wf()
    &&& same_cmd(old.main, new.main)
    &&& new.cmds@.len() == old.cmds@.len()
    &&& forall|i: int| 0 <= i < old.cmds@.len() ==> same_cmd(old.cmds@[i], #[trigger] new.cmds@[i])
    &&& name_view(new.helper.current_cmd) == match sp {
        Some((i, c)) => name_view(old.cmds@[c].name),
        None => None,
    }
    &&& new.helper == (Helper { current_cmd: new.helper.current_cmd, ..old.helper })
    &&& parsed(old, new, t, r)
    &&& early(old, t) is Some ==> new.main == old.main && new.cmds == old.cmds
    &&& early(old, t) is None ==> opt_vals(new.main.opts@) == scanned(
        old.main.opts@,
        pre,
        0,
        opt_vals(old.main.opts@),
    )
    &&& early(old, t) is None && cmd_outcome(old.main, pre) is Err ==> new.cmds == old.cmds
        && new.main.args@ == old.main.args@
    &&& early(old, t) is None && cmd_outcome(old.main, pre) is Ok ==> match sp {
        Some((i, c)) => {
            let suf = t.subrange(i + 1, t.len() as int);
            &&& opt_vals(new.cmds@[c].opts@) == scanned(
                old.cmds@[c].opts@,
                suf,
                0,
                opt_vals(old.cmds@[c].opts@),
            )
            &&& cmd_outcome(old.cmds@[c], suf) is Err ==> new.cmds@[c].args@ == old.cmds@[c].args@
        },
        None => true,
    }
    &&& forall|i: int|
        0 <= i < old.cmds@.len() && !(sp matches Some((x, c)) && c == i) ==> #[trigger] new.cmds@[i]
            == old.cmds@[i]
}

/// An application: its main command and its sub-commands.
pub struct App {
    pub main: Cmd,
    pub cmds: Vec<Cmd>,
    pub helper: Helper,
}

/// The commands of `new` are those of `old`, but for what they hold.
pub open spec fn same_cmd(old: Cmd, new: Cmd) -> bool {
    &&& new.name == old.name && new.desc == old.desc && new.allow_zero_args == old.allow_zero_args
    &&& same_opts(old.opts@, new.opts@)
    &&& same_slots(old.args@, new.args@)
}

impl App {
    /// The main command is unnamed, the sub-commands are named, each name
    /// once, and every command is well formed.
    pub open spec fn wf(&self) -> bool {
        &&& self.main.wf()
        &&& self.main.name is None
        &&& forall|i: int|
            0 <= i < self.cmds@.len() ==> (#[trigger] self.cmds@[i]).wf() && self.cmds@[i].name is Some
        &&& forall|i: int, j: int|
            0 <= i < j < self.cmds@.len() ==> name_view(#[trigger] self.cmds@[i].name) != name_view(
                #[trigger] self.cmds@[j].name,
            )
    }
}

impl App {
    /// An application named `name`, whose main command has the `-h`/`--help`
    /// and `-V`/`--version` options and accepts no token.
    pub fn new(name: &str) -> (r: App)
        ensures
            r.wf(),
            r.helper.name@ == name@,
            r.helper.version@.len() == 0 && r.helper.desc@.len() == 0,
            r.helper.authors@.len() == 0 && r.helper.addrs@.len() == 0 && r.helper.cmds@.len() == 0,
            r.helper.current_cmd is None,
            r.cmds@.len() == 0,
            r.main.name is None,
            r.main.desc@.len() == 0,
            r.main.opts@.len() == 2,
            is_help_opt(r.main.opts@[0]),
            is_version_opt(r.main.opts@[1]),
            r.main.args@.len() == 0,
            r.main.allow_zero_args,
    {
        let h = Cmd::help_opt();
        let v = Cmd::version_opt();
        let main = Cmd::empty();
        let main = main.opt(h);
        let ghost sv = seq!['-'] + seq!['V'];
        let ghost sh = seq!['-'] + seq!['h'];
        let ghost lv = seq!['-', '-'] + seq!['v', 'e', 'r', 's', 'i', 'o', 'n'];
        let ghost lh = seq!['-', '-'] + seq!['h', 'e', 'l', 'p'];
        assert(sv[1] == 'V' && sh[1] == 'h' && sv.len() == 2 && sh.len() == 2);
        assert(lv.len() == 9 && lh.len() == 6);
        assert(sv != sh && sv != lh && lv != sh && lv != lh);
        assert(seq!['h', 'e', 'l', 'p'].len() != seq!['v', 'e', 'r', 's', 'i', 'o', 'n'].len());
        assert(main.opts@[0] == h);
        assert(!clashes(v, h));
        assert(!clashes(h, v));
        assert(apart(main.opts@[0], v));
        let main = main.opt(v);
        App {
            main,
            cmds: Vec::new(),
            helper: Helper {
                name: name.to_owned(),
                version: String::new(),
                desc: String::new(),
                authors: Vec::new(),
                addrs: Vec::new(),
                cmds: Vec::new(),
                current_cmd: None,
                current_exe: None,
                current_dir: None,
                home_dir: None,
                temp_dir: String::new(),
            },
        }
    }

    /// Sets the version text.
    pub fn version(self, version: &str) -> (r: App)
        ensures
            r.helper == (Helper { version: r.helper.version, ..self.helper }),
            r.helper.version@ == version@,
            r.main == self.main && r.cmds == self.cmds,
    {
        let mut a = self;
        a.helper.version = version.to_owned();
        a
    }

    /// Sets the description, of the application and of its main command.
    pub fn desc(self, desc: &str) -> (r: App)
        ensures
            self.wf() ==> r.wf(),
            r.helper.desc@ == desc@,
            r.main.desc@ == desc@,
            r.main.opts == self.main.opts && r.main.args == self.main.args,
            r.main.allow_zero_args == self.main.allow_zero_args,
            r.cmds == self.cmds,
            r.main.name == self.main.name,
            r.helper == (Helper { desc: r.helper.desc, ..self.helper }),
    {
        let App { main, cmds, helper } = self;
        let mut helper = helper;
        helper.desc = desc.to_owned();
        App { main: main.desc(desc), cmds, helper }
    }

    /// Adds an author: a name and an address.
    pub fn author(self, name: &str, email: &str) -> (r: App)
        ensures
            r.helper.authors@.len() == self.helper.authors@.len() + 1,
            r.helper.authors@.last().0@ == name@ && r.helper.authors@.last().1@ == email@,
            r.helper.authors@.drop_last() == self.helper.authors@,
            r.helper == (Helper { authors: r.helper.authors, ..self.helper }),
            r.main == self.main && r.cmds == self.cmds,
    {
        let mut a = self;
        a.helper.authors.push((name.to_owned(), email.to_owned()));
        a
    }

    /// Adds a link: a name and a URL.
    pub fn addr(self, name: &str, url: &str) -> (r: App)
        ensures
            r.helper.addrs@.len() == self.helper.addrs@.len() + 1,
            r.helper.addrs@.last().0@ == name@ && r.helper.addrs@.last().1@ == url@,
            r.helper.addrs@.drop_last() == self.helper.addrs@,
            r.helper == (Helper { addrs: r.helper.addrs, ..self.helper }),
            r.main == self.main && r.cmds == self.cmds,
    {
        let mut a = self;
        a.helper.addrs.push((name.to_owned(), url.to_owned()));
        a
    }

    /// Adds an option to the main command.
    pub fn opt(self, opt: Opt) -> (r: App)
        requires
            self.wf(),
            fits(self.main.opts@, opt),
        ensures
            r.wf(),
            r.main.opts@ == self.main.opts@.push(opt),
            r.main.args == self.main.args && r.cmds == self.cmds,
            r.main.allow_zero_args == self.main.allow_zero_args,
            r.main.name == self.main.name && r.main.desc == self.main.desc,
            r.helper == self.helper,
    {
        let App { main, cmds, helper } = self;
        App { main: main.opt(opt), cmds, helper }
    }

    /// Appends a positional slot to the main command.
    pub fn args(self, args: Args) -> (r: App)
        requires
            self.wf(),
            one_unbounded(self.main.args@.push(args)),
        ensures
            r.wf(),
            r.main.args@ == self.main.args@.push(args),
            r.main.opts == self.main.opts && r.cmds == self.cmds,
            r.main.allow_zero_args == self.main.allow_zero_args,
            r.main.name == self.main.name && r.main.desc == self.main.desc,
            r.helper == self.helper,
    {
        let App { main, cmds, helper } = self;
        App { main: main.args(args), cmds, helper }
    }

    /// Whether `cmd` can join the sub-commands: it is named, well formed,
    /// and its name is not taken.
    pub fn can_take_cmd(&self, cmd: &Cmd) -> (r: bool)
        requires
            cmd.wf(),
        ensures
            r == (cmd.name is Some && forall|i: int|
                0 <= i < self.cmds@.len() ==> name_view(#[trigger] self.cmds@[i].name) != name_view(
                    cmd.name,
                )),
    {
        let n = match &cmd.name {
            Some(n) => n,
            None => {
                return false;
            },
        };
        match cmd_index(&self.cmds, n) {
            Some(k) => {
                assert(name_view(self.cmds@[k as int].name) == name_view(cmd.name)) by {
                    lemma_cmd_named_hit(self.cmds@, n@, self.cmds@.len() as int);
                }
                false
            },
            None => {
                proof {
                    lemma_cmd_named_miss(self.cmds@, n@, self.cmds@.len() as int);
                }
                true
            },
        }
    }

    /// Adds a sub-command.
    pub fn cmd(self, cmd: Cmd) -> (r: App)
        requires
            self.wf(),
            cmd.wf(),
            cmd.name is Some,
            forall|i: int|
                0 <= i < self.cmds@.len() ==> name_view(#[trigger] self.cmds@[i].name) != name_view(
                    cmd.name,
                ),
        ensures
            r.wf(),
            r.cmds@ == self.cmds@.push(cmd),
            r.main == self.main,
            r.helper == self.helper,
    {
        let App { main, cmds, helper } = self;
        let mut cmds = cmds;
        cmds.push(cmd);
        App { main, cmds, helper }
    }

    /// Whether the main command accepts being given no token.
    pub fn allow_zero_args(self, allow: bool) -> (r: App)
        ensures
            self.wf() ==> r.wf(),
            r.main.allow_zero_args == allow,
            r.main.opts == self.main.opts && r.main.args == self.main.args,
            r.main.name == self.main.name && r.main.desc == self.main.desc,
            r.cmds == self.cmds,
            r.helper == self.helper,
    {
        let App { main, cmds, helper } = self;
        App { main: main.allow_zero_args(allow), cmds, helper }
    }

    /// Records the name and description of each sub-command in the helper.
    pub fn build_helper(self) -> (r: App)
        ensures
            r.main == self.main && r.cmds == self.cmds,
            r.helper == (Helper { cmds: r.helper.cmds, ..self.helper }),
            r.helper.cmds@.len() == self.cmds@.len(),
            forall|i: int|
                0 <= i < self.cmds@.len() ==> (#[trigger] r.helper.cmds@[i]).0@ == match self.cmds@[i].name {
                    Some(n) => n@,
                    None => Seq::<char>::empty(),
                } && r.helper.cmds@[i].1@ == self.cmds@[i].desc@,
    {
        let App { main, cmds, helper } = self;
        let mut helper = helper;
        let mut list: Vec<(String, String)> = Vec::new();
        let mut i: usize = 0;
        while i < cmds.len()
            invariant
                i <= cmds@.len(),
                cmds == self.cmds,
                list@.len() == i,
                forall|j: int|
                    0 <= j < i ==> (#[trigger] list@[j]).0@ == match cmds@[j].name {
                        Some(n) => n@,
                        None => Seq::<char>::empty(),
                    } && list@[j].1@ == cmds@[j].desc@,
            decreases cmds@.len() - i,
        {
            let c = &cmds[i];
            let n = match &c.name {
                Some(n) => n.clone(),
                None => String::new(),
            };
            list.push((n, c.desc.clone()));
            i = i + 1;
        }
        helper.cmds = list;
        App { main, cmds, helper }
    }

    /// Parses the tokens, the program's name left out: finds the
    /// sub-command named among them, answers a help or version request,
    /// binds each command's region, then checks what is required.
    pub fn parse(&mut self, args: &[String]) -> (r: Result<Outcome, ParseError>)
        requires
            old(self).wf(),
        ensures
            parse_post(*old(self), *final(self), strs(args@), reply(r)),
    {
        let ghost t = strs(args@);
        let sp = find_split(&self.cmds, args);
        let has_sub = sp.is_some();
        let (si, sc): (usize, usize) = match sp {
            Some(p) => p,
            None => (0, 0),
        };
        let ghost spl = split_from(old(self).cmds@, t, 0);
        assert(has_sub <==> spl is Some);
        assert(has_sub ==> spl == Some((si as int, sc as int)) && si < args@.len() && sc < self.cmds@.len());
        let cur = if has_sub {
            match &self.cmds[sc].name {
                Some(n) => Some(n.clone()),
                None => None,
            }
        } else {
            None
        };
        self.helper.current_cmd = cur;
        assert(self.main == old(self).main && self.cmds == old(self).cmds);
        assert(forall|i: int| 0 <= i < self.cmds@.len() ==> same_cmd(self.cmds@[i], #[trigger] self.cmds@[i]));
        let help = find_help(args);
        if let Some(h) = help {
            let which = if has_sub && si < h {
                match &self.cmds[sc].name {
                    Some(n) => Some(n.clone()),
                    None => None,
                }
            } else {
                None
            };
            assert(help_from(t, 0) == Some(h as int));
            assert(reply(Ok(Outcome::Help(which))) == Ok::<Reply, Fail>(Reply::Help(name_view(which))));
            assert(early(*old(self), t) == Some(Ok::<Reply, Fail>(Reply::Help(name_view(which)))));
            return Ok(Outcome::Help(which));
        }
        let wants_version = match find_version(args) {
            Some(v) => !has_sub || si >= v,
            None => false,
        };
        if wants_version {
            return Ok(Outcome::Version);
        }
        if !has_sub && !self.main.allow_zero_args && args.len() == 0 {
            if self.cmds.len() > 0 {
                return Err(ParseError::ZeroArgsOrCommand);
            } else {
                return Err(ParseError::ZeroArgs);
            }
        }
        assert(early(*old(self), t) is None);
        if !has_sub {
            self.main.parse(args)?;
            check(&self.main)?;
            Ok(Outcome::Done)
        } else {
            let pre = copy_strs(args, 0, si);
            assert(strs(pre@) == main_region(*old(self), t));
            self.main.parse(pre.as_slice())?;
            let n_all: usize = args.len();
            let suf = copy_strs(args, si + 1, n_all);
            let ghost mid = *self;
            assert(self.cmds@[sc as int].wf());
            let r = self.cmds[sc].parse(suf.as_slice());
            proof {
                lemma_app_kept(mid, *self, sc as int);
            }
            r?;
            check(&self.main)?;
            check(&self.cmds[sc])?;
            if !self.cmds[sc].allow_zero_args && args.len() - si == 1 {
                return Err(ParseError::ZeroArgs);
            }
            Ok(Outcome::Done)
        }
    }

    /// Whether the application is well formed: each command well formed,
    /// the main one unnamed, the sub-commands named, each name once.
    pub fn is_wf(&self) -> (r: bool)
        ensures
            r == self.wf(),
    {
        if !self.main.is_wf() || self.main.name.is_some() {
            return false;
        }
        let n = self.cmds.len();
        let mut i: usize = 0;
        while i < n
            invariant
                n == self.cmds@.len(),
                i <= n,
                self.main.wf() && self.main.name is None,
                forall|a: int| 0 <= a < i ==> (#[trigger] self.cmds@[a]).wf() && self.cmds@[a].name is Some,
                forall|a: int, b: int|
                    0 <= a < b < n && a < i ==> name_view(#[trigger] self.cmds@[a].name) != name_view(
                        #[trigger] self.cmds@[b].name,
                    ),
            decreases n - i,
        {
            let c = &self.cmds[i];
            if !c.is_wf() {
                return false;
            }
            let name = match &c.name {
                Some(x) => x,
                None => {
                    return false;
                },
            };
            let mut j: usize = i + 1;
            while j < n
                invariant
                    n == self.cmds@.len(),
                    i < j <= n,
                    c == self.cmds@[i as int],
                    c.name == Some(*name),
                    forall|a: int, b: int|
                        0 <= a < b < n && a < i ==> name_view(#[trigger] self.cmds@[a].name) != name_view(
                            #[trigger] self.cmds@[b].name,
                        ),
                    forall|b: int| i < b < j ==> name_view(self.cmds@[i as int].name) != name_view(#[trigger] self.cmds@[b].name),
                decreases n - j,
            {
                let same = match &self.cmds[j].name {
                    Some(y) => *y == *name,
                    None => false,
                };
                if same {
                    return false;
                }
                j = j + 1;
            }
            assert forall|a: int, b: int|
                0 <= a < b < n && a < i + 1 implies name_view(#[trigger] self.cmds@[a].name) != name_view(
                    #[trigger] self.cmds@[b].name,
                ) by {
                if a == i {
                    assert(name_view(self.cmds@[i as int].name) != name_view(self.cmds@[b].name));
                }
            }
            i = i + 1;
        }
        true
    }

    /// The helper, once the parse is over.
    pub fn into_helper(self) -> (r: Helper)
        ensures
            r == self.helper,
    {
        self.helper
    }
}

/// Well-formedness survives a parse of sub-command `c`.
pub proof fn lemma_app_kept(a: App, b: App, c: int)
    requires
        a.wf(),
        0 <= c < a.cmds@.len(),
        b.main == a.main,
        b.cmds@.len() == a.cmds@.len(),
        forall|i: int| 0 <= i < a.cmds@.len() && i != c ==> b.cmds@[i] == a.cmds@[i],
        b.cmds@[c].wf(),
        same_cmd(a.cmds@[c], b.cmds@[c]),
    ensures
        b.wf(),
        forall|i: int| 0 <= i < a.cmds@.len() ==> same_cmd(a.cmds@[i], #[trigger] b.cmds@[i]),
{
    assert forall|i: int| 0 <= i < b.cmds@.len() implies (#[trigger] b.cmds@[i]).wf() && b.cmds@[i].name is Some by {
        assert(a.cmds@[i].wf());
    }
    assert forall|i: int, j: int| 0 <= i < j < b.cmds@.len() implies name_view(#[trigger] b.cmds@[i].name) != name_view(#[trigger] b.cmds@[j].name) by {
        assert(name_view(a.cmds@[i].name) != name_view(a.cmds@[j].name));
    }
    assert forall|i: int| 0 <= i < a.cmds@.len() implies same_cmd(a.cmds@[i], #[trigger] b.cmds@[i]) by {
        if i != c {
            assert(b.cmds@[i] == a.cmds@[i]);
        }
    }
}

pub proof fn lemma_cmd_named_hit(s: Seq<Cmd>, t: Seq<char>, n: int)
    requires
        cmd_named(s, t, n) is Some,
        n <= s.len(),
    ensures
        0 <= cmd_named(s, t, n)->0 < n,
        name_view(s[cmd_named(s, t, n)->0].name) == Some(t),
    decreases n,
{
    if n > 0 && cmd_named(s, t, n - 1) is Some {
        lemma_cmd_named_hit(s, t, n - 1);
    }
}

pub proof fn lemma_cmd_named_miss(s: Seq<Cmd>, t: Seq<char>, n: int)
    requires
        cmd_named(s, t, n) is None,
        n <= s.len(),
    ensures
        forall|i: int| 0 <= i < n ==> name_view(#[trigger] s[i].name) != Some(t),
    decreases n,
{
    if n > 0 {
        lemma_cmd_named_miss(s, t, n - 1);
    }
}

pub proof fn lemma_cmd_named_stays(s: Seq<Cmd>, t: Seq<char>, m: int, n: int)
    requires
        m <= n,
        cmd_named(s, t, m) is Some,
    ensures
        cmd_named(s, t, n) == cmd_named(s, t, m),
    decreases n - m,
{
    if m < n {
        lemma_cmd_named_stays(s, t, m, n - 1);
    }
}

/// The index of the first sub-command named `t`.
fn cmd_index(cs: &Vec<Cmd>, t: &String) -> (r: Option<usize>)
    ensures
        match r {
            Some(k) => k < cs@.len() && cmd_named(cs@, t@, cs@.len() as int) == Some(k as int),
            None => cmd_named(cs@, t@, cs@.len() as int) is None,
        },
{
    let mut i: usize = 0;
    while i < cs.len()
        invariant
            i <= cs@.len(),
            cmd_named(cs@, t@, i as int) is None,
        decreases cs@.len() - i,
    {
        let hit = match &cs[i].name {
            Some(x) => *x == *t,
            None => false,
        };
        if hit {
            assert(cmd_named(cs@, t@, i + 1) == Some(i as int));
            proof {
                lemma_cmd_named_stays(cs@, t@, i + 1, cs@.len() as int);
            }
            return Some(i);
        }
        i = i + 1;
    }
    None
}

/// The first token naming a sub-command, and that sub-command.
fn find_split(cs: &Vec<Cmd>, args: &[String]) -> (r: Option<(usize, usize)>)
    ensures
        r is None <==> split_from(cs@, strs(args@), 0) is None,
        r matches Some((i, c)) ==> split_from(cs@, strs(args@), 0) == Some((i as int, c as int))
            && i < args@.len() && c < cs@.len(),
{
    let ghost t = strs(args@);
    let mut i: usize = 0;
    while i < args.len()
        invariant
            i <= args@.len(),
            t == strs(args@),
            split_from(cs@, t, 0) == split_from(cs@, t, i as int),
        decreases args@.len() - i,
    {
        match cmd_index(cs, &args[i]) {
            Some(c) => {
                assert(split_from(cs@, t, i as int) == Some((i as int, c as int)));
                return Some((i, c));
            },
            None => {},
        }
        i = i + 1;
    }
    None
}

/// The first token that is `a` or `b`.
fn find_either(args: &[String], a: &String, b: &String) -> (r: Option<usize>)
    ensures
        match r {
            Some(i) => i < args@.len() && (args@[i as int]@ == a@ || args@[i as int]@ == b@)
                && forall|j: int| 0 <= j < i ==> #[trigger] args@[j]@ != a@ && args@[j]@ != b@,
            None => forall|j: int| 0 <= j < args@.len() ==> #[trigger] args@[j]@ != a@ && args@[j]@ != b@,
        },
{
    let mut i: usize = 0;
    while i < args.len()
        invariant
            i <= args@.len(),
            forall|j: int| 0 <= j < i ==> #[trigger] args@[j]@ != a@ && args@[j]@ != b@,
        decreases args@.len() - i,
    {
        if args[i] == *a || args[i] == *b {
            return Some(i);
        }
        i = i + 1;
    }
    None
}

pub proof fn lemma_help_from(t: Seq<Seq<char>>, i: int, k: Option<int>)
    requires
        0 <= i <= t.len(),
        forall|j: int| i <= j < t.len() && (k is None || j < k->0) ==> !is_help_token(#[trigger] t[j]),
        k matches Some(h) ==> i <= h < t.len() && is_help_token(t[h]),
    ensures
        help_from(t, i) == k,
    decreases t.len() - i,
{
    if i < t.len() {
        if k != Some(i) {
            lemma_help_from(t, i + 1, k);
        }
    }
}

pub proof fn lemma_version_from(t: Seq<Seq<char>>, i: int, k: Option<int>)
    requires
        0 <= i <= t.len(),
        forall|j: int| i <= j < t.len() && (k is None || j < k->0) ==> !is_version_token(#[trigger] t[j]),
        k matches Some(h) ==> i <= h < t.len() && is_version_token(t[h]),
    ensures
        version_from(t, i) == k,
    decreases t.len() - i,
{
    if i < t.len() {
        if k != Some(i) {
            lemma_version_from(t, i + 1, k);
        }
    }
}

/// The first help token.
fn find_help(args: &[String]) -> (r: Option<usize>)
    ensures
        r is None <==> help_from(strs(args@), 0) is None,
        r matches Some(i) ==> i < args@.len() && help_from(strs(args@), 0) == Some(i as int),
{
    let a = short_help();
    let b = long_help();
    let r = find_either(args, &a, &b);
    proof {
        let t = strs(args@);
        match r {
            Some(i) => lemma_help_from(t, 0, Some(i as int)),
            None => lemma_help_from(t, 0, None),
        }
    }
    r
}

/// The first version token.
fn find_version(args: &[String]) -> (r: Option<usize>)
    ensures
        r is None <==> version_from(strs(args@), 0) is None,
        r matches Some(i) ==> i < args@.len() && version_from(strs(args@), 0) == Some(i as int),
{
    let a = short_version();
    let b = long_version();
    let r = find_either(args, &a, &b);
    proof {
        let t = strs(args@);
        match r {
            Some(i) => lemma_version_from(t, 0, Some(i as int)),
            None => lemma_version_from(t, 0, None),
        }
    }
    r
}

/// The check after a parse: every required option and slot holds a value.
pub fn check(c: &Cmd) -> (r: Result<(), ParseError>)
    ensures
        match missing(*c) {
            Some(e) => r matches Err(x) && x@ == e,
            None => r is Ok,
        },
{
    let mut i: usize = 0;
    while i < c.opts.len()
        invariant
            i <= c.opts@.len(),
            missing_opt(c.opts@, 0) == missing_opt(c.opts@, i as int),
        decreases c.opts@.len() - i,
    {
        let o = &c.opts[i];
        if !o.optional && !o.is_bool() {
            match &o.value {
                crate::schema::OptValue::Str(None) => {
                    return Err(ParseError::OptionMissing(o.name.clone()));
                },
                _ => {},
            }
        }
        i = i + 1;
    }
    let mut k: usize = 0;
    while k < c.args.len()
        invariant
            k <= c.args@.len(),
            missing_opt(c.opts@, 0) is None,
            missing_arg(c.args@, 0) == missing_arg(c.args@, k as int),
        decreases c.args@.len() - k,
    {
        let a = &c.args[k];
        if !a.optional && a.value.is_none() {
            return Err(ParseError::ArgsMissing(a.name.clone()));
        }
        k = k + 1;
    }
    Ok(())
}

} // verus!
