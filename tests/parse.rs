use cliapp::{App, Args, Cmd, Opt, OptValue, Outcome, ParseError};

fn toks(v: &[&str]) -> Vec<String> {
    v.iter().map(|s| s.to_string()).collect()
}

fn strings(v: &[&str]) -> Option<Vec<String>> {
    Some(toks(v))
}

fn str_opt(name: &str) -> Opt {
    Opt::new(name, OptValue::Str(None))
}

#[test]
fn front_fixed_then_unbounded() {
    let mut app = App::new("cp")
        .args(Args::new("src", None).len(1))
        .args(Args::new("rest", None));
    assert_eq!(app.parse(&toks(&["a", "b", "c"])), Ok(Outcome::Done));
    assert_eq!(app.main.args[0].value, strings(&["a"]));
    assert_eq!(app.main.args[1].value, strings(&["b", "c"]));
}

#[test]
fn unbounded_then_back_fixed() {
    let mut app = App::new("mv")
        .args(Args::new("pre", None))
        .args(Args::new("dst", None).len(1));
    assert_eq!(app.parse(&toks(&["a", "b", "c"])), Ok(Outcome::Done));
    assert_eq!(app.main.args[0].value, strings(&["a", "b"]));
    assert_eq!(app.main.args[1].value, strings(&["c"]));
}

#[test]
fn fixed_on_both_sides_of_unbounded() {
    let mut app = App::new("x")
        .args(Args::new("first", None).len(2))
        .args(Args::new("middle", None))
        .args(Args::new("last", None).len(1));
    assert_eq!(app.parse(&toks(&["a", "b", "c", "d", "e"])), Ok(Outcome::Done));
    assert_eq!(app.main.args[0].value, strings(&["a", "b"]));
    assert_eq!(app.main.args[1].value, strings(&["c", "d"]));
    assert_eq!(app.main.args[2].value, strings(&["e"]));
}

#[test]
fn zero_tokens_refused() {
    let mut app = App::new("x").allow_zero_args(false);
    assert_eq!(app.parse(&toks(&[])), Err(ParseError::ZeroArgs));
}

#[test]
fn zero_tokens_refused_with_sub_commands() {
    let mut app = App::new("x")
        .opt(str_opt("must").long("must"))
        .allow_zero_args(false)
        .cmd(Cmd::new("build"));
    assert_eq!(app.parse(&toks(&[])), Err(ParseError::ZeroArgsOrCommand));
}

#[test]
fn zero_tokens_accepted_by_default() {
    let mut app = App::new("x");
    assert_eq!(app.parse(&toks(&[])), Ok(Outcome::Done));
}

#[test]
fn fixed_two_given_one() {
    let mut app = App::new("x").args(Args::new("pair", None).len(2));
    assert_eq!(
        app.parse(&toks(&["a"])),
        Err(ParseError::NoProvideEnough("pair".to_string()))
    );
}

#[test]
fn value_missing_at_end() {
    let mut app = App::new("srv").opt(str_opt("port").long("port"));
    assert_eq!(
        app.parse(&toks(&["--port"])),
        Err(ParseError::MissingValue("--port".to_string()))
    );
}

#[test]
fn help_of_sub_command() {
    let mut app = App::new("main").cmd(Cmd::new("build"));
    assert_eq!(
        app.parse(&toks(&["build", "-h"])),
        Ok(Outcome::Help(Some("build".to_string())))
    );
    assert_eq!(app.helper.current_cmd, Some("build".to_string()));
}

#[test]
fn help_before_sub_command_is_main_help() {
    let mut app = App::new("main").cmd(Cmd::new("build"));
    assert_eq!(app.parse(&toks(&["--help", "build"])), Ok(Outcome::Help(None)));
}

#[test]
fn unknown_flag_among_valid_tokens() {
    let mut app = App::new("x")
        .opt(Opt::new("verbose", OptValue::Bool(false)).short("v"))
        .args(Args::new("files", None).optional());
    assert_eq!(
        app.parse(&toks(&["a", "-v", "--bogus", "b"])),
        Err(ParseError::UnknownOption("--bogus".to_string()))
    );
}

#[test]
fn unknown_short_flag() {
    let mut app = App::new("x");
    assert_eq!(
        app.parse(&toks(&["-q"])),
        Err(ParseError::UnknownOption("-q".to_string()))
    );
}

#[test]
fn same_tokens_twice_same_result() {
    let make = || {
        App::new("x")
            .opt(str_opt("name").short("n").long("name"))
            .args(Args::new("rest", None).optional())
    };
    let t = toks(&["-n", "joe", "a", "b"]);
    let mut a1 = make();
    let mut a2 = make();
    let r1 = a1.parse(&t);
    let r2 = a2.parse(&t);
    assert_eq!(r1, r2);
    assert_eq!(r1, Ok(Outcome::Done));
    assert_eq!(a1.main.opts[2].value, a2.main.opts[2].value);
    assert_eq!(a1.main.opts[2].value, OptValue::Str(Some("joe".to_string())));
    assert_eq!(a1.main.args[0].value, a2.main.args[0].value);
    assert_eq!(a1.main.args[0].value, strings(&["a", "b"]));
}

#[test]
fn options_and_positionals_mixed() {
    let mut app = App::new("http")
        .opt(str_opt("port").short("p").long("port"))
        .opt(Opt::new("keep", OptValue::Bool(false)).short("k").optional())
        .args(Args::new("dir", None).len(1));
    assert_eq!(app.parse(&toks(&["-k", "www", "--port", "8080"])), Ok(Outcome::Done));
    assert_eq!(app.main.opts[2].value, OptValue::Str(Some("8080".to_string())));
    assert_eq!(app.main.opts[3].value, OptValue::Bool(true));
    assert_eq!(app.main.args[0].value, strings(&["www"]));
}

#[test]
fn option_given_twice_keeps_last() {
    let mut app = App::new("x").opt(str_opt("level").short("l").optional());
    assert_eq!(app.parse(&toks(&["-l", "1", "-l", "2"])), Ok(Outcome::Done));
    assert_eq!(app.main.opts[2].value, OptValue::Str(Some("2".to_string())));
}

#[test]
fn lone_dashes_are_positional() {
    let mut app = App::new("x").args(Args::new("all", None));
    assert_eq!(app.parse(&toks(&["-", "--"])), Ok(Outcome::Done));
    assert_eq!(app.main.args[0].value, strings(&["-", "--"]));
}

#[test]
fn version_request() {
    let mut app = App::new("x").version("1.0");
    assert_eq!(app.parse(&toks(&["-V"])), Ok(Outcome::Version));
    assert_eq!(app.helper.version, "1.0");
}

#[test]
fn version_after_sub_command_is_unknown_there() {
    let mut app = App::new("x").cmd(Cmd::new("build"));
    assert_eq!(
        app.parse(&toks(&["build", "--version"])),
        Err(ParseError::UnknownOption("--version".to_string()))
    );
}

#[test]
fn extra_tokens_refused() {
    let mut app = App::new("x").args(Args::new("one", None).len(1));
    assert_eq!(
        app.parse(&toks(&["a", "b", "c"])),
        Err(ParseError::NoNeed(toks(&["b", "c"])))
    );
}

#[test]
fn no_slots_no_tokens_wanted() {
    let mut app = App::new("x");
    assert_eq!(app.parse(&toks(&["a"])), Err(ParseError::NoNeed(toks(&["a"]))));
}

#[test]
fn required_slot_without_tokens() {
    let mut app = App::new("x")
        .opt(Opt::new("v", OptValue::Bool(false)).short("v"))
        .args(Args::new("file", None).len(1));
    assert_eq!(
        app.parse(&toks(&["-v"])),
        Err(ParseError::NoProvide("file".to_string()))
    );
}

#[test]
fn default_fills_a_slot() {
    let mut app = App::new("x")
        .opt(Opt::new("v", OptValue::Bool(false)).short("v"))
        .args(Args::new("file", strings(&["in.txt"])).len(1));
    assert_eq!(app.parse(&toks(&["-v"])), Ok(Outcome::Done));
    assert_eq!(app.main.args[0].value, strings(&["in.txt"]));
}

#[test]
fn optional_fixed_slot_takes_what_is_left() {
    let mut app = App::new("x").args(Args::new("pair", None).len(2).optional());
    assert_eq!(app.parse(&toks(&["a"])), Ok(Outcome::Done));
    assert_eq!(app.main.args[0].value, strings(&["a"]));
}

#[test]
fn required_option_missing() {
    let mut app = App::new("x").opt(str_opt("out").short("o"));
    assert_eq!(
        app.parse(&toks(&[])),
        Err(ParseError::OptionMissing("out".to_string()))
    );
}

#[test]
fn option_default_counts_as_value() {
    let mut app = App::new("x").opt(Opt::new("out", OptValue::Str(Some("a.out".to_string()))).short("o"));
    assert_eq!(app.parse(&toks(&[])), Ok(Outcome::Done));
}

#[test]
fn sub_command_slot_missing() {
    let mut app = App::new("x").cmd(
        Cmd::new("build")
            .opt(str_opt("jobs").short("j").optional())
            .args(Args::new("target", None).len(1).optional())
            .args(Args::new("extra", None)),
    );
    assert_eq!(
        app.parse(&toks(&["build", "-j", "4"])),
        Err(ParseError::NoProvide("extra".to_string()))
    );
}

#[test]
fn sub_command_regions_split() {
    let mut app = App::new("git")
        .opt(Opt::new("verbose", OptValue::Bool(false)).short("v"))
        .cmd(Cmd::new("clone").args(Args::new("url", None).len(1)));
    assert_eq!(app.parse(&toks(&["-v", "clone", "u"])), Ok(Outcome::Done));
    assert_eq!(app.main.opts[2].value, OptValue::Bool(true));
    assert_eq!(app.cmds[0].args[0].value, strings(&["u"]));
    assert_eq!(app.helper.current_cmd, Some("clone".to_string()));
}

#[test]
fn sub_command_refusing_zero_tokens() {
    let mut app = App::new("git").cmd(Cmd::new("clone").allow_zero_args(false));
    assert_eq!(app.parse(&toks(&["clone"])), Err(ParseError::ZeroArgs));
}

#[test]
fn sub_command_required_slot_checked() {
    let mut app = App::new("git").cmd(Cmd::new("push").args(Args::new("remote", None).len(1)));
    assert_eq!(
        app.parse(&toks(&["push"])),
        Err(ParseError::NoProvide("remote".to_string()))
    );
}

#[test]
fn flags_carry_their_dashes() {
    let o = Opt::new("port", OptValue::Str(None)).short("p").long("port");
    assert_eq!(o.short_get(), Some("-p".to_string()));
    assert_eq!(o.long_get(), Some("--port".to_string()));
    assert_eq!(o.name_get(), "port");
    assert!(!o.is_bool());
    assert!(!o.is_optional());
}

#[test]
fn taken_flags_refused() {
    let c = Cmd::new("build");
    assert!(!c.can_take(&Opt::new("h2", OptValue::Bool(false)).short("h")));
    assert!(!c.can_take(&Opt::new("x", OptValue::Bool(false))));
    assert!(c.can_take(&Opt::new("x", OptValue::Bool(false)).long("x")));
    let app = App::new("x").cmd(Cmd::new("build"));
    assert!(!app.can_take_cmd(&Cmd::new("build")));
    assert!(app.can_take_cmd(&Cmd::new("test")));
}

#[test]
fn helper_lists_sub_commands() {
    let app = App::new("x")
        .desc("tool")
        .author("ann", "ann@example.org")
        .addr("home", "https://example.org")
        .cmd(Cmd::new("build").desc("compile"))
        .build_helper();
    let h = app.into_helper();
    assert_eq!(h.cmds, vec![("build".to_string(), "compile".to_string())]);
    assert_eq!(h.desc, "tool");
    assert_eq!(h.authors.len(), 1);
    assert_eq!(h.addrs[0].1, "https://example.org");
}

#[test]
fn well_formedness_checked() {
    let app = App::new("x").cmd(Cmd::new("build"));
    assert!(app.is_wf());
    assert!(app.main.is_wf());
    let mut broken = App::new("x").cmd(Cmd::new("build"));
    broken.cmds.push(Cmd::new("build"));
    assert!(!broken.is_wf());
    let mut two = Cmd::new("run");
    two.args.push(Args::new("a", None));
    two.args.push(Args::new("b", None));
    assert!(!two.is_wf());
}

#[test]
fn flag_shaped_value_taken_by_option() {
    let mut app = App::new("srv").opt(str_opt("port").long("port"));
    assert_eq!(app.parse(&toks(&["--port", "--bogus"])), Ok(Outcome::Done));
    assert_eq!(app.main.opts[2].value, OptValue::Str(Some("--bogus".to_string())));
}

#[test]
fn storage_reachable_through_accessors() {
    let mut o = Opt::new("n", OptValue::Str(None)).short("n").help("a number");
    *o.value_mut() = OptValue::Str(Some("3".to_string()));
    assert_eq!(o.value(), &OptValue::Str(Some("3".to_string())));
    assert_eq!(o.help_get(), "a number");
    let mut a = Args::new("files", None).help("inputs");
    *a.value_mut() = strings(&["x"]);
    assert_eq!(a.value(), &strings(&["x"]));
    assert_eq!(a.name_get(), "files");
    assert_eq!(a.help_get(), "inputs");
    assert!(!a.is_optional());
}

#[test]
fn unknown_flag_keeps_what_was_bound_before() {
    let mut app = App::new("srv")
        .opt(str_opt("port").long("port"))
        .args(Args::new("rest", None));
    assert_eq!(
        app.parse(&toks(&["x", "--port", "80", "--bogus", "y"])),
        Err(ParseError::UnknownOption("--bogus".to_string()))
    );
    assert_eq!(app.main.opts[2].value, OptValue::Str(Some("80".to_string())));
    assert_eq!(app.main.args[0].value, None);
}

#[test]
fn help_binds_nothing() {
    let mut app = App::new("main")
        .opt(str_opt("name").short("n").optional())
        .cmd(Cmd::new("build").args(Args::new("what", None)));
    assert_eq!(
        app.parse(&toks(&["-n", "x", "build", "t", "-h"])),
        Ok(Outcome::Help(Some("build".to_string())))
    );
    assert_eq!(app.main.opts[2].value, OptValue::Str(None));
    assert_eq!(app.cmds[0].args[0].value, None);
}

#[test]
fn short_slot_among_others_stays_unbound() {
    let mut app = App::new("x")
        .args(Args::new("opt", None).len(1).optional())
        .args(Args::new("pair", None).len(2));
    assert_eq!(
        app.parse(&toks(&["a"])),
        Err(ParseError::NoProvideEnough("pair".to_string()))
    );
    assert_eq!(app.main.args[0].value, None);
    assert_eq!(app.main.args[1].value, None);
}

#[test]
fn main_region_bound_before_sub_zero_rule() {
    let mut app = App::new("t")
        .args(Args::new("a", None).optional())
        .cmd(Cmd::new("b").allow_zero_args(false));
    assert_eq!(app.parse(&toks(&["x", "b"])), Err(ParseError::ZeroArgs));
    assert_eq!(app.main.args[0].value, strings(&["x"]));
}

#[test]
fn main_region_error_not_hidden_by_sub_zero_rule() {
    let mut app = App::new("t").cmd(Cmd::new("b").allow_zero_args(false));
    assert_eq!(
        app.parse(&toks(&["--bogus", "b"])),
        Err(ParseError::UnknownOption("--bogus".to_string()))
    );
}

#[test]
fn failed_distribution_binds_nothing() {
    let mut app = App::new("x")
        .args(Args::new("first", None).len(1))
        .args(Args::new("second", strings(&["d1", "d2"])).len(2));
    assert_eq!(
        app.parse(&toks(&["a", "b"])),
        Err(ParseError::NoProvideEnough("second".to_string()))
    );
    assert_eq!(app.main.args[0].value, None);
    assert_eq!(app.main.args[1].value, strings(&["d1", "d2"]));
}
