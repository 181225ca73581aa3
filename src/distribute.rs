use vstd::prelude::*;
use crate::error::{Fail, ParseError, strs, copy_strs};
use crate::schema::{Args, args_val};

verus! {

/// A block of tokens handed to each slot, or none.
pub type Plan = Seq<Option<Seq<Seq<char>>>>;

/// A slot that must get tokens: not optional and without a default.
pub open spec fn needs_tokens(a: Args) -> bool {
    !a.optional && a.value is None
}

/// The first slot in `[from, to)` that must get tokens.
pub open spec fn first_needy(s: Seq<Args>, from: int, to: int) -> Option<int>
    decreases to - from,
{
    if from >= to {
        None
    } else if needs_tokens(s[from]) {
        Some(from)
    } else {
        first_needy(s, from + 1, to)
    }
}

/// Slots `[from, to)` get no token: each must be optional or defaulted.
pub open spec fn starved(s: Seq<Args>, from: int, to: int, acc: Plan) -> Result<Plan, Fail> {
    match first_needy(s, from, to) {
        Some(i) => Err(Fail::NoProvide(s[i].name@)),
        None => Ok(acc),
    }
}

/// Tokens that a slot asks for before any is handed out: its arity (one
/// for an unbounded slot) if it needs tokens, else none.
pub open spec fn demand(a: Args) -> nat {
    if needs_tokens(a) {
        match a.len {
            Some(n) => n as nat,
            None => 1,
        }
    } else {
        0
    }
}

/// The check made before distribution: slots from `k` on, `used` tokens
/// already promised out of `n`.
pub open spec fn precheck(s: Seq<Args>, n: nat, k: int, used: nat) -> Option<Fail>
    decreases s.len() - k,
{
    if k >= s.len() {
        None
    } else if used == n && demand(s[k]) != 0 {
        Some(Fail::NoProvide(s[k].name@))
    } else if used + demand(s[k]) > n {
        Some(Fail::NoProvideEnough(s[k].name@))
    } else {
        precheck(s, n, k + 1, used + demand(s[k]))
    }
}

/// Serving the slots from the back: slots `(k, j]` are left, `k` being the
/// unbounded one, over tokens `[lo, hi)`.
pub open spec fn back(s: Seq<Args>, t: Seq<Seq<char>>, k: int, j: int, lo: int, hi: int, acc: Plan) -> Result<Plan, Fail>
    decreases j - k,
{
    if j <= k {
        if lo >= hi {
            starved(s, k, k + 1, acc)
        } else {
            Ok(acc.update(k, Some(t.subrange(lo, hi))))
        }
    } else if lo >= hi {
        starved(s, k, j + 1, acc)
    } else {
        match s[j].len {
            Some(n) => if n <= hi - lo {
                back(s, t, k, j - 1, lo, hi - n, acc.update(j, Some(t.subrange(hi - n, hi))))
            } else if s[j].optional {
                back(s, t, k, j - 1, lo, lo, acc.update(j, Some(t.subrange(lo, hi))))
            } else {
                Err(Fail::NoProvideEnough(s[j].name@))
            },
            None => back(s, t, k, j - 1, lo, lo, acc.update(j, Some(t.subrange(lo, hi)))),
        }
    }
}

/// Serving the slots from the front: slots `[k, ..)` are left, over the
/// tokens from `lo` on.
pub open spec fn front(s: Seq<Args>, t: Seq<Seq<char>>, k: int, lo: int, acc: Plan) -> Result<Plan, Fail>
    decreases s.len() - k,
{
    if k >= s.len() {
        if lo >= t.len() {
            Ok(acc)
        } else {
            Err(Fail::NoNeed(t.subrange(lo, t.len() as int)))
        }
    } else if lo >= t.len() {
        starved(s, k, s.len() as int, acc)
    } else {
        match s[k].len {
            Some(n) => if n <= t.len() - lo {
                front(s, t, k + 1, lo + n, acc.update(k, Some(t.subrange(lo, lo + n))))
            } else if s[k].optional {
                front(s, t, k + 1, t.len() as int, acc.update(k, Some(t.subrange(lo, t.len() as int))))
            } else {
                Err(Fail::NoProvideEnough(s[k].name@))
            },
            None => if k + 1 == s.len() {
                Ok(acc.update(k, Some(t.subrange(lo, t.len() as int))))
            } else {
                back(s, t, k, s.len() - 1, lo, t.len() as int, acc)
            },
        }
    }
}

/// Which block of tokens each slot gets, or why they cannot be shared out.
pub open spec fn plan(s: Seq<Args>, t: Seq<Seq<char>>) -> Result<Plan, Fail> {
    match precheck(s, t.len(), 0, 0) {
        Some(e) => Err(e),
        None => front(s, t, 0, 0, Seq::new(s.len(), |i: int| None)),
    }
}

/// A slot's storage after a plan was carried out.
pub open spec fn after_plan(a: Args, p: Option<Seq<Seq<char>>>) -> Option<Seq<Seq<char>>> {
    match p {
        Some(b) => Some(b),
        None => args_val(a.value),
    }
}

/// The slots of `new` are those of `old`, but for what they hold.
pub open spec fn same_slots(old: Seq<Args>, new: Seq<Args>) -> bool {
    &&& new.len() == old.len()
    &&& forall|i: int|
        0 <= i < old.len() ==> #[trigger] new[i].name == old[i].name && new[i].optional
            == old[i].optional && new[i].len == old[i].len && new[i].help == old[i].help
}

/// At most one slot is of unbounded arity.
pub open spec fn one_unbounded(s: Seq<Args>) -> bool {
    forall|i: int, j: int| 0 <= i < j < s.len() && s[i].len is None ==> s[j].len is Some
}

fn check_starved(s: &Vec<Args>, from: usize, to: usize, Ghost(o): Ghost<Seq<Args>>, Ghost(acc): Ghost<Plan>) -> (r: Result<(), ParseError>)
    requires
        from <= to <= s@.len(),
        s@.len() == o.len(),
        forall|i: int| from <= i < to ==> s@[i] == o[i],
    ensures
        match starved(o, from as int, to as int, acc) {
            Ok(_) => r is Ok,
            Err(e) => r matches Err(x) && x@ == e,
        },
    decreases to - from,
{
    if from >= to {
        Ok(())
    } else if !s[from].optional && s[from].value.is_none() {
        Err(ParseError::NoProvide(s[from].name.clone()))
    } else {
        let r = check_starved(s, from + 1, to, Ghost(o), Ghost(acc));
        r
    }
}

/// The bounds of a block of tokens, if a slot gets one.
pub type Span = Option<(usize, usize)>;

/// The spans `r` mark out the blocks of `acc` in the tokens `t`.
pub open spec fn recorded(r: Seq<Span>, acc: Plan, t: Seq<Seq<char>>) -> bool {
    &&& r.len() == acc.len()
    &&& forall|i: int|
        0 <= i < r.len() ==> #[trigger] acc[i] == match r[i] {
            Some((a, b)) => Some(t.subrange(a as int, b as int)),
            None => None,
        }
    &&& forall|i: int| 0 <= i < r.len() ==> (#[trigger] r[i] matches Some((a, b)) ==> a <= b <= t.len())
}

/// Marks the block `[a, b)` for slot `k`.
fn mark(spans: &mut Vec<Span>, k: usize, a: usize, b: usize, Ghost(acc): Ghost<Plan>, Ghost(t): Ghost<Seq<Seq<char>>>)
    requires
        k < old(spans)@.len(),
        a <= b <= t.len(),
        recorded(old(spans)@, acc, t),
    ensures
        recorded(final(spans)@, acc.update(k as int, Some(t.subrange(a as int, b as int))), t),
{
    spans[k] = Some((a, b));
    let ghost na = acc.update(k as int, Some(t.subrange(a as int, b as int)));
    assert forall|i: int| 0 <= i < spans@.len() implies #[trigger] na[i] == match spans@[i] {
        Some((x, y)) => Some(t.subrange(x as int, y as int)),
        None => None,
    } by {}
    assert forall|i: int| 0 <= i < spans@.len() implies (#[trigger] spans@[i] matches Some((x, y)) ==> x <= y <= t.len()) by {}
}

/// The check made before distribution: the slots that need tokens, taken in
/// order, must find enough of them.
fn check_demand(s: &Vec<Args>, n: usize) -> (r: Result<(), ParseError>)
    ensures
        match precheck(s@, n as nat, 0, 0) {
            None => r is Ok,
            Some(e) => r matches Err(x) && x@ == e,
        },
{
    let mut used: usize = 0;
    let mut k: usize = 0;
    while k < s.len()
        invariant
            k <= s@.len(),
            used <= n,
            precheck(s@, n as nat, 0, 0) == precheck(s@, n as nat, k as int, used as nat),
        decreases s@.len() - k,
    {
        let a = &s[k];
        let need: usize = if !a.optional && a.value.is_none() {
            match a.len {
                Some(l) => l,
                None => 1,
            }
        } else {
            0
        };
        assert(need == demand(s@[k as int]));
        if used == n && need != 0 {
            return Err(ParseError::NoProvide(a.name.clone()));
        } else if need > n - used {
            return Err(ParseError::NoProvideEnough(a.name.clone()));
        }
        used = used + need;
        k = k + 1;
    }
    Ok(())
}

/// Works out which block of tokens each slot gets, binding nothing.
fn plan_spans(args: &Vec<Args>, toks: &[String]) -> (r: Result<Vec<Span>, ParseError>)
    requires
        one_unbounded(args@),
    ensures
        match plan(args@, strs(toks@)) {
            Ok(p) => r matches Ok(v) && recorded(v@, p, strs(toks@)),
            Err(e) => r matches Err(x) && x@ == e,
        },
{
    let ghost o = args@;
    let ghost t = strs(toks@);
    check_demand(args, toks.len())?;
    let n: usize = toks.len();
    let mut spans: Vec<Span> = Vec::new();
    let mut q: usize = 0;
    while q < args.len()
        invariant
            q <= o.len(),
            o == args@,
            spans@.len() == q,
            forall|i: int| 0 <= i < q ==> #[trigger] spans@[i] is None,
        decreases o.len() - q,
    {
        spans.push(None);
        q = q + 1;
    }
    let ghost init: Plan = Seq::new(o.len(), |i: int| None);
    let ghost mut acc: Plan = init;
    assert(recorded(spans@, acc, t));
    let mut k: usize = 0;
    let mut lo: usize = 0;
    while k < args.len() && lo < n
        invariant
            k <= o.len(),
            o == args@,
            lo <= n == toks@.len() == t.len(),
            one_unbounded(o),
            t == strs(toks@),
            recorded(spans@, acc, t),
            acc.len() == o.len(),
            plan(o, t) == front(o, t, k as int, lo as int, acc),
        decreases o.len() - k,
    {
        match args[k].len {
            Some(m) => {
                if m <= n - lo {
                    mark(&mut spans, k, lo, lo + m, Ghost(acc), Ghost(t));
                    proof {
                        acc = acc.update(k as int, Some(t.subrange(lo as int, lo + m)));
                    }
                    lo = lo + m;
                } else if args[k].optional {
                    mark(&mut spans, k, lo, n, Ghost(acc), Ghost(t));
                    proof {
                        acc = acc.update(k as int, Some(t.subrange(lo as int, n as int)));
                    }
                    lo = n;
                } else {
                    return Err(ParseError::NoProvideEnough(args[k].name.clone()));
                }
                k = k + 1;
            },
            None => {
                if k + 1 == args.len() {
                    mark(&mut spans, k, lo, n, Ghost(acc), Ghost(t));
                    proof {
                        acc = acc.update(k as int, Some(t.subrange(lo as int, n as int)));
                    }
                    return Ok(spans);
                } else {
                    return spans_back(args, toks, k, lo, spans, Ghost(acc));
                }
            },
        }
    }
    if k >= args.len() {
        if lo < n {
            Err(ParseError::NoNeed(copy_strs(toks, lo, n)))
        } else {
            Ok(spans)
        }
    } else {
        check_starved(args, k, args.len(), Ghost(o), Ghost(acc))?;
        Ok(spans)
    }
}

/// The slots after the unbounded one `k`, served from the back.
fn spans_back(args: &Vec<Args>, toks: &[String], k: usize, lo: usize, spans: Vec<Span>, Ghost(acc0): Ghost<Plan>) -> (r: Result<Vec<Span>, ParseError>)
    requires
        k + 1 < args@.len(),
        lo < toks@.len(),
        one_unbounded(args@),
        args@[k as int].len is None,
        recorded(spans@, acc0, strs(toks@)),
        acc0.len() == args@.len(),
    ensures
        match back(args@, strs(toks@), k as int, args@.len() - 1, lo as int, toks@.len() as int, acc0) {
            Ok(p) => r matches Ok(v) && recorded(v@, p, strs(toks@)),
            Err(e) => r matches Err(x) && x@ == e,
        },
{
    let ghost o = args@;
    let ghost t = strs(toks@);
    let mut spans = spans;
    let ghost mut acc: Plan = acc0;
    let mut j: usize = args.len() - 1;
    let mut hi: usize = toks.len();
    while j > k && lo < hi
        invariant
            k <= j < o.len(),
            o == args@,
            lo <= hi <= toks@.len() == t.len(),
            t == strs(toks@),
            recorded(spans@, acc, t),
            acc.len() == o.len(),
            back(o, t, k as int, o.len() - 1, lo as int, toks@.len() as int, acc0)
                == back(o, t, k as int, j as int, lo as int, hi as int, acc),
        decreases j - k,
    {
        match args[j].len {
            Some(m) => {
                if m <= hi - lo {
                    mark(&mut spans, j, hi - m, hi, Ghost(acc), Ghost(t));
                    proof {
                        acc = acc.update(j as int, Some(t.subrange(hi - m, hi as int)));
                    }
                    hi = hi - m;
                } else if args[j].optional {
                    mark(&mut spans, j, lo, hi, Ghost(acc), Ghost(t));
                    proof {
                        acc = acc.update(j as int, Some(t.subrange(lo as int, hi as int)));
                    }
                    hi = lo;
                } else {
                    return Err(ParseError::NoProvideEnough(args[j].name.clone()));
                }
            },
            None => {
                mark(&mut spans, j, lo, hi, Ghost(acc), Ghost(t));
                proof {
                    acc = acc.update(j as int, Some(t.subrange(lo as int, hi as int)));
                }
                hi = lo;
            },
        }
        j = j - 1;
    }
    if lo >= hi {
        check_starved(args, k, j + 1, Ghost(o), Ghost(acc))?;
        Ok(spans)
    } else {
        mark(&mut spans, k, lo, hi, Ghost(acc), Ghost(t));
        Ok(spans)
    }
}

/// Shares the positional tokens out among the slots, and binds each slot to
/// its block. The whole plan is worked out first: on a failure no slot is
/// bound.
pub fn args_handle(args: &mut Vec<Args>, toks: &[String]) -> (r: Result<(), ParseError>)
    requires
        one_unbounded(old(args)@),
    ensures
        same_slots(old(args)@, final(args)@),
        r is Err ==> final(args)@ == old(args)@,
        match plan(old(args)@, strs(toks@)) {
            Ok(p) => r is Ok && forall|i: int|
                0 <= i < p.len() ==> #[trigger] args_val(final(args)@[i].value) == after_plan(
                    old(args)@[i],
                    p[i],
                ),
            Err(e) => r matches Err(x) && x@ == e,
        },
{
    let ghost o = args@;
    let ghost t = strs(toks@);
    let spans = plan_spans(args, toks)?;
    let ghost p = plan(o, t)->Ok_0;
    proof {
        crate::laws::lemma_plan_len(o, t);
    }
    let mut i: usize = 0;
    while i < spans.len()
        invariant
            i <= spans@.len() == o.len() == args@.len(),
            t == strs(toks@),
            recorded(spans@, p, t),
            same_slots(o, args@),
            forall|j: int| 0 <= j < i ==> #[trigger] args_val(args@[j].value) == after_plan(o[j], p[j]),
            forall|j: int| i <= j < o.len() ==> #[trigger] args@[j] == o[j],
        decreases o.len() - i,
    {
        let ghost prev = args@;
        match spans[i] {
            Some((a, b)) => {
                assert(spans@[i as int] matches Some((x, y)) ==> x <= y <= t.len());
                let block = copy_strs(toks, a, b);
                args[i].parse(block);
                assert(forall|j: int| 0 <= j < o.len() && j != i ==> args@[j] == prev[j]);
                assert(args_val(args@[i as int].value) == p[i as int]);
            },
            None => {
                assert(p[i as int] is None);
            },
        }
        assert forall|j: int| 0 <= j < o.len() implies #[trigger] args@[j].name == o[j].name && args@[j].optional == o[j].optional && args@[j].len == o[j].len && args@[j].help == o[j].help by {
            assert(prev[j].name == o[j].name);
        }
        assert forall|j: int| 0 <= j < i + 1 implies #[trigger] args_val(args@[j].value) == after_plan(o[j], p[j]) by {
            if j < i {
                assert(args@[j] == prev[j]);
            }
        }
        i = i + 1;
    }
    Ok(())
}

} // verus!
