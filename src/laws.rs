use vstd::prelude::*;
use crate::error::Fail;
use crate::token::is_flag_token;
use crate::schema::{Opt, OptVal, Args, has_value, args_val};
use crate::distribute::{Plan, plan, front, back, precheck, same_slots, needs_tokens, demand};
use crate::command::{Cmd, scan, scanned, first_match, opt_vals, same_opts, same_opt, cmd_outcome};
use crate::app::{App, Helper, parse_post, name_view, Reply, early, parsed, missing, missing_opt, missing_arg, cmd_bound, same_cmd, split_from, main_region};

verus! {

/// A plan has one entry per slot.
pub proof fn lemma_back_len(s: Seq<Args>, t: Seq<Seq<char>>, k: int, j: int, lo: int, hi: int, acc: Plan)
    requires
        back(s, t, k, j, lo, hi, acc) is Ok,
        acc.len() == s.len(),
        0 <= k < s.len(),
        j < s.len(),
    ensures
        back(s, t, k, j, lo, hi, acc)->Ok_0.len() == acc.len(),
    decreases j - k,
{
    if j > k && lo < hi {
        match s[j].len {
            Some(n) => if n <= hi - lo {
                lemma_back_len(s, t, k, j - 1, lo, hi - n, acc.update(j, Some(t.subrange(hi - n, hi))));
            } else if s[j].optional {
                lemma_back_len(s, t, k, j - 1, lo, lo, acc.update(j, Some(t.subrange(lo, hi))));
            },
            None => lemma_back_len(s, t, k, j - 1, lo, lo, acc.update(j, Some(t.subrange(lo, hi)))),
        }
    }
}

/// A plan has one entry per slot.
pub proof fn lemma_front_len(s: Seq<Args>, t: Seq<Seq<char>>, k: int, lo: int, acc: Plan)
    requires
        front(s, t, k, lo, acc) is Ok,
        acc.len() == s.len(),
        0 <= k,
    ensures
        front(s, t, k, lo, acc)->Ok_0.len() == acc.len(),
    decreases s.len() - k,
{
    if k < s.len() && lo < t.len() {
        match s[k].len {
            Some(n) => if n <= t.len() - lo {
                lemma_front_len(s, t, k + 1, lo + n, acc.update(k, Some(t.subrange(lo, lo + n))));
            } else if s[k].optional {
                lemma_front_len(s, t, k + 1, t.len() as int, acc.update(k, Some(t.subrange(lo, t.len() as int))));
            },
            None => if k + 1 != s.len() {
                lemma_back_len(s, t, k, s.len() - 1, lo, t.len() as int, acc);
            },
        }
    }
}

/// A successful plan hands out one entry to each slot.
pub proof fn lemma_plan_len(s: Seq<Args>, t: Seq<Seq<char>>)
    requires
        plan(s, t) is Ok,
    ensures
        plan(s, t)->Ok_0.len() == s.len(),
{
    lemma_front_len(s, t, 0, 0, Seq::new(s.len(), |i: int| None));
}

/// The tokens of a plan's blocks, slot after slot.
pub open spec fn flat(p: Plan) -> Seq<Seq<char>>
    decreases p.len(),
{
    if p.len() == 0 {
        Seq::empty()
    } else {
        flat(p.drop_last()) + match p.last() {
            Some(b) => b,
            None => Seq::empty(),
        }
    }
}

pub proof fn lemma_flat_concat(a: Plan, b: Plan)
    ensures
        flat(a + b) == flat(a) + flat(b),
    decreases b.len(),
{
    if b.len() == 0 {
        assert(a + b =~= a);
        assert(flat(a) + flat(b) =~= flat(a));
    } else {
        assert((a + b).drop_last() =~= a + b.drop_last());
        lemma_flat_concat(a, b.drop_last());
        let tail = match b.last() {
            Some(x) => x,
            None => Seq::<Seq<char>>::empty(),
        };
        assert(flat(a) + flat(b.drop_last()) + tail =~= flat(a) + (flat(b.drop_last()) + tail));
    }
}

pub proof fn lemma_flat_none(a: Plan)
    requires
        forall|i: int| 0 <= i < a.len() ==> #[trigger] a[i] is None,
    ensures
        flat(a) == Seq::<Seq<char>>::empty(),
    decreases a.len(),
{
    if a.len() > 0 {
        lemma_flat_none(a.drop_last());
        assert(a.last() is None);
        assert(flat(a.drop_last()) + Seq::<Seq<char>>::empty() =~= Seq::<Seq<char>>::empty());
    }
}

pub proof fn lemma_flat_one(x: Option<Seq<Seq<char>>>)
    ensures
        flat(seq![x]) == match x {
            Some(b) => b,
            None => Seq::<Seq<char>>::empty(),
        },
{
    assert(seq![x].drop_last() =~= Seq::<Option<Seq<Seq<char>>>>::empty());
    assert(flat(Seq::<Option<Seq<Seq<char>>>>::empty()) == Seq::<Seq<char>>::empty());
    assert(seq![x].last() == x);
    assert(seq![x].len() == 1);
    let b = match x {
        Some(b) => b,
        None => Seq::<Seq<char>>::empty(),
    };
    assert(Seq::<Seq<char>>::empty() + b =~= b);
}

/// `flat(p[a..c]) == flat(p[a..b]) + flat(p[b..c])`.
pub proof fn lemma_flat_split(p: Plan, a: int, b: int, c: int)
    requires
        0 <= a <= b <= c <= p.len(),
    ensures
        flat(p.subrange(a, c)) == flat(p.subrange(a, b)) + flat(p.subrange(b, c)),
{
    assert(p.subrange(a, c) =~= p.subrange(a, b) + p.subrange(b, c));
    lemma_flat_concat(p.subrange(a, b), p.subrange(b, c));
}

pub proof fn lemma_flat_at(p: Plan, k: int, x: Option<Seq<Seq<char>>>, lo: int, hi: int)
    requires
        0 <= lo <= k < hi <= p.len(),
    ensures
        flat(p.update(k, x).subrange(lo, hi)) == flat(p.subrange(lo, k)) + flat(seq![x]) + flat(p.subrange(k + 1, hi)),
{
    let q = p.update(k, x);
    lemma_flat_split(q, lo, k, hi);
    lemma_flat_split(q, k, k + 1, hi);
    assert(q.subrange(lo, k) =~= p.subrange(lo, k));
    assert(q.subrange(k, k + 1) =~= seq![x]);
    assert(q.subrange(k + 1, hi) =~= p.subrange(k + 1, hi));
    assert(flat(p.subrange(lo, k)) + (flat(seq![x]) + flat(p.subrange(k + 1, hi))) =~= flat(p.subrange(lo, k)) + flat(seq![x]) + flat(p.subrange(k + 1, hi)));
}

pub proof fn lemma_back_covers(s: Seq<Args>, t: Seq<Seq<char>>, k: int, j: int, lo: int, hi: int, acc: Plan)
    requires
        back(s, t, k, j, lo, hi, acc) is Ok,
        acc.len() == s.len(),
        0 <= k <= j < s.len(),
        0 <= lo <= hi <= t.len(),
        forall|i: int| k <= i <= j ==> #[trigger] acc[i] is None,
    ensures
        ({
            let p = back(s, t, k, j, lo, hi, acc)->Ok_0;
            flat(p) == flat(acc.subrange(0, k)) + t.subrange(lo, hi) + flat(acc.subrange(j + 1, s.len() as int))
        }),
    decreases j - k,
{
    let n = s.len() as int;
    let p = back(s, t, k, j, lo, hi, acc)->Ok_0;
    assert(acc.subrange(0, n) =~= acc);
    if lo >= hi {
        assert(t.subrange(lo, hi) =~= Seq::<Seq<char>>::empty());
        lemma_flat_split(acc, 0, k, n);
        lemma_flat_split(acc, k, j + 1, n);
        lemma_flat_none(acc.subrange(k, j + 1));
        assert(p == acc);
        assert(flat(acc.subrange(0, k)) + Seq::<Seq<char>>::empty() + flat(acc.subrange(j + 1, n)) =~= flat(acc.subrange(0, k)) + (Seq::<Seq<char>>::empty() + flat(acc.subrange(j + 1, n))));
        assert(Seq::<Seq<char>>::empty() + flat(acc.subrange(j + 1, n)) =~= flat(acc.subrange(j + 1, n)));
    } else if j <= k {
        let x = Some(t.subrange(lo, hi));
        assert(p == acc.update(k, x));
        lemma_flat_at(acc, k, x, 0, n);
        lemma_flat_one(x);
        assert(acc.update(k, x).subrange(0, n) =~= acc.update(k, x));
    } else {
        let (nlo, nhi, x) = match s[j].len {
            Some(m) => if m <= hi - lo {
                (lo, hi - m, Some(t.subrange(hi - m, hi)))
            } else {
                (lo, lo, Some(t.subrange(lo, hi)))
            },
            None => (lo, lo, Some(t.subrange(lo, hi))),
        };
        let a2 = acc.update(j, x);
        assert(back(s, t, k, j, lo, hi, acc) == back(s, t, k, j - 1, nlo, nhi, a2));
        lemma_back_covers(s, t, k, j - 1, nlo, nhi, a2);
        assert(a2.subrange(0, k) =~= acc.subrange(0, k));
        lemma_flat_at(acc, j, x, j, n);
        assert(acc.subrange(j, j) =~= Seq::<Option<Seq<Seq<char>>>>::empty());
        assert(a2.subrange(j, n) =~= acc.update(j, x).subrange(j, n));
        lemma_flat_one(x);
        let b = x->0;
        assert(t.subrange(nlo, nhi) + b =~= t.subrange(lo, hi));
        let f0 = flat(acc.subrange(0, k));
        let f1 = flat(acc.subrange(j + 1, n));
        assert(flat(Seq::<Option<Seq<Seq<char>>>>::empty()) == Seq::<Seq<char>>::empty());
        assert(flat(a2.subrange(j, n)) =~= b + f1);
        assert(f0 + t.subrange(nlo, nhi) + (b + f1) =~= f0 + t.subrange(lo, hi) + f1);
    }
}

pub proof fn lemma_front_covers(s: Seq<Args>, t: Seq<Seq<char>>, k: int, lo: int, acc: Plan)
    requires
        front(s, t, k, lo, acc) is Ok,
        acc.len() == s.len(),
        0 <= k <= s.len(),
        0 <= lo <= t.len(),
        forall|i: int| k <= i < s.len() ==> #[trigger] acc[i] is None,
    ensures
        flat(front(s, t, k, lo, acc)->Ok_0) == flat(acc.subrange(0, k)) + t.subrange(lo, t.len() as int),
    decreases s.len() - k,
{
    let n = s.len() as int;
    let e = Seq::<Seq<char>>::empty();
    let p = front(s, t, k, lo, acc)->Ok_0;
    assert(acc.subrange(0, n) =~= acc);
    if k >= n {
        assert(t.subrange(lo, t.len() as int) =~= e);
        assert(flat(acc) + e =~= flat(acc));
    } else if lo >= t.len() {
        assert(t.subrange(lo, t.len() as int) =~= e);
        lemma_flat_split(acc, 0, k, n);
        lemma_flat_none(acc.subrange(k, n));
        assert(flat(acc.subrange(0, k)) + e =~= flat(acc.subrange(0, k)));
    } else {
        match s[k].len {
            Some(m) => {
                let (nlo, x) = if m <= t.len() - lo {
                    (lo + m, Some(t.subrange(lo, lo + m)))
                } else {
                    (t.len() as int, Some(t.subrange(lo, t.len() as int)))
                };
                let a2 = acc.update(k, x);
                lemma_front_covers(s, t, k + 1, nlo, a2);
                lemma_flat_at(acc, k, x, 0, k + 1);
                assert(acc.subrange(k + 1, k + 1) =~= Seq::<Option<Seq<Seq<char>>>>::empty());
                assert(flat(Seq::<Option<Seq<Seq<char>>>>::empty()) == e);
                lemma_flat_one(x);
                let b = x->0;
                assert(flat(a2.subrange(0, k + 1)) =~= flat(acc.subrange(0, k)) + b);
                assert(flat(acc.subrange(0, k)) + b + t.subrange(nlo, t.len() as int) =~= flat(acc.subrange(0, k)) + t.subrange(lo, t.len() as int));
            },
            None => {
                if k + 1 == n {
                    let x = Some(t.subrange(lo, t.len() as int));
                    lemma_flat_at(acc, k, x, 0, n);
                    lemma_flat_one(x);
                    assert(acc.update(k, x).subrange(0, n) =~= acc.update(k, x));
                    assert(acc.subrange(k + 1, n) =~= Seq::<Option<Seq<Seq<char>>>>::empty());
                    assert(flat(Seq::<Option<Seq<Seq<char>>>>::empty()) == e);
                    assert(flat(acc.subrange(0, k)) + t.subrange(lo, t.len() as int) + e =~= flat(acc.subrange(0, k)) + t.subrange(lo, t.len() as int));
                } else {
                    lemma_back_covers(s, t, k, n - 1, lo, t.len() as int, acc);
                    assert(acc.subrange(n, n) =~= Seq::<Option<Seq<Seq<char>>>>::empty());
                    assert(flat(Seq::<Option<Seq<Seq<char>>>>::empty()) == e);
                    assert(flat(acc.subrange(0, k)) + t.subrange(lo, t.len() as int) + e =~= flat(acc.subrange(0, k)) + t.subrange(lo, t.len() as int));
                }
            },
        }
    }
}

/// A successful distribution hands out every positional token once and in
/// order: the blocks, taken slot after slot, make up the token list.
pub proof fn lemma_plan_covers(s: Seq<Args>, t: Seq<Seq<char>>)
    requires
        plan(s, t) is Ok,
    ensures
        flat(plan(s, t)->Ok_0) == t,
{
    let init: Plan = Seq::new(s.len(), |i: int| None);
    lemma_front_covers(s, t, 0, 0, init);
    assert(init.subrange(0, 0) =~= Seq::<Option<Seq<Seq<char>>>>::empty());
    assert(flat(Seq::<Option<Seq<Seq<char>>>>::empty()) == Seq::<Seq<char>>::empty());
    assert(Seq::<Seq<char>>::empty() + t.subrange(0, t.len() as int) =~= t);
}

/// The arity of a fixed slot; nothing for an unbounded one.
pub open spec fn arity(a: Args) -> int {
    match a.len {
        Some(n) => n as int,
        None => 0,
    }
}

/// The arities of slots `[a, b)`, added up.
pub open spec fn span_sum(s: Seq<Args>, a: int, b: int) -> int
    decreases b - a,
{
    if a >= b {
        0
    } else {
        arity(s[a]) + span_sum(s, a + 1, b)
    }
}

/// What slots `[a, b)` ask for before distribution, added up.
pub open spec fn demand_sum(s: Seq<Args>, a: int, b: int) -> int
    decreases b - a,
{
    if a >= b {
        0
    } else {
        demand(s[a]) + demand_sum(s, a + 1, b)
    }
}

pub proof fn lemma_span_last(s: Seq<Args>, a: int, b: int)
    requires
        a <= b,
    ensures
        span_sum(s, a, b + 1) == span_sum(s, a, b) + arity(s[b]),
    decreases b - a,
{
    if a < b {
        lemma_span_last(s, a + 1, b);
    } else {
        assert(span_sum(s, a + 1, b + 1) == 0);
    }
}

pub proof fn lemma_span_nonneg(s: Seq<Args>, a: int, b: int)
    ensures
        span_sum(s, a, b) >= 0,
    decreases b - a,
{
    if a < b {
        lemma_span_nonneg(s, a + 1, b);
    }
}

/// Slots `[a, b)` are all of fixed, positive arity.
pub open spec fn fixed_run(s: Seq<Args>, a: int, b: int) -> bool {
    forall|i: int| a <= i < b ==> ((#[trigger] s[i]).len matches Some(n) && n >= 1)
}

pub proof fn lemma_demand_bound(s: Seq<Args>, a: int, u: int)
    requires
        0 <= a <= s.len(),
        0 <= u <= s.len(),
        fixed_run(s, 0, u),
        u < s.len() ==> s[u].len is None && fixed_run(s, u + 1, s.len() as int),
    ensures
        demand_sum(s, a, s.len() as int) <= span_sum(s, a, s.len() as int) + (if a <= u && u < s.len() { 1int } else { 0int }),
    decreases s.len() - a,
{
    if a < s.len() {
        lemma_demand_bound(s, a + 1, u);
        lemma_span_nonneg(s, a + 1, s.len() as int);
    }
}

pub proof fn lemma_precheck_passes(s: Seq<Args>, n: nat, k: int, used: nat)
    requires
        0 <= k <= s.len(),
        used + demand_sum(s, k, s.len() as int) <= n,
    ensures
        precheck(s, n, k, used) is None,
    decreases s.len() - k,
{
    if k < s.len() {
        lemma_demand_nonneg(s, k + 1);
        lemma_precheck_passes(s, n, k + 1, used + demand(s[k]));
    }
}

pub proof fn lemma_demand_nonneg(s: Seq<Args>, a: int)
    ensures
        demand_sum(s, a, s.len() as int) >= 0,
    decreases s.len() - a,
{
    if a < s.len() {
        lemma_demand_nonneg(s, a + 1);
    }
}

pub proof fn lemma_back_closed(s: Seq<Args>, t: Seq<Seq<char>>, k: int, j: int, lo: int, hi: int, acc: Plan)
    requires
        0 <= k <= j < s.len(),
        acc.len() == s.len(),
        s[k].len is None,
        fixed_run(s, k + 1, j + 1),
        0 <= lo <= hi <= t.len(),
        hi - lo > span_sum(s, k + 1, j + 1),
    ensures
        back(s, t, k, j, lo, hi, acc) matches Ok(p) && p.len() == acc.len()
            && p[k] == Some(t.subrange(lo, hi - span_sum(s, k + 1, j + 1)))
            && (forall|i: int| k < i <= j ==> #[trigger] p[i] == Some(t.subrange(hi - span_sum(s, i, j + 1), hi - span_sum(s, i + 1, j + 1))))
            && (forall|i: int| 0 <= i < s.len() && !(k <= i <= j) ==> #[trigger] p[i] == acc[i]),
    decreases j - k,
{
    if j > k {
        let m = arity(s[j]);
        assert(s[j].len matches Some(x) && x >= 1);
        lemma_span_last(s, k + 1, j);
        lemma_span_nonneg(s, k + 1, j);
        let a2 = acc.update(j, Some(t.subrange(hi - m, hi)));
        lemma_back_closed(s, t, k, j - 1, lo, hi - m, a2);
        let p = back(s, t, k, j - 1, lo, hi - m, a2)->Ok_0;
        assert(back(s, t, k, j, lo, hi, acc) == back(s, t, k, j - 1, lo, hi - m, a2));
        assert forall|i: int| k < i <= j implies #[trigger] p[i] == Some(t.subrange(hi - span_sum(s, i, j + 1), hi - span_sum(s, i + 1, j + 1))) by {
            lemma_span_last(s, i, j);
            if i < j {
                lemma_span_last(s, i + 1, j);
            }
        }
    }
}

pub proof fn lemma_front_closed(s: Seq<Args>, t: Seq<Seq<char>>, k: int, lo: int, acc: Plan, u: int)
    requires
        0 <= k <= u <= s.len(),
        acc.len() == s.len(),
        0 <= lo,
        fixed_run(s, k, u),
        u < s.len() ==> s[u].len is None && fixed_run(s, u + 1, s.len() as int)
            && lo + span_sum(s, k, u) + span_sum(s, u + 1, s.len() as int) < t.len(),
        u == s.len() ==> lo + span_sum(s, k, u) == t.len(),
    ensures
        front(s, t, k, lo, acc) matches Ok(p) && p.len() == acc.len()
            && (forall|i: int| k <= i < u ==> #[trigger] p[i] == Some(t.subrange(lo + span_sum(s, k, i), lo + span_sum(s, k, i + 1))))
            && (u < s.len() ==> p[u] == Some(t.subrange(lo + span_sum(s, k, u), t.len() - span_sum(s, u + 1, s.len() as int))))
            && (forall|i: int| u < i < s.len() ==> #[trigger] p[i] == Some(t.subrange(t.len() - span_sum(s, i, s.len() as int), t.len() - span_sum(s, i + 1, s.len() as int))))
            && (forall|i: int| 0 <= i < k ==> #[trigger] p[i] == acc[i]),
    decreases s.len() - k,
{
    let n = s.len() as int;
    lemma_span_nonneg(s, k, u);
    if u < n {
        lemma_span_nonneg(s, u + 1, n);
    }
    if k < u {
        let m = arity(s[k]);
        assert(s[k].len matches Some(x) && x >= 1);
        lemma_span_nonneg(s, k + 1, u);
        let a2 = acc.update(k, Some(t.subrange(lo, lo + m)));
        lemma_front_closed(s, t, k + 1, lo + m, a2, u);
        let p = front(s, t, k + 1, lo + m, a2)->Ok_0;
        assert(front(s, t, k, lo, acc) == front(s, t, k + 1, lo + m, a2));
        assert forall|i: int| k <= i < u implies #[trigger] p[i] == Some(t.subrange(lo + span_sum(s, k, i), lo + span_sum(s, k, i + 1))) by {
            if i > k {
                assert(span_sum(s, k, i) == m + span_sum(s, k + 1, i));
                assert(span_sum(s, k, i + 1) == m + span_sum(s, k + 1, i + 1));
            } else {
                assert(span_sum(s, k, k + 1) == m + span_sum(s, k + 1, k + 1));
            }
        }
    } else if u < n {
        if k + 1 == n {
            assert(span_sum(s, u + 1, n) == 0);
        } else {
            lemma_back_closed(s, t, k, n - 1, lo, t.len() as int, acc);
        }
    }
}

/// The blocks of a distribution in closed form: with one unbounded slot at
/// `u` (or none, `u` the number of slots), every other slot of fixed,
/// positive arity, and more tokens than the fixed slots take (exactly as
/// many where there is no unbounded slot), each slot before `u` takes the
/// block after the arities before it, each slot after `u` the block before
/// the arities after it, and the unbounded slot what lies between.
pub proof fn lemma_plan_closed(s: Seq<Args>, t: Seq<Seq<char>>, u: int)
    requires
        0 <= u <= s.len(),
        fixed_run(s, 0, u),
        u < s.len() ==> s[u].len is None && fixed_run(s, u + 1, s.len() as int)
            && span_sum(s, 0, u) + span_sum(s, u + 1, s.len() as int) < t.len(),
        u == s.len() ==> span_sum(s, 0, u) == t.len(),
    ensures
        plan(s, t) matches Ok(p) && p.len() == s.len()
            && (forall|i: int| 0 <= i < u ==> #[trigger] p[i] == Some(t.subrange(span_sum(s, 0, i), span_sum(s, 0, i + 1))))
            && (u < s.len() ==> p[u] == Some(t.subrange(span_sum(s, 0, u), t.len() - span_sum(s, u + 1, s.len() as int))))
            && (forall|i: int| u < i < s.len() ==> #[trigger] p[i] == Some(t.subrange(t.len() - span_sum(s, i, s.len() as int), t.len() - span_sum(s, i + 1, s.len() as int)))),
{
    let n = s.len() as int;
    lemma_demand_bound(s, 0, u);
    if u < n {
        assert(span_sum(s, 0, n) == span_sum(s, 0, u) + arity(s[u]) + span_sum(s, u + 1, n)) by {
            lemma_span_split(s, 0, u, n);
            assert(span_sum(s, u, n) == arity(s[u]) + span_sum(s, u + 1, n));
        }
    }
    lemma_precheck_passes(s, t.len(), 0, 0);
    lemma_front_closed(s, t, 0, 0, Seq::new(s.len(), |i: int| None), u);
}

pub proof fn lemma_span_split(s: Seq<Args>, a: int, b: int, c: int)
    requires
        a <= b <= c,
    ensures
        span_sum(s, a, c) == span_sum(s, a, b) + span_sum(s, b, c),
    decreases b - a,
{
    if a < b {
        lemma_span_split(s, a + 1, b, c);
    }
}

/// The check after a parse depends on what the options and slots hold,
/// and on nothing else.
pub proof fn lemma_missing_same(a: Cmd, b: Cmd)
    requires
        same_opts(a.opts@, b.opts@),
        opt_vals(a.opts@) == opt_vals(b.opts@),
        same_slots(a.args@, b.args@),
        forall|i: int| 0 <= i < a.args@.len() ==> #[trigger] args_val(a.args@[i].value) == args_val(b.args@[i].value),
    ensures
        missing(a) == missing(b),
{
    lemma_missing_opt_same(a.opts@, b.opts@, 0);
    lemma_missing_arg_same(a.args@, b.args@, 0);
    if let Some(k) = missing_opt(a.opts@, 0) {
        lemma_missing_opt_in(a.opts@, 0);
        assert(same_opt(a.opts@[k], b.opts@[k]));
    } else if let Some(k) = missing_arg(a.args@, 0) {
        lemma_missing_arg_in(a.args@, 0);
        assert(b.args@[k].name == a.args@[k].name);
    }
}

pub proof fn lemma_missing_opt_in(s: Seq<Opt>, i: int)
    requires
        missing_opt(s, i) is Some,
    ensures
        0 <= missing_opt(s, i)->0 < s.len(),
    decreases s.len() - i,
{
    if 0 <= i < s.len() && (s[i].optional || has_value(s[i].value@)) {
        lemma_missing_opt_in(s, i + 1);
    }
}

pub proof fn lemma_missing_arg_in(s: Seq<Args>, i: int)
    requires
        missing_arg(s, i) is Some,
    ensures
        0 <= missing_arg(s, i)->0 < s.len(),
    decreases s.len() - i,
{
    if 0 <= i < s.len() && (s[i].optional || s[i].value is Some) {
        lemma_missing_arg_in(s, i + 1);
    }
}

pub proof fn lemma_missing_opt_same(a: Seq<Opt>, b: Seq<Opt>, i: int)
    requires
        same_opts(a, b),
        opt_vals(a) == opt_vals(b),
    ensures
        missing_opt(a, i) == missing_opt(b, i),
    decreases a.len() - i,
{
    if 0 <= i < a.len() {
        assert(same_opt(a[i], b[i]));
        assert(opt_vals(a)[i] == opt_vals(b)[i]);
        assert(opt_vals(a)[i] == a[i].value@);
        assert(opt_vals(b)[i] == b[i].value@);
        lemma_missing_opt_same(a, b, i + 1);
    }
}

pub proof fn lemma_missing_arg_same(a: Seq<Args>, b: Seq<Args>, i: int)
    requires
        same_slots(a, b),
        forall|j: int| 0 <= j < a.len() ==> #[trigger] args_val(a[j].value) == args_val(b[j].value),
    ensures
        missing_arg(a, i) == missing_arg(b, i),
    decreases a.len() - i,
{
    if 0 <= i < a.len() {
        assert(b[i].name == a[i].name);
        assert(args_val(a[i].value) == args_val(b[i].value));
        lemma_missing_arg_same(a, b, i + 1);
    }
}

/// Two commands that a parse of the same tokens left from the same
/// command hold the same values.
pub proof fn lemma_bound_same(old: Cmd, a: Cmd, b: Cmd, t: Seq<Seq<char>>)
    requires
        cmd_bound(old, a, t),
        cmd_bound(old, b, t),
        same_opts(old.opts@, a.opts@),
        same_opts(old.opts@, b.opts@),
        same_slots(old.args@, a.args@),
        same_slots(old.args@, b.args@),
    ensures
        opt_vals(a.opts@) == opt_vals(b.opts@),
        forall|i: int| 0 <= i < a.args@.len() ==> #[trigger] args_val(a.args@[i].value) == args_val(b.args@[i].value),
        missing(a) == missing(b),
{
    let (vals, pos) = scan(old.opts@, t, 0, opt_vals(old.opts@), Seq::empty())->Ok_0;
    lemma_plan_len(old.args@, pos);
    let p = plan(old.args@, pos)->Ok_0;
    assert forall|i: int| 0 <= i < a.args@.len() implies #[trigger] args_val(a.args@[i].value) == args_val(b.args@[i].value) by {
        assert(args_val(a.args@[i].value) == crate::distribute::after_plan(old.args@[i], p[i]));
        assert(args_val(b.args@[i].value) == crate::distribute::after_plan(old.args@[i], p[i]));
    }
    assert forall|i: int| 0 <= i < a.opts@.len() implies same_opt(a.opts@[i], #[trigger] b.opts@[i]) by {
        assert(same_opt(old.opts@[i], a.opts@[i]));
        assert(same_opt(old.opts@[i], b.opts@[i]));
    }
    assert forall|i: int| 0 <= i < a.args@.len() implies #[trigger] b.args@[i].name == a.args@[i].name && b.args@[i].optional == a.args@[i].optional && b.args@[i].len == a.args@[i].len && b.args@[i].help == a.args@[i].help by {
        assert(a.args@[i].name == old.args@[i].name);
        assert(b.args@[i].name == old.args@[i].name);
    }
    lemma_missing_same(a, b);
}

/// Two commands hold the same values in their options and slots.
pub open spec fn same_store(c1: Cmd, c2: Cmd) -> bool {
    &&& opt_vals(c1.opts@) == opt_vals(c2.opts@)
    &&& c1.args@.len() == c2.args@.len()
    &&& forall|i: int| 0 <= i < c1.args@.len() ==> #[trigger] args_val(c1.args@[i].value) == args_val(c2.args@[i].value)
}

pub proof fn lemma_store_views(c1: Cmd, c2: Cmd)
    requires
        c1.opts@.len() == c2.opts@.len(),
        opt_vals(c1.opts@) == opt_vals(c2.opts@),
        c1.args@ == c2.args@,
    ensures
        same_store(c1, c2),
{
}

/// Parsing the same tokens twice with the same application, from fresh
/// storage each time, gives the same outcome, leaves the same values in
/// every option and slot of every command, and the same helper.
pub proof fn lemma_parse_repeats(a: App, n1: App, n2: App, t: Seq<Seq<char>>, r1: Result<Reply, Fail>, r2: Result<Reply, Fail>)
    requires
        a.wf(),
        parse_post(a, n1, t, r1),
        parse_post(a, n2, t, r2),
    ensures
        r1 == r2,
        same_store(n1.main, n2.main),
        n1.cmds@.len() == n2.cmds@.len(),
        forall|i: int| 0 <= i < n1.cmds@.len() ==> same_store(#[trigger] n1.cmds@[i], n2.cmds@[i]),
        n1.helper == (Helper { current_cmd: n1.helper.current_cmd, ..n2.helper }),
        name_view(n1.helper.current_cmd) == name_view(n2.helper.current_cmd),
{
    let sp = split_from(a.cmds@, t, 0);
    let pre = main_region(a, t);
    if early(a, t) is Some {
        assert(n1.main == n2.main && n1.cmds == n2.cmds);
        assert forall|i: int| 0 <= i < n1.cmds@.len() implies same_store(#[trigger] n1.cmds@[i], n2.cmds@[i]) by {
            assert(n1.cmds@[i] == n2.cmds@[i]);
        }
    } else if cmd_outcome(a.main, pre) is Err {
        assert(same_cmd(a.main, n1.main) && same_cmd(a.main, n2.main));
        lemma_store_views(n1.main, n2.main);
        assert forall|i: int| 0 <= i < n1.cmds@.len() implies same_store(#[trigger] n1.cmds@[i], n2.cmds@[i]) by {
            assert(n1.cmds@[i] == n2.cmds@[i]);
        }
    } else {
        lemma_bound_same(a.main, n1.main, n2.main, pre);
        assert(n1.main.args@.len() == n2.main.args@.len()) by {
            assert(same_cmd(a.main, n1.main) && same_cmd(a.main, n2.main));
        }
        let (x, c) = match sp {
            Some(q) => q,
            None => (0int, -1int),
        };
        if sp is Some {
            lemma_split_in(a.cmds@, t, 0);
            let suf = t.subrange(x + 1, t.len() as int);
            assert(same_cmd(a.cmds@[c], n1.cmds@[c]));
            assert(same_cmd(a.cmds@[c], n2.cmds@[c]));
            if cmd_outcome(a.cmds@[c], suf) is Ok {
                lemma_bound_same(a.cmds@[c], n1.cmds@[c], n2.cmds@[c], suf);
            } else {
                lemma_store_views(n1.cmds@[c], n2.cmds@[c]);
            }
        }
        assert forall|i: int| 0 <= i < n1.cmds@.len() implies same_store(#[trigger] n1.cmds@[i], n2.cmds@[i]) by {
            if !(sp is Some && c == i) {
                assert(n1.cmds@[i] == a.cmds@[i]);
                assert(n2.cmds@[i] == a.cmds@[i]);
            }
        }
    }
}

pub proof fn lemma_split_in(cs: Seq<Cmd>, t: Seq<Seq<char>>, i: int)
    requires
        split_from(cs, t, i) is Some,
    ensures
        split_from(cs, t, i) matches Some((x, y)) ==> 0 <= x < t.len() && 0 <= y < cs.len(),
    decreases t.len() - i,
{
    if 0 <= i < t.len() {
        match crate::app::cmd_named(cs, t[i], cs.len() as int) {
            Some(c) => crate::app::lemma_cmd_named_hit(cs, t[i], cs.len() as int),
            None => lemma_split_in(cs, t, i + 1),
        }
    }
}

/// A main command that does not accept being given no token, given none,
/// fails with the zero-token error, whatever else the application holds.
pub proof fn lemma_zero_tokens(a: App, n: App, r: Result<Reply, Fail>)
    requires
        a.wf(),
        !a.main.allow_zero_args,
        parsed(a, n, Seq::empty(), r),
    ensures
        r == (if a.cmds@.len() > 0 {
            Err::<Reply, Fail>(Fail::ZeroArgsOrCommand)
        } else {
            Err::<Reply, Fail>(Fail::ZeroArgs)
        }),
{
}

pub proof fn lemma_precheck_skips(s: Seq<Args>, n: nat, k: int, j: int)
    requires
        0 <= k <= j <= s.len(),
        n > 0,
        forall|i: int| k <= i < j ==> !needs_tokens(#[trigger] s[i]),
    ensures
        precheck(s, n, k, 0) == precheck(s, n, j, 0),
    decreases j - k,
{
    if k < j {
        assert(!needs_tokens(s[k]));
        lemma_precheck_skips(s, n, k + 1, j);
    }
}

/// A required slot of arity two given a single token fails for want of
/// tokens and names itself, wherever it stands, as long as no slot before
/// it asks for tokens of its own.
pub proof fn lemma_short_of_two(s: Seq<Args>, j: int, t: Seq<Seq<char>>)
    requires
        0 <= j < s.len(),
        s[j].len == Some(2usize),
        needs_tokens(s[j]),
        forall|i: int| 0 <= i < j ==> !needs_tokens(#[trigger] s[i]),
        t.len() == 1,
    ensures
        plan(s, t) == Err::<Plan, Fail>(Fail::NoProvideEnough(s[j].name@)),
{
    lemma_precheck_skips(s, 1, 0, j);
}

/// The scan from `j` on arrives at token `i`: each token on the way is
/// positional, or a known flag whose value, if it takes one, lies before `i`.
pub open spec fn arrives(o: Seq<Opt>, t: Seq<Seq<char>>, j: int, i: int) -> bool
    decreases i - j,
{
    if j >= i {
        j == i
    } else if 0 <= j && is_flag_token(t[j]) {
        match first_match(o, t[j], o.len() as int) {
            None => false,
            Some(k) => if o[k].value is Bool {
                arrives(o, t, j + 1, i)
            } else if j + 2 <= i {
                arrives(o, t, j + 2, i)
            } else {
                false
            },
        }
    } else {
        arrives(o, t, j + 1, i)
    }
}

/// A scan that arrives at an unknown flag fails on it.
pub proof fn lemma_unknown_reached(o: Seq<Opt>, t: Seq<Seq<char>>, i: int, j: int, vals: Seq<OptVal>, pos: Seq<Seq<char>>)
    requires
        0 <= j <= i < t.len(),
        is_flag_token(t[i]),
        first_match(o, t[i], o.len() as int) is None,
        arrives(o, t, j, i),
    ensures
        scan(o, t, j, vals, pos) == Err::<(Seq<OptVal>, Seq<Seq<char>>), Fail>(Fail::UnknownOption(t[i])),
    decreases i - j,
{
    if j < i {
        if is_flag_token(t[j]) {
            let k = first_match(o, t[j], o.len() as int)->0;
            if o[k].value is Bool {
                lemma_unknown_reached(o, t, i, j + 1, vals.update(k, crate::schema::bound_opt(vals[k], Seq::empty())), pos);
            } else {
                lemma_unknown_reached(o, t, i, j + 2, vals.update(k, crate::schema::bound_opt(vals[k], t[j + 1])), pos);
            }
        } else {
            lemma_unknown_reached(o, t, i, j + 1, vals, pos.push(t[j]));
        }
    }
}

/// An unknown flag that the scan of a command's region arrives at, that is,
/// one that no earlier token fails on or takes as its value, fails the
/// parse of that region and names the flag, whatever tokens come after it.
pub proof fn lemma_unknown_flag_fails(c: Cmd, t: Seq<Seq<char>>, i: int)
    requires
        0 <= i < t.len(),
        is_flag_token(t[i]),
        first_match(c.opts@, t[i], c.opts@.len() as int) is None,
        arrives(c.opts@, t, 0, i),
    ensures
        cmd_outcome(c, t) == Err::<(Seq<OptVal>, Plan), Fail>(Fail::UnknownOption(t[i])),
{
    lemma_unknown_reached(c.opts@, t, i, 0, opt_vals(c.opts@), Seq::empty());
}

} // verus!
