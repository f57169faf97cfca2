use vstd::prelude::*;
use std::sync::atomic::{AtomicBool, Ordering};
use std::time::Instant;
use rayon::prelude::{IntoParallelRefIterator, ParallelIterator};
use crate::state::{cf, fits, has_fit, is_solution_of, rows_extend, State};

verus! {

#[verifier::external_type_specification]
#[verifier::external_body]
pub struct ExInstant(Instant);

/// Relies on `Instant::now` and the ordering of `Instant`: whether the clock has reached `d`.
#[verifier::external_body]
fn deadline_passed(d: &Instant) -> (r: bool) {
    Instant::now() >= *d
}

/// Relies on rayon's `par_iter().map(f).collect()`: `f` runs once for each item,
/// possibly on several threads, and the results come back in the items' order.
#[verifier::external_body]
fn par_map<F: Fn(usize) -> Search + Sync + Send>(v: &Vec<usize>, f: F) -> (r: Vec<Search>)
    requires
        forall|i: int| 0 <= i < v@.len() ==> f.requires((#[trigger] v@[i],)),
    ensures
        r@.len() == v@.len(),
        forall|i: int| 0 <= i < v@.len() ==> f.ensures((v@[i],), #[trigger] r@[i]),
{
    v.par_iter().map(|&ii| f(ii)).collect()
}

/// The signals shared by all branches of one search, and its settings.
pub struct Control {
    /// set once some branch has completed an assignment
    pub found: AtomicBool,
    /// set once the deadline has been seen to pass
    pub timed_out: AtomicBool,
    /// no new node is entered after this instant
    pub deadline: Option<Instant>,
    /// depths below this branch in parallel
    pub parallel_depth: usize,
}

/// What a parallel search node found.
pub enum Search {
    Found(State),
    Exhausted,
    Cancelled,
}

/// What a sequential search node found; its state is changed only on `Solved`.
#[derive(PartialEq, Eq, Structural)]
pub enum Verdict {
    Solved,
    Exhausted,
    Cancelled,
}

/// The terms `u[from..]` are pairwise distinct valid term indices.
pub open spec fn order_ok(u: Seq<usize>, n: nat) -> bool {
    &&& forall|i: int| 0 <= i < u.len() ==> (#[trigger] u[i] as int) < n
    &&& forall|i: int, j: int| 0 <= i < j < u.len() ==> #[trigger] u[i] != #[trigger] u[j]
}

/// Exactly the terms `u[from..]` are still unassigned in `a`.
pub open spec fn pending(a: Seq<Option<usize>>, u: Seq<usize>, from: int) -> bool {
    &&& forall|i: int| from <= i < u.len() ==> (#[trigger] a[u[i] as int]).is_none()
    &&& forall|t: int| 0 <= t < a.len() && (#[trigger] a[t]).is_none() ==> exists|i: int| from <= i < u.len() && u[i] == t
}

/// Every unassigned term among `u[from..]` still has an item that can take it.
pub open spec fn forward_ok(conf: Seq<Vec<bool>>, a: Seq<Option<usize>>, u: Seq<usize>, from: int, n_items: nat) -> bool {
    forall|i: int| from <= i < u.len() && (#[trigger] a[u[i] as int]).is_none() ==> has_fit(conf, a, u[i] as int, n_items)
}

/// No solution extends `a`.
pub open spec fn infeasible(conf: Seq<Vec<bool>>, a: Seq<Option<usize>>, n_items: nat) -> bool {
    forall|b: Seq<Option<usize>>| !#[trigger] is_solution_of(conf, b, a, n_items)
}

/// No solution extends `a` while giving term `t` item `k`.
pub open spec fn infeasible_with(conf: Seq<Vec<bool>>, a: Seq<Option<usize>>, t: int, k: usize, n_items: nat) -> bool {
    forall|b: Seq<Option<usize>>| #[trigger] is_solution_of(conf, b, a, n_items) ==> b[t] != Some(k)
}

/// A term that item `k` cannot take under `a` is given `k` by no solution of `a`.
pub proof fn lemma_unfit(conf: Seq<Vec<bool>>, a: Seq<Option<usize>>, t: int, k: usize, n_items: nat)
    requires
        0 <= t < a.len(),
        a[t].is_none(),
        !fits(conf, a, t, k as int),
    ensures
        infeasible_with(conf, a, t, k, n_items),
{
    assert forall|b: Seq<Option<usize>>| #[trigger] is_solution_of(conf, b, a, n_items) implies b[t] != Some(k) by {
        if b[t] == Some(k) {
            let o = choose|o: int| 0 <= o < a.len() && #[trigger] a[o] == Some(k) && cf(conf, t, o);
            assert(a[o].is_some());
            assert(b[o] == a[o]);
            assert(b[t] == b[o]);
        }
    }
}

/// A failed forward check rules out every solution.
pub proof fn lemma_forward_fail(conf: Seq<Vec<bool>>, a: Seq<Option<usize>>, u: Seq<usize>, from: int, n_items: nat)
    requires
        0 <= from,
        order_ok(u, a.len()),
        !forward_ok(conf, a, u, from, n_items),
    ensures
        infeasible(conf, a, n_items),
{
    let i = choose|i: int| from <= i < u.len() && (#[trigger] a[u[i] as int]).is_none() && !has_fit(conf, a, u[i] as int, n_items);
    assert(u[i] < a.len());
    assert forall|b: Seq<Option<usize>>| !#[trigger] is_solution_of(conf, b, a, n_items) by {
        crate::state::lemma_no_fit_blocks(conf, a, b, u[i] as int, n_items);
    }
}

/// A solution of `a` that gives `t` item `k` is a solution of `a` with `t` placed on `k`.
pub proof fn lemma_branch(conf: Seq<Vec<bool>>, a: Seq<Option<usize>>, t: int, k: usize, n_items: nat, b: Seq<Option<usize>>)
    requires
        0 <= t < a.len(),
        is_solution_of(conf, b, a, n_items),
        b[t] == Some(k),
    ensures
        is_solution_of(conf, b, a.update(t, Some(k)), n_items),
{
}

/// Solutions of a state with one more term placed are solutions of the state.
pub proof fn lemma_narrow(conf: Seq<Vec<bool>>, a: Seq<Option<usize>>, t: int, k: usize, n_items: nat, b: Seq<Option<usize>>)
    requires
        0 <= t < a.len(),
        a[t].is_none(),
        is_solution_of(conf, b, a.update(t, Some(k)), n_items),
    ensures
        is_solution_of(conf, b, a, n_items),
        b[t] == Some(k),
{
    assert(a.update(t, Some(k))[t].is_some());
    assert forall|s: int| 0 <= s < a.len() && #[trigger] a[s].is_some() implies b[s] == a[s] by {
        assert(a.update(t, Some(k))[s].is_some());
    }
}

/// Whether the search must stop now; sets `timed_out` once the deadline has passed.
/// `found` is read only where `watch` is set (below a parallel branch, where a
/// sibling may have finished), the clock and `timed_out` only where a deadline is set.
fn should_stop(ctl: &Control, watch: bool) -> (r: bool)
    ensures
        r ==> ctl.deadline.is_some() || watch,
{
    if watch && ctl.found.load(Ordering::Relaxed) {
        return true;
    }
    match &ctl.deadline {
        Some(d) => {
            if ctl.timed_out.load(Ordering::Relaxed) {
                return true;
            }
            if deadline_passed(d) {
                ctl.timed_out.store(true, Ordering::Relaxed);
                true
            } else {
                false
            }
        },
        None => false,
    }
}

/// The items that can take term `ti`, in ascending order.
pub fn valid_items(ti: usize, state: &State, conf: &Vec<Vec<bool>>, n_items: usize) -> (r: Vec<usize>)
    requires
        state.wf(conf@, n_items as nat),
        ti < state.assignments@.len(),
    ensures
        forall|i: int| 0 <= i < r@.len() ==> (#[trigger] r@[i]) < n_items && fits(conf@, state.assignments@, ti as int, r@[i] as int),
        forall|k: int| 0 <= k < n_items && fits(conf@, state.assignments@, ti as int, k) ==> r@.contains(k as usize),
        forall|i: int, j: int| 0 <= i < j < r@.len() ==> r@[i] < r@[j],
{
    let mut r: Vec<usize> = Vec::new();
    let mut ii: usize = 0;
    while ii < n_items
        invariant
            state.wf(conf@, n_items as nat),
            ti < state.assignments@.len(),
            ii <= n_items,
            forall|i: int| 0 <= i < r@.len() ==> (#[trigger] r@[i]) < ii && fits(conf@, state.assignments@, ti as int, r@[i] as int),
            forall|k: int| 0 <= k < ii && fits(conf@, state.assignments@, ti as int, k) ==> r@.contains(k as usize),
            forall|i: int, j: int| 0 <= i < j < r@.len() ==> r@[i] < r@[j],
        decreases n_items - ii,
    {
        let ghost prev = r@;
        if state.item_fits(ti, ii, conf, Ghost(n_items as nat)) {
            r.push(ii);
            proof {
                assert(r@[r@.len() - 1] == ii);
                assert forall|k: int| 0 <= k < ii && fits(conf@, state.assignments@, ti as int, k) implies r@.contains(k as usize) by {
                    let j = choose|j: int| 0 <= j < prev.len() && prev[j] == k as usize;
                    assert(r@[j] == prev[j]);
                }
            }
        }
        ii = ii + 1;
    }
    r
}

/// Whether some item can take term `ti`.
pub fn any_fit(ti: usize, state: &State, conf: &Vec<Vec<bool>>, n_items: usize) -> (r: bool)
    requires
        state.wf(conf@, n_items as nat),
        ti < state.assignments@.len(),
    ensures
        r == has_fit(conf@, state.assignments@, ti as int, n_items as nat),
{
    let mut ii: usize = 0;
    while ii < n_items
        invariant
            state.wf(conf@, n_items as nat),
            ti < state.assignments@.len(),
            ii <= n_items,
            forall|k: int| 0 <= k < ii ==> !#[trigger] fits(conf@, state.assignments@, ti as int, k),
        decreases n_items - ii,
    {
        if state.item_fits(ti, ii, conf, Ghost(n_items as nat)) {
            return true;
        }
        ii = ii + 1;
    }
    false
}

/// Whether every unassigned term among `unlocked[from..]` still has an item that can take it.
pub fn forward_check(unlocked: &Vec<usize>, from: usize, state: &State, conf: &Vec<Vec<bool>>, n_items: usize) -> (r: bool)
    requires
        state.wf(conf@, n_items as nat),
        order_ok(unlocked@, state.assignments@.len()),
    ensures
        r == forward_ok(conf@, state.assignments@, unlocked@, from as int, n_items as nat),
{
    let mut i: usize = from;
    while i < unlocked.len()
        invariant
            state.wf(conf@, n_items as nat),
            order_ok(unlocked@, state.assignments@.len()),
            from <= i,
            forall|q: int| from <= q < i && q < unlocked@.len() && (#[trigger] state.assignments@[unlocked@[q] as int]).is_none()
                ==> has_fit(conf@, state.assignments@, unlocked@[q] as int, n_items as nat),
        decreases unlocked@.len() - i,
    {
        let ti = unlocked[i];
        if state.assignments[ti].is_none() {
            if !any_fit(ti, state, conf, n_items) {
                proof {
                    assert(state.assignments@[unlocked@[i as int] as int].is_none());
                }
                return false;
            }
        }
        i = i + 1;
    }
    true
}

/// Placing `u[idx]` keeps exactly `u[idx + 1..]` unassigned.
pub proof fn lemma_pending_step(a: Seq<Option<usize>>, u: Seq<usize>, idx: int, k: usize)
    requires
        order_ok(u, a.len()),
        0 <= idx < u.len(),
        pending(a, u, idx),
    ensures
        pending(a.update(u[idx] as int, Some(k)), u, idx + 1),
{
    let t0 = u[idx] as int;
    let a2 = a.update(t0, Some(k));
    assert forall|i: int| idx + 1 <= i < u.len() implies (#[trigger] a2[u[i] as int]).is_none() by {
        assert(u[idx] != u[i]);
        assert(a[u[i] as int].is_none());
    }
    assert forall|t: int| 0 <= t < a2.len() && (#[trigger] a2[t]).is_none() implies exists|i: int| idx + 1 <= i < u.len() && u[i] == t by {
        assert(t != t0);
        assert(a[t].is_none());
        let i = choose|i: int| idx <= i < u.len() && u[i] == t;
        assert(i != idx);
    }
}

/// If every item that can take `t` leads nowhere, nothing extends `a`.
pub proof fn lemma_all_branches(conf: Seq<Vec<bool>>, a: Seq<Option<usize>>, t: int, valid: Seq<usize>, n_items: nat)
    requires
        0 <= t < a.len(),
        a[t].is_none(),
        forall|k: int| 0 <= k < n_items && fits(conf, a, t, k) ==> valid.contains(k as usize),
        forall|c: int| 0 <= c < valid.len() ==> infeasible_with(conf, a, t, #[trigger] valid[c], n_items),
    ensures
        infeasible(conf, a, n_items),
{
    assert forall|b: Seq<Option<usize>>| !#[trigger] is_solution_of(conf, b, a, n_items) by {
        if is_solution_of(conf, b, a, n_items) {
            assert(b[t].is_some());
            let k = b[t].unwrap();
            if fits(conf, a, t, k as int) {
                let c = choose|c: int| 0 <= c < valid.len() && valid[c] == k;
                assert(infeasible_with(conf, a, t, valid[c], n_items));
            } else {
                lemma_unfit(conf, a, t, k, n_items);
            }
        }
    }
}

/// Over the terms `u[from..]`, in that order, `s` equals `b` or first differs
/// from it with a lower item index: `s` comes no later than `b` in search order.
pub open spec fn lex_le(s: Seq<Option<usize>>, b: Seq<Option<usize>>, u: Seq<usize>, from: int) -> bool {
    ||| forall|i: int| from <= i < u.len() ==> #[trigger] s[u[i] as int] == b[u[i] as int]
    ||| exists|j: int|
        from <= j < u.len() && (forall|i: int| from <= i < j ==> #[trigger] s[u[i] as int] == b[u[i] as int])
            && s[u[j] as int].unwrap() < b[u[j] as int].unwrap()
}

/// Agreeing on `u[idx]` carries search order from `u[idx + 1..]` to `u[idx..]`.
pub proof fn lemma_lex_step(s: Seq<Option<usize>>, b: Seq<Option<usize>>, u: Seq<usize>, idx: int)
    requires
        0 <= idx < u.len(),
        lex_le(s, b, u, idx + 1),
        s[u[idx] as int] == b[u[idx] as int],
    ensures
        lex_le(s, b, u, idx),
{
    if exists|j: int|
        idx + 1 <= j < u.len() && (forall|i: int| idx + 1 <= i < j ==> #[trigger] s[u[i] as int] == b[u[i] as int])
            && s[u[j] as int].unwrap() < b[u[j] as int].unwrap() {
        let j = choose|j: int|
            idx + 1 <= j < u.len() && (forall|i: int| idx + 1 <= i < j ==> #[trigger] s[u[i] as int] == b[u[i] as int])
                && s[u[j] as int].unwrap() < b[u[j] as int].unwrap();
        assert forall|i: int| idx <= i < j implies #[trigger] s[u[i] as int] == b[u[i] as int] by {
            if i > idx {
            }
        }
    } else {
        assert forall|i: int| idx <= i < u.len() implies #[trigger] s[u[i] as int] == b[u[i] as int] by {
            if i > idx {
            }
        }
    }
}

/// What a parallel node promises about its result.
pub open spec fn node_post(conf: Seq<Vec<bool>>, a: Seq<Option<usize>>, n_items: nat, r: Search) -> bool {
    match r {
        Search::Found(s) => s.wf(conf, n_items) && is_solution_of(conf, s.assignments@, a, n_items),
        Search::Exhausted => infeasible(conf, a, n_items),
        Search::Cancelled => true,
    }
}

/// What trying item `k` for term `t` promises about its result.
pub open spec fn branch_post(conf: Seq<Vec<bool>>, a: Seq<Option<usize>>, t: int, k: usize, n_items: nat, r: Search) -> bool {
    match r {
        Search::Found(s) => s.wf(conf, n_items) && is_solution_of(conf, s.assignments@, a, n_items),
        Search::Exhausted => infeasible_with(conf, a, t, k, n_items),
        Search::Cancelled => true,
    }
}

/// Backtracking search over `unlocked[idx..]` on one state, undoing each trial.
pub fn seq_search(
    unlocked: &Vec<usize>,
    idx: usize,
    state: &mut State,
    conf: &Vec<Vec<bool>>,
    n_items: usize,
    ctl: &Control,
    watch: bool,
) -> (r: Verdict)
    requires
        old(state).wf(conf@, n_items as nat),
        order_ok(unlocked@, old(state).assignments@.len()),
        idx <= unlocked@.len(),
        pending(old(state).assignments@, unlocked@, idx as int),
    ensures
        final(state).wf(conf@, n_items as nat),
        r == Verdict::Solved ==> is_solution_of(conf@, final(state).assignments@, old(state).assignments@, n_items as nat),
        r != Verdict::Solved ==> final(state).same(old(state)),
        r == Verdict::Solved ==> rows_extend(*final(state), *old(state)),
        r == Verdict::Solved ==> forall|b: Seq<Option<usize>>| #[trigger] is_solution_of(conf@, b, old(state).assignments@, n_items as nat)
            ==> lex_le(final(state).assignments@, b, unlocked@, idx as int),
        r == Verdict::Exhausted ==> infeasible(conf@, old(state).assignments@, n_items as nat),
        r == Verdict::Cancelled ==> ctl.deadline.is_some() || watch,
        idx == unlocked@.len() ==> r == Verdict::Solved,
    decreases unlocked@.len() - idx,
{
    let ghost pre = *state;
    if idx >= unlocked.len() {
        proof {
            let a = state.assignments@;
            assert forall|t: int| 0 <= t < a.len() implies (#[trigger] a[t]).is_some() && a[t].unwrap() < n_items by {
                if a[t].is_none() {
                    let i = choose|i: int| idx <= i < unlocked@.len() && unlocked@[i] == t;
                }
            }
        }
        return Verdict::Solved;
    }
    if should_stop(ctl, watch) {
        return Verdict::Cancelled;
    }
    let ti = unlocked[idx];
    proof {
        assert(state.assignments@[unlocked@[idx as int] as int].is_none());
    }
    let valid = valid_items(ti, state, conf, n_items);
    let next: usize = idx + 1;
    let mut c: usize = 0;
    while c < valid.len()
        invariant
            state.wf(conf@, n_items as nat),
            state.same(&pre),
            pre == *old(state),
            pre.wf(conf@, n_items as nat),
            order_ok(unlocked@, pre.assignments@.len()),
            idx < unlocked@.len(),
            next == idx + 1,
            ti == unlocked@[idx as int],
            pending(pre.assignments@, unlocked@, idx as int),
            pre.assignments@[ti as int].is_none(),
            forall|i: int| 0 <= i < valid@.len() ==> (#[trigger] valid@[i]) < n_items && fits(conf@, pre.assignments@, ti as int, valid@[i] as int),
            forall|d: int| 0 <= d < c ==> infeasible_with(conf@, pre.assignments@, ti as int, #[trigger] valid@[d], n_items as nat),
            forall|k: int| 0 <= k < n_items && fits(conf@, pre.assignments@, ti as int, k) ==> valid@.contains(k as usize),
            forall|i: int, j: int| 0 <= i < j < valid@.len() ==> valid@[i] < valid@[j],
        decreases valid@.len() - c,
    {
        let ii = valid[c];
        proof {
            assert(valid@[c as int] == ii);
        }
        state.assign(ti, ii, Ghost(conf@), Ghost(n_items as nat));
        let ghost a2 = state.assignments@;
        proof {
            assert(a2 == pre.assignments@.update(ti as int, Some(ii)));
            lemma_pending_step(pre.assignments@, unlocked@, idx as int, ii);
        }
        let ghost mid = *state;
        proof {
            assert(rows_extend(mid, pre));
        }
        if forward_check(unlocked, next, state, conf, n_items) {
            let r = seq_search(unlocked, next, state, conf, n_items, ctl, watch);
            match r {
                Verdict::Solved => {
                    proof {
                        let b = state.assignments@;
                        assert(is_solution_of(conf@, b, a2, n_items as nat));
                        lemma_narrow(conf@, pre.assignments@, ti as int, ii, n_items as nat, b);
                        crate::state::lemma_rows_extend_trans(*state, mid, pre);
                        let f = state.assignments@;
                        assert(a2[ti as int] == Some(ii));
                        assert(f[ti as int] == Some(ii));
                        assert forall|b: Seq<Option<usize>>| #[trigger] is_solution_of(conf@, b, pre.assignments@, n_items as nat)
                            implies lex_le(f, b, unlocked@, idx as int) by {
                            assert(b[ti as int].is_some());
                            let k = b[ti as int].unwrap();
                            if k == ii {
                                lemma_branch(conf@, pre.assignments@, ti as int, ii, n_items as nat, b);
                                assert(is_solution_of(conf@, b, a2, n_items as nat));
                                lemma_lex_step(f, b, unlocked@, idx as int);
                            } else if k > ii {
                                assert(forall|i: int| idx <= i < idx ==> #[trigger] f[unlocked@[i] as int] == b[unlocked@[i] as int]);
                                assert(f[unlocked@[idx as int] as int].unwrap() < b[unlocked@[idx as int] as int].unwrap());
                            } else {
                                if fits(conf@, pre.assignments@, ti as int, k as int) {
                                    let d = choose|d: int| 0 <= d < valid@.len() && valid@[d] == k;
                                    if d >= c {
                                        if d > c {
                                            assert(valid@[c as int] < valid@[d]);
                                        }
                                    }
                                    assert(infeasible_with(conf@, pre.assignments@, ti as int, valid@[d], n_items as nat));
                                } else {
                                    lemma_unfit(conf@, pre.assignments@, ti as int, k, n_items as nat);
                                }
                            }
                        }
                    }
                    return Verdict::Solved;
                },
                Verdict::Cancelled => {
                    state.unassign(ti, ii, Ghost(conf@), Ghost(n_items as nat));
                    proof {
                        assert(state.assignments@ =~= pre.assignments@);
                        assert(state.item_terms@[ii as int]@ =~= pre.item_terms@[ii as int]@);
                    }
                    return Verdict::Cancelled;
                },
                Verdict::Exhausted => {},
            }
        } else {
            proof {
                lemma_forward_fail(conf@, a2, unlocked@, idx + 1, n_items as nat);
            }
        }
        proof {
            assert forall|b: Seq<Option<usize>>| #[trigger] is_solution_of(conf@, b, pre.assignments@, n_items as nat) implies b[ti as int] != Some(ii) by {
                if b[ti as int] == Some(ii) {
                    lemma_branch(conf@, pre.assignments@, ti as int, ii, n_items as nat, b);
                    assert(!is_solution_of(conf@, b, a2, n_items as nat));
                }
            }
        }
        state.unassign(ti, ii, Ghost(conf@), Ghost(n_items as nat));
        proof {
            assert(state.assignments@ =~= pre.assignments@);
            assert(state.item_terms@[ii as int]@ =~= pre.item_terms@[ii as int]@);
        }
        c = c + 1;
    }
    proof {
        lemma_all_branches(conf@, pre.assignments@, ti as int, valid@, n_items as nat);
    }
    Verdict::Exhausted
}

/// Tries item `ii` for term `unlocked[idx]` on a copy of `state`, then searches on.
pub fn try_candidate(
    unlocked: &Vec<usize>,
    idx: usize,
    state: &State,
    conf: &Vec<Vec<bool>>,
    n_items: usize,
    ctl: &Control,
    ii: usize,
) -> (r: Search)
    requires
        state.wf(conf@, n_items as nat),
        order_ok(unlocked@, state.assignments@.len()),
        idx < unlocked@.len(),
        pending(state.assignments@, unlocked@, idx as int),
        ii < n_items,
        fits(conf@, state.assignments@, unlocked@[idx as int] as int, ii as int),
    ensures
        branch_post(conf@, state.assignments@, unlocked@[idx as int] as int, ii, n_items as nat, r),
    decreases unlocked@.len() - idx, 0int,
{
    if ctl.found.load(Ordering::Relaxed) {
        return Search::Cancelled;
    }
    if ctl.deadline.is_some() && ctl.timed_out.load(Ordering::Relaxed) {
        return Search::Cancelled;
    }
    let ti = unlocked[idx];
    let ghost a = state.assignments@;
    proof {
        assert(a[unlocked@[idx as int] as int].is_none());
    }
    let mut s = state.copy();
    proof {
        s.lemma_same_wf(state, conf@, n_items as nat);
        assert(unlocked@.len() == unlocked.len());
    }
    s.assign(ti, ii, Ghost(conf@), Ghost(n_items as nat));
    let ghost a2 = s.assignments@;
    proof {
        lemma_pending_step(a, unlocked@, idx as int, ii);
    }
    let next: usize = idx + 1;
    if !forward_check(unlocked, next, &s, conf, n_items) {
        proof {
            lemma_forward_fail(conf@, a2, unlocked@, next as int, n_items as nat);
            assert forall|b: Seq<Option<usize>>| #[trigger] is_solution_of(conf@, b, a, n_items as nat) implies b[ti as int] != Some(ii) by {
                if b[ti as int] == Some(ii) {
                    lemma_branch(conf@, a, ti as int, ii, n_items as nat, b);
                    assert(!is_solution_of(conf@, b, a2, n_items as nat));
                }
            }
        }
        return Search::Exhausted;
    }
    let r = par_search(unlocked, next, &s, conf, n_items, ctl, true);
    match r {
        Search::Found(f) => {
            ctl.found.store(true, Ordering::Relaxed);
            proof {
                lemma_narrow(conf@, a, ti as int, ii, n_items as nat, f.assignments@);
            }
            Search::Found(f)
        },
        Search::Exhausted => {
            proof {
                assert forall|b: Seq<Option<usize>>| #[trigger] is_solution_of(conf@, b, a, n_items as nat) implies b[ti as int] != Some(ii) by {
                    if b[ti as int] == Some(ii) {
                        lemma_branch(conf@, a, ti as int, ii, n_items as nat, b);
                        assert(!is_solution_of(conf@, b, a2, n_items as nat));
                    }
                }
            }
            Search::Exhausted
        },
        Search::Cancelled => Search::Cancelled,
    }
}

/// Search over `unlocked[idx..]` from `state`: branches in parallel below
/// `ctl.parallel_depth` where more than one item fits, sequentially elsewhere.
pub fn par_search(
    unlocked: &Vec<usize>,
    idx: usize,
    state: &State,
    conf: &Vec<Vec<bool>>,
    n_items: usize,
    ctl: &Control,
    watch: bool,
) -> (r: Search)
    requires
        state.wf(conf@, n_items as nat),
        order_ok(unlocked@, state.assignments@.len()),
        idx <= unlocked@.len(),
        pending(state.assignments@, unlocked@, idx as int),
    ensures
        node_post(conf@, state.assignments@, n_items as nat, r),
        r is Cancelled ==> ctl.deadline.is_some() || watch || idx < ctl.parallel_depth,
        idx == unlocked@.len() ==> r is Found,
        idx >= ctl.parallel_depth && r is Found ==> forall|b: Seq<Option<usize>>|
            #[trigger] is_solution_of(conf@, b, state.assignments@, n_items as nat)
                ==> lex_le(r->Found_0.assignments@, b, unlocked@, idx as int),
    decreases unlocked@.len() - idx, 1int,
{
    let ghost a = state.assignments@;
    if idx >= unlocked.len() {
        let s = state.copy();
        proof {
            s.lemma_same_wf(state, conf@, n_items as nat);
            assert forall|t: int| 0 <= t < a.len() implies (#[trigger] a[t]).is_some() && a[t].unwrap() < n_items by {
                if a[t].is_none() {
                    let i = choose|i: int| idx <= i < unlocked@.len() && unlocked@[i] == t;
                }
            }
        }
        return Search::Found(s);
    }
    if should_stop(ctl, watch) {
        return Search::Cancelled;
    }
    let ti = unlocked[idx];
    proof {
        assert(a[unlocked@[idx as int] as int].is_none());
    }
    let valid = valid_items(ti, state, conf, n_items);
    if valid.len() == 0 {
        proof {
            lemma_all_branches(conf@, a, ti as int, valid@, n_items as nat);
        }
        return Search::Exhausted;
    }
    if idx < ctl.parallel_depth && valid.len() > 1 {
        let f = |k: usize| -> (r: Search)
            requires
                k < n_items && fits(conf@, state.assignments@, ti as int, k as int),
            ensures
                branch_post(conf@, state.assignments@, ti as int, k, n_items as nat, r),
        {
            try_candidate(unlocked, idx, state, conf, n_items, ctl, k)
        };
        let mut results = par_map(&valid, f);
        let ghost all = results@;
        let mut cancelled = false;
        while results.len() > 0
            invariant
                all.len() == valid@.len(),
                a == state.assignments@,
                idx < ctl.parallel_depth,
                results@.len() <= all.len(),
                results@ == all.subrange(0, results@.len() as int),
                forall|c: int| 0 <= c < all.len() ==> branch_post(conf@, a, ti as int, valid@[c], n_items as nat, #[trigger] all[c]),
                forall|c: int| results@.len() <= c < all.len() ==> (#[trigger] all[c] is Exhausted) || cancelled,
            decreases results@.len(),
        {
            let ghost c = results@.len() - 1;
            proof {
                assert(results@[c] == all[c]);
            }
            let r = results.pop().unwrap();
            proof {
                assert(r == all[c]);
                assert(branch_post(conf@, a, ti as int, valid@[c], n_items as nat, all[c]));
            }
            match r {
                Search::Found(found) => {
                    return Search::Found(found);
                },
                Search::Exhausted => {},
                Search::Cancelled => {
                    cancelled = true;
                },
            }
        }
        if cancelled {
            return Search::Cancelled;
        }
        proof {
            assert forall|c: int| 0 <= c < valid@.len() implies infeasible_with(conf@, a, ti as int, #[trigger] valid@[c], n_items as nat) by {
                assert(all[c] is Exhausted);
                assert(branch_post(conf@, a, ti as int, valid@[c], n_items as nat, all[c]));
            }
            lemma_all_branches(conf@, a, ti as int, valid@, n_items as nat);
        }
        Search::Exhausted
    } else {
        let mut s = state.copy();
        proof {
            s.lemma_same_wf(state, conf@, n_items as nat);
        }
        match seq_search(unlocked, idx, &mut s, conf, n_items, ctl, watch) {
            Verdict::Solved => Search::Found(s),
            Verdict::Exhausted => Search::Exhausted,
            Verdict::Cancelled => Search::Cancelled,
        }
    }
}

} // verus!
