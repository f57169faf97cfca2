use vstd::prelude::*;
use std::sync::atomic::AtomicBool;
use std::time::Instant;
use crate::state::{cf, total, is_solution_of, State};
use crate::search::{order_ok, pending, infeasible, par_search, seq_search, Control, Search, Verdict};
use crate::problem::{
    Term, Assignment, Outcome, overlap, is_conflict_matrix, conflict_matrix, find_item, resolves,
    lemma_resolves_exists, locked_item, lock_fails, locks_ok_upto, first_lock_failure,
    lock_failure_outcome, lock_clash, first_clash, locked_state, lock_terms, is_search_order, ranked_before, search_order,
};

verus! {

/// Depths below this branch in parallel.
pub const PARALLEL_DEPTH: usize = 3;

/// `b` gives every term an item index, honours every lock, and never puts two
/// overlapping terms on one item.
pub open spec fn is_placement(items: Seq<i32>, terms: Seq<Term>, b: Seq<int>) -> bool {
    &&& b.len() == terms.len()
    &&& forall|t: int| 0 <= t < terms.len() ==> 0 <= #[trigger] b[t] < items.len()
    &&& forall|t: int|
        0 <= t < terms.len() && (#[trigger] terms[t].locked_id).is_some()
            ==> find_item(items, terms[t].locked_id.unwrap()) == Some(b[t] as usize)
    &&& forall|t1: int, t2: int|
        0 <= t1 < terms.len() && 0 <= t2 < terms.len() && t1 != t2 && #[trigger] b[t1] == #[trigger] b[t2]
            ==> !overlap(terms, t1, t2)
}

/// Some placement exists.
pub open spec fn feasible(items: Seq<i32>, terms: Seq<Term>) -> bool {
    exists|b: Seq<int>| is_placement(items, terms, b)
}

/// `asg` writes out placement `b` with external identifiers, in term order.
pub open spec fn reports(items: Seq<i32>, terms: Seq<Term>, b: Seq<int>, asg: Seq<Assignment>) -> bool {
    &&& asg.len() == terms.len()
    &&& forall|t: int| 0 <= t < terms.len() ==> #[trigger] asg[t] == (Assignment { term_id: terms[t].id, item_id: items[b[t]] })
}

/// The external identifiers of the terms listed in `u`.
pub open spec fn ids_of(terms: Seq<Term>, u: Seq<usize>) -> Seq<usize> {
    u.map_values(|x: usize| terms[x as int].id)
}

/// Every term is locked.
pub open spec fn all_locked(terms: Seq<Term>) -> bool {
    forall|t: int| 0 <= t < terms.len() ==> (#[trigger] terms[t].locked_id).is_some()
}

/// What a solve returns for `items` and `terms`.
pub open spec fn solve_post(items: Seq<i32>, terms: Seq<Term>, r: Outcome) -> bool {
    if items.len() == 0 || terms.len() == 0 {
        match r {
            Outcome::Conflict { message, conflicts } => message@ == "Set at least one item and term"@ && conflicts@.len() == 0,
            _ => false,
        }
    } else if exists|t: int| first_lock_failure(items, terms, t) {
        lock_failure_outcome(items, terms, choose|t: int| first_lock_failure(items, terms, t), r)
    } else {
        &&& match r {
            Outcome::Assigned { assignments } => exists|b: Seq<int>| is_placement(items, terms, b) && reports(items, terms, b, assignments@),
            Outcome::Conflict { message, conflicts } => {
                &&& !feasible(items, terms)
                &&& message@ == "Conflict in terms"@
                &&& exists|u: Seq<usize>| is_search_order(terms, u) && conflicts@ == ids_of(terms, u)
            },
            Outcome::Timeout { message } => message@ == "Scheduler timeout exceeded"@,
            Outcome::InvalidItem { .. } => false,
        }
        &&& all_locked(terms) ==> r is Assigned
    }
}

/// Locking stops at one term only.
proof fn lemma_first_failure_unique(items: Seq<i32>, terms: Seq<Term>, t1: int, t2: int)
    requires
        first_lock_failure(items, terms, t1),
        first_lock_failure(items, terms, t2),
    ensures
        t1 == t2,
{
    if t1 < t2 {
        assert(!lock_fails(items, terms, t1));
    } else if t2 < t1 {
        assert(!lock_fails(items, terms, t2));
    }
}

/// A complete search result, read off as item indices, is a placement.
proof fn lemma_solution_places(items: Seq<i32>, terms: Seq<Term>, conf: Seq<Vec<bool>>, sa: Seq<Option<usize>>)
    requires
        is_conflict_matrix(conf, terms),
        locks_ok_upto(items, terms, terms.len() as int),
        is_solution_of(conf, sa, locked_state(items, terms, terms.len() as int), items.len()),
    ensures
        is_placement(items, terms, Seq::new(terms.len(), |t: int| sa[t].unwrap() as int)),
{
    let n = terms.len() as int;
    let a0 = locked_state(items, terms, n);
    let b = Seq::new(terms.len(), |t: int| sa[t].unwrap() as int);
    assert forall|t: int| 0 <= t < n implies 0 <= #[trigger] b[t] < items.len() by {
        assert(sa[t].is_some());
    }
    assert forall|t: int| 0 <= t < n && (#[trigger] terms[t].locked_id).is_some()
        implies find_item(items, terms[t].locked_id.unwrap()) == Some(b[t] as usize) by {
        assert(!lock_fails(items, terms, t));
        assert(a0[t] == locked_item(items, terms, t));
        assert(a0[t].is_some());
        assert(sa[t] == a0[t]);
    }
    assert forall|t1: int, t2: int| 0 <= t1 < n && 0 <= t2 < n && t1 != t2 && #[trigger] b[t1] == #[trigger] b[t2]
        implies !overlap(terms, t1, t2) by {
        assert(sa[t1].is_some() && sa[t2].is_some());
        assert(sa[t1] == sa[t2]);
        assert(!cf(conf, t1, t2));
    }
}

/// A placement, read as an assignment, is a complete search result.
proof fn lemma_placement_solves(items: Seq<i32>, terms: Seq<Term>, conf: Seq<Vec<bool>>, b: Seq<int>)
    requires
        is_conflict_matrix(conf, terms),
        items.len() <= usize::MAX,
        is_placement(items, terms, b),
    ensures
        is_solution_of(conf, Seq::new(terms.len(), |t: int| Some(b[t] as usize)), locked_state(items, terms, terms.len() as int), items.len()),
{
    let n = terms.len() as int;
    let a0 = locked_state(items, terms, n);
    let bb = Seq::new(terms.len(), |t: int| Some(b[t] as usize));
    assert forall|t: int| 0 <= t < a0.len() && #[trigger] a0[t].is_some() implies bb[t] == a0[t] by {
        assert(a0[t] == locked_item(items, terms, t));
        assert(terms[t].locked_id.is_some());
    }
    assert forall|t: int| 0 <= t < bb.len() implies (#[trigger] bb[t]).is_some() && bb[t].unwrap() < items.len() by {
        assert(0 <= b[t] < items.len());
    }
    assert forall|t1: int, t2: int|
        #![trigger bb[t1], bb[t2]]
        0 <= t1 < bb.len() && 0 <= t2 < bb.len() && t1 != t2 && bb[t1].is_some() && bb[t1] == bb[t2]
            implies !cf(conf, t1, t2) by {
        assert(0 <= b[t1] < items.len() && 0 <= b[t2] < items.len());
        assert(b[t1] == b[t2]);
    }
    assert(total(bb, items.len()));
}

/// A placement is a complete search result, so none exists when the search is exhausted.
proof fn lemma_infeasible(items: Seq<i32>, terms: Seq<Term>, conf: Seq<Vec<bool>>)
    requires
        is_conflict_matrix(conf, terms),
        locks_ok_upto(items, terms, terms.len() as int),
        items.len() <= usize::MAX,
        infeasible(conf, locked_state(items, terms, terms.len() as int), items.len()),
    ensures
        !feasible(items, terms),
{
    if feasible(items, terms) {
        let b = choose|b: Seq<int>| is_placement(items, terms, b);
        lemma_placement_solves(items, terms, conf, b);
        let bb = Seq::new(terms.len(), |t: int| Some(b[t] as usize));
        assert(is_solution_of(conf, bb, locked_state(items, terms, terms.len() as int), items.len()));
    }
}

/// Over the terms `u`, in that order, placement `b1` equals `b2` or first
/// differs from it with a lower item index.
pub open spec fn placed_no_later(b1: Seq<int>, b2: Seq<int>, u: Seq<usize>) -> bool {
    ||| forall|i: int| 0 <= i < u.len() ==> #[trigger] b1[u[i] as int] == b2[u[i] as int]
    ||| exists|j: int|
        0 <= j < u.len() && (forall|i: int| 0 <= i < j ==> #[trigger] b1[u[i] as int] == b2[u[i] as int])
            && b1[u[j] as int] < b2[u[j] as int]
}

/// `asg` reports the placement that comes first in search order: items tried
/// in ascending index for the terms in order `u`.
pub open spec fn first_in_search_order(items: Seq<i32>, terms: Seq<Term>, asg: Seq<Assignment>) -> bool {
    exists|b: Seq<int>, u: Seq<usize>| {
        &&& is_placement(items, terms, b)
        &&& reports(items, terms, b, asg)
        &&& is_search_order(terms, u)
        &&& forall|b2: Seq<int>| #[trigger] is_placement(items, terms, b2) ==> placed_no_later(b, b2, u)
    }
}

/// A search result that comes no later than every other one gives the first placement.
proof fn lemma_first_placement(items: Seq<i32>, terms: Seq<Term>, conf: Seq<Vec<bool>>, sa: Seq<Option<usize>>, u: Seq<usize>)
    requires
        is_conflict_matrix(conf, terms),
        items.len() <= usize::MAX,
        total(sa, items.len()),
        sa.len() == terms.len(),
        forall|i: int| 0 <= i < u.len() ==> (#[trigger] u[i] as int) < terms.len(),
        forall|bs: Seq<Option<usize>>| #[trigger] is_solution_of(conf, bs, locked_state(items, terms, terms.len() as int), items.len())
            ==> crate::search::lex_le(sa, bs, u, 0),
    ensures
        forall|b2: Seq<int>| #[trigger] is_placement(items, terms, b2)
            ==> placed_no_later(Seq::new(terms.len(), |t: int| sa[t].unwrap() as int), b2, u),
{
    let b = Seq::new(terms.len(), |t: int| sa[t].unwrap() as int);
    assert forall|b2: Seq<int>| #[trigger] is_placement(items, terms, b2) implies placed_no_later(b, b2, u) by {
        lemma_placement_solves(items, terms, conf, b2);
        let bb = Seq::new(terms.len(), |t: int| Some(b2[t] as usize));
        assert(crate::search::lex_le(sa, bb, u, 0));
        assert forall|i: int| 0 <= i < u.len() && #[trigger] sa[u[i] as int] == bb[u[i] as int] implies b[u[i] as int] == b2[u[i] as int] by {
            assert(0 <= b2[u[i] as int] < items.len());
        }
        if exists|j: int|
            0 <= j < u.len() && (forall|i: int| 0 <= i < j ==> #[trigger] sa[u[i] as int] == bb[u[i] as int])
                && sa[u[j] as int].unwrap() < bb[u[j] as int].unwrap() {
            let j = choose|j: int|
                0 <= j < u.len() && (forall|i: int| 0 <= i < j ==> #[trigger] sa[u[i] as int] == bb[u[i] as int])
                    && sa[u[j] as int].unwrap() < bb[u[j] as int].unwrap();
            assert(0 <= b2[u[j] as int] < items.len());
            assert(sa[u[j] as int].is_some());
            assert(forall|i: int| 0 <= i < j ==> #[trigger] b[u[i] as int] == b2[u[i] as int] || !(sa[u[i] as int] == bb[u[i] as int]));
        } else {
            assert(forall|i: int| 0 <= i < u.len() ==> #[trigger] sa[u[i] as int] == bb[u[i] as int]);
        }
    }
}

/// The assignments of a complete state, with external identifiers, in term order.
pub fn build_ok(state: &State, terms: &Vec<Term>, items: &Vec<i32>) -> (r: Vec<Assignment>)
    requires
        state.assignments@.len() == terms@.len(),
        total(state.assignments@, items@.len()),
    ensures
        r@.len() == terms@.len(),
        forall|t: int| 0 <= t < terms@.len() ==> #[trigger] r@[t]
            == (Assignment { term_id: terms@[t].id, item_id: items@[state.assignments@[t].unwrap() as int] }),
{
    let mut r: Vec<Assignment> = Vec::new();
    let mut t: usize = 0;
    while t < terms.len()
        invariant
            state.assignments@.len() == terms@.len(),
            total(state.assignments@, items@.len()),
            t <= terms@.len(),
            r@.len() == t,
            forall|s: int| 0 <= s < t ==> #[trigger] r@[s]
                == (Assignment { term_id: terms@[s].id, item_id: items@[state.assignments@[s].unwrap() as int] }),
        decreases terms@.len() - t,
    {
        proof {
            assert(state.assignments@[t as int].is_some());
        }
        let ii = state.assignments[t].unwrap();
        r.push(Assignment { term_id: terms[t].id, item_id: items[ii] });
        t = t + 1;
    }
    r
}

/// The external identifiers of the terms listed in `u`.
fn term_ids(terms: &Vec<Term>, u: &Vec<usize>) -> (r: Vec<usize>)
    requires
        forall|i: int| 0 <= i < u@.len() ==> (#[trigger] u@[i] as int) < terms@.len(),
    ensures
        r@ == ids_of(terms@, u@),
{
    let mut r: Vec<usize> = Vec::new();
    let mut i: usize = 0;
    while i < u.len()
        invariant
            forall|q: int| 0 <= q < u@.len() ==> (#[trigger] u@[q] as int) < terms@.len(),
            i <= u@.len(),
            r@ == ids_of(terms@, u@.subrange(0, i as int)),
        decreases u@.len() - i,
    {
        proof {
            assert(u@.subrange(0, i + 1) == u@.subrange(0, i as int).push(u@[i as int]));
        }
        r.push(terms[u[i]].id);
        i = i + 1;
    }
    proof {
        assert(u@.subrange(0, u@.len() as int) == u@);
    }
    r
}

/// Solves one instance, branching in parallel below depth `parallel_depth`.
pub fn solve_with_depth(items: &Vec<i32>, terms: &Vec<Term>, deadline: Option<Instant>, parallel_depth: usize) -> (r: Outcome)
    ensures
        solve_post(items@, terms@, r),
        deadline.is_none() ==> !(r is Timeout),
        parallel_depth == 0 && r is Assigned ==> first_in_search_order(items@, terms@, r->Assigned_assignments@),
{
    if items.len() == 0 || terms.len() == 0 {
        return Outcome::Conflict { message: String::from_str("Set at least one item and term"), conflicts: Vec::new() };
    }
    let n_items = items.len();
    let conf = conflict_matrix(terms);
    let mut state = State::new(terms.len(), n_items, Ghost(conf@));
    proof {
        assert(state.assignments@ =~= locked_state(items@, terms@, 0));
    }
    if let Some(out) = lock_terms(items, terms, &conf, &mut state) {
        proof {
            let t = choose|t: int| first_lock_failure(items@, terms@, t) && lock_failure_outcome(items@, terms@, t, out);
            let c = choose|t: int| first_lock_failure(items@, terms@, t);
            lemma_first_failure_unique(items@, terms@, t, c);
        }
        return out;
    }
    proof {
        assert forall|t: int| !first_lock_failure(items@, terms@, t) by {
            if 0 <= t < terms@.len() {
                assert(!lock_fails(items@, terms@, t));
            }
        }
    }
    let unlocked = search_order(terms, &conf);
    let ghost n = terms@.len() as int;
    let ghost a0 = state.assignments@;
    proof {
        let u = unlocked@;
        assert forall|i: int, j: int| 0 <= i < j < u.len() implies #[trigger] u[i] != #[trigger] u[j] by {
            assert(ranked_before(terms@, u[i] as int, u[j] as int));
        }
        assert(order_ok(u, n as nat));
        assert forall|i: int| 0 <= i < u.len() implies (#[trigger] a0[u[i] as int]).is_none() by {
            assert(a0[u[i] as int] == locked_item(items@, terms@, u[i] as int));
        }
        assert forall|t: int| 0 <= t < a0.len() && (#[trigger] a0[t]).is_none() implies exists|i: int| 0 <= i < u.len() && u[i] == t by {
            assert(a0[t] == locked_item(items@, terms@, t));
            if terms@[t].locked_id.is_some() {
                assert(!lock_fails(items@, terms@, t));
            }
            assert(u.contains(t as usize));
        }
        assert(pending(a0, u, 0));
    }
    if unlocked.len() == 0 {
        proof {
            assert forall|t: int| 0 <= t < n implies (#[trigger] a0[t]).is_some() && a0[t].unwrap() < n_items by {
                if a0[t].is_none() {
                    let i = choose|i: int| 0 <= i < unlocked@.len() && unlocked@[i] == t;
                }
            }
            lemma_solution_places(items@, terms@, conf@, a0);
        }
        let assignments = build_ok(&state, terms, items);
        proof {
            let b = Seq::new(terms@.len(), |t: int| a0[t].unwrap() as int);
            assert(reports(items@, terms@, b, assignments@));
            let u = unlocked@;
            assert forall|b2: Seq<int>| #[trigger] is_placement(items@, terms@, b2) implies placed_no_later(b, b2, u) by {
                assert(forall|i: int| 0 <= i < u.len() ==> #[trigger] b[u[i] as int] == b2[u[i] as int]);
            }
            assert(first_in_search_order(items@, terms@, assignments@));
        }
        return Outcome::Assigned { assignments };
    }
    proof {
        if all_locked(terms@) {
            assert(terms@[unlocked@[0] as int].locked_id.is_some());
        }
    }
    let ctl = Control {
        found: AtomicBool::new(false),
        timed_out: AtomicBool::new(false),
        deadline,
        parallel_depth,
    };
    let mut result = par_search(&unlocked, 0, &state, &conf, n_items, &ctl, false);
    if matches!(result, Search::Cancelled) && ctl.deadline.is_none() {
        // Without a deadline a cancel comes from `found`, which is set only on a
        // branch whose result reaches the root as `Found`; should the root still
        // see a cancel, one sequential pass, which reads no signal, decides.
        let mut s = state.copy();
        proof {
            s.lemma_same_wf(&state, conf@, n_items as nat);
            assert(s.assignments@ =~= a0);
        }
        result = match seq_search(&unlocked, 0, &mut s, &conf, n_items, &ctl, false) {
            Verdict::Solved => Search::Found(s),
            Verdict::Exhausted => Search::Exhausted,
            Verdict::Cancelled => Search::Cancelled,
        };
    }
    proof {
        assert(crate::search::node_post(conf@, a0, n_items as nat, result));
        assert(parallel_depth == 0 && result is Found ==> forall|b: Seq<Option<usize>>|
            #[trigger] is_solution_of(conf@, b, a0, n_items as nat) ==> crate::search::lex_le(result->Found_0.assignments@, b, unlocked@, 0));
    }
    match result {
        Search::Found(s) => {
            proof {
                lemma_solution_places(items@, terms@, conf@, s.assignments@);
            }
            let assignments = build_ok(&s, terms, items);
            proof {
                let b = Seq::new(terms@.len(), |t: int| s.assignments@[t].unwrap() as int);
                assert(reports(items@, terms@, b, assignments@));
                if parallel_depth == 0 {
                    lemma_first_placement(items@, terms@, conf@, s.assignments@, unlocked@);
                    assert(first_in_search_order(items@, terms@, assignments@));
                }
            }
            Outcome::Assigned { assignments }
        },
        Search::Exhausted => {
            proof {
                lemma_infeasible(items@, terms@, conf@);
            }
            let conflicts = term_ids(terms, &unlocked);
            Outcome::Conflict { message: String::from_str("Conflict in terms"), conflicts }
        },
        Search::Cancelled => Outcome::Timeout { message: String::from_str("Scheduler timeout exceeded") },
    }
}

/// Solves one instance with the default parallel depth.
pub fn solve(items: &Vec<i32>, terms: &Vec<Term>, deadline: Option<Instant>) -> (r: Outcome)
    ensures
        solve_post(items@, terms@, r),
        deadline.is_none() ==> !(r is Timeout),
{
    solve_with_depth(items, terms, deadline, PARALLEL_DEPTH)
}

/// No identifier occurs twice in `items`.
pub open spec fn distinct_ids(items: Seq<i32>) -> bool {
    forall|i: int, j: int| 0 <= i < j < items.len() ==> items[i] != items[j]
}

/// `terms` with each term locked to the item that `asg` gives it.
pub open spec fn relocked(terms: Seq<Term>, asg: Seq<Assignment>) -> Seq<Term> {
    Seq::new(terms.len(), |t: int| Term { locked_id: Some(asg[t].item_id), ..terms[t] })
}

proof fn lemma_distinct_resolves(items: Seq<i32>, k: int)
    requires
        distinct_ids(items),
        0 <= k < items.len(),
    ensures
        resolves(items, items[k], k),
        find_item(items, items[k]) == Some(k as usize),
{
    assert(items.contains(items[k]));
    assert(resolves(items, items[k], k));
    let c = choose|c: int| resolves(items, items[k], c);
    crate::problem::lemma_resolves_unique(items, items[k], c, k);
}

/// A successful solve lists every term once, in term order, each on an item of
/// the list, and gives no two overlapping terms the same item.
pub proof fn lemma_success_is_feasible(items: Seq<i32>, terms: Seq<Term>, r: Outcome)
    requires
        distinct_ids(items),
        solve_post(items, terms, r),
        r is Assigned,
    ensures
        r->Assigned_assignments@.len() == terms.len(),
        forall|t: int| 0 <= t < terms.len() ==> (#[trigger] r->Assigned_assignments@[t]).term_id == terms[t].id
            && items.contains(r->Assigned_assignments@[t].item_id),
        forall|t1: int, t2: int|
            0 <= t1 < terms.len() && 0 <= t2 < terms.len() && t1 != t2
                && (#[trigger] r->Assigned_assignments@[t1]).item_id == (#[trigger] r->Assigned_assignments@[t2]).item_id
                ==> !overlap(terms, t1, t2),
{
    let asg = r->Assigned_assignments@;
    if items.len() == 0 || terms.len() == 0 {
    } else if exists|t: int| first_lock_failure(items, terms, t) {
        let t = choose|t: int| first_lock_failure(items, terms, t);
        assert(lock_failure_outcome(items, terms, t, r));
    } else {
        let b = choose|b: Seq<int>| is_placement(items, terms, b) && reports(items, terms, b, asg);
        assert forall|t: int| 0 <= t < terms.len() implies (#[trigger] asg[t]).term_id == terms[t].id
            && items.contains(asg[t].item_id) by {
            assert(0 <= b[t] < items.len());
        }
        assert forall|t1: int, t2: int|
            0 <= t1 < terms.len() && 0 <= t2 < terms.len() && t1 != t2
                && (#[trigger] asg[t1]).item_id == (#[trigger] asg[t2]).item_id
                implies !overlap(terms, t1, t2) by {
            assert(0 <= b[t1] < items.len() && 0 <= b[t2] < items.len());
            if b[t1] < b[t2] {
                assert(items[b[t1]] != items[b[t2]]);
            } else if b[t2] < b[t1] {
                assert(items[b[t2]] != items[b[t1]]);
            }
        }
    }
}

/// Locking every term to the item a successful solve gave it, and solving
/// again, returns the same assignments.
pub proof fn lemma_round_trip(items: Seq<i32>, terms: Seq<Term>, r: Outcome, r2: Outcome)
    requires
        distinct_ids(items),
        items.len() <= usize::MAX,
        solve_post(items, terms, r),
        r is Assigned,
        solve_post(items, relocked(terms, r->Assigned_assignments@), r2),
    ensures
        r2 is Assigned,
        r2->Assigned_assignments@ == r->Assigned_assignments@,
{
    let asg = r->Assigned_assignments@;
    let terms2 = relocked(terms, asg);
    let n = terms.len() as int;
    if items.len() == 0 || terms.len() == 0 {
    } else if exists|t: int| first_lock_failure(items, terms, t) {
        let t = choose|t: int| first_lock_failure(items, terms, t);
        assert(lock_failure_outcome(items, terms, t, r));
    } else {
        let b = choose|b: Seq<int>| is_placement(items, terms, b) && reports(items, terms, b, asg);
        assert forall|t: int| 0 <= t < n implies find_item(items, #[trigger] terms2[t].locked_id.unwrap()) == Some(b[t] as usize) by {
            assert(0 <= b[t] < items.len());
            assert(asg[t] == Assignment { term_id: terms[t].id, item_id: items[b[t]] });
            lemma_distinct_resolves(items, b[t]);
        }
        assert forall|t: int| 0 <= t < n implies !#[trigger] lock_fails(items, terms2, t) by {
            assert(find_item(items, terms2[t].locked_id.unwrap()) == Some(b[t] as usize));
            if exists|o: int| lock_clash(terms2, t, o) {
                let o = choose|o: int| lock_clash(terms2, t, o);
                assert(find_item(items, terms2[o].locked_id.unwrap()) == Some(b[o] as usize));
                assert(0 <= b[t] < items.len() && 0 <= b[o] < items.len());
                assert(b[t] == b[o]);
                assert(overlap(terms, t, o));
            }
        }
        assert forall|t: int| !first_lock_failure(items, terms2, t) by {
            if 0 <= t < n {
                assert(!lock_fails(items, terms2, t));
            }
        }
        assert(all_locked(terms2));
        let asg2 = r2->Assigned_assignments@;
        let b2 = choose|b2: Seq<int>| is_placement(items, terms2, b2) && reports(items, terms2, b2, asg2);
        assert forall|t: int| 0 <= t < n implies asg2[t] == asg[t] by {
            assert(terms2[t].locked_id.is_some());
            assert(find_item(items, terms2[t].locked_id.unwrap()) == Some(b2[t] as usize));
            assert(find_item(items, terms2[t].locked_id.unwrap()) == Some(b[t] as usize));
            assert(0 <= b[t] < items.len() && 0 <= b2[t] < items.len());
            assert(b[t] == b2[t]);
            assert(asg[t] == Assignment { term_id: terms[t].id, item_id: items[b[t]] });
            assert(asg2[t] == Assignment { term_id: terms2[t].id, item_id: items[b2[t]] });
        }
        assert(asg2 =~= asg);
    }
}

/// Two outcomes agree: same variant, same text, same identifiers.
pub open spec fn same_outcome(r1: Outcome, r2: Outcome) -> bool {
    match (r1, r2) {
        (Outcome::Assigned { assignments: a1 }, Outcome::Assigned { assignments: a2 }) => a1@ == a2@,
        (
            Outcome::InvalidItem { message: m1, term_id: t1, item_id: i1 },
            Outcome::InvalidItem { message: m2, term_id: t2, item_id: i2 },
        ) => m1@ == m2@ && t1 == t2 && i1 == i2,
        (Outcome::Conflict { message: m1, conflicts: c1 }, Outcome::Conflict { message: m2, conflicts: c2 }) => m1@ == m2@ && c1@ == c2@,
        (Outcome::Timeout { message: m1 }, Outcome::Timeout { message: m2 }) => m1@ == m2@,
        _ => false,
    }
}

proof fn lemma_mutual_first(b1: Seq<int>, b2: Seq<int>, u: Seq<usize>)
    requires
        placed_no_later(b1, b2, u),
        placed_no_later(b2, b1, u),
    ensures
        forall|i: int| 0 <= i < u.len() ==> #[trigger] b1[u[i] as int] == b2[u[i] as int],
{
    if !(forall|i: int| 0 <= i < u.len() ==> #[trigger] b1[u[i] as int] == b2[u[i] as int]) {
        let j = choose|j: int|
            0 <= j < u.len() && (forall|i: int| 0 <= i < j ==> #[trigger] b1[u[i] as int] == b2[u[i] as int])
                && b1[u[j] as int] < b2[u[j] as int];
        if forall|i: int| 0 <= i < u.len() ==> #[trigger] b2[u[i] as int] == b1[u[i] as int] {
            assert(b2[u[j] as int] == b1[u[j] as int]);
        } else {
            let k = choose|k: int|
                0 <= k < u.len() && (forall|i: int| 0 <= i < k ==> #[trigger] b2[u[i] as int] == b1[u[i] as int])
                    && b2[u[k] as int] < b1[u[k] as int];
            if j < k {
                assert(b2[u[j] as int] == b1[u[j] as int]);
            } else if k < j {
                assert(b1[u[k] as int] == b2[u[k] as int]);
            }
        }
    }
}

/// Two reports of the first placement in search order are the same.
proof fn lemma_first_placements_agree(items: Seq<i32>, terms: Seq<Term>, asg1: Seq<Assignment>, asg2: Seq<Assignment>)
    requires
        items.len() <= usize::MAX,
        terms.len() <= usize::MAX,
        first_in_search_order(items, terms, asg1),
        first_in_search_order(items, terms, asg2),
    ensures
        asg1 == asg2,
{
    let (b1, u1) = choose|b: Seq<int>, u: Seq<usize>| {
        &&& is_placement(items, terms, b)
        &&& reports(items, terms, b, asg1)
        &&& is_search_order(terms, u)
        &&& forall|b2: Seq<int>| #[trigger] is_placement(items, terms, b2) ==> placed_no_later(b, b2, u)
    };
    let (b2, u2) = choose|b: Seq<int>, u: Seq<usize>| {
        &&& is_placement(items, terms, b)
        &&& reports(items, terms, b, asg2)
        &&& is_search_order(terms, u)
        &&& forall|b3: Seq<int>| #[trigger] is_placement(items, terms, b3) ==> placed_no_later(b, b3, u)
    };
    crate::problem::lemma_search_order_unique(terms, u1, u2);
    assert(placed_no_later(b1, b2, u1));
    assert(placed_no_later(b2, b1, u1));
    lemma_mutual_first(b1, b2, u1);
    let a1 = asg1;
    let a2 = asg2;
    assert forall|t: int| 0 <= t < terms.len() implies a1[t] == a2[t] by {
        assert(0 <= b1[t] < items.len() && 0 <= b2[t] < items.len());
        if terms[t].locked_id.is_some() {
            assert(find_item(items, terms[t].locked_id.unwrap()) == Some(b1[t] as usize));
            assert(find_item(items, terms[t].locked_id.unwrap()) == Some(b2[t] as usize));
        } else {
            assert(u1.contains(t as usize));
            let i = choose|i: int| 0 <= i < u1.len() && u1[i] == t as usize;
            assert(b1[u1[i] as int] == b2[u1[i] as int]);
            assert(u1[i] as int == t);
        }
        assert(b1[t] == b2[t]);
        assert(a1[t] == (Assignment { term_id: terms[t].id, item_id: items[b1[t]] }));
        assert(a2[t] == (Assignment { term_id: terms[t].id, item_id: items[b2[t]] }));
    }
    assert(a1 =~= a2);
}

/// A solve with no deadline and no parallel branching depends on its input
/// alone: two such runs on the same input give the same outcome.
pub proof fn lemma_sequential_deterministic(items: Seq<i32>, terms: Seq<Term>, r1: Outcome, r2: Outcome)
    requires
        items.len() <= usize::MAX,
        terms.len() <= usize::MAX,
        solve_post(items, terms, r1),
        solve_post(items, terms, r2),
        !(r1 is Timeout),
        !(r2 is Timeout),
        r1 is Assigned ==> first_in_search_order(items, terms, r1->Assigned_assignments@),
        r2 is Assigned ==> first_in_search_order(items, terms, r2->Assigned_assignments@),
    ensures
        same_outcome(r1, r2),
{
    if items.len() == 0 || terms.len() == 0 {
        assert(r1->Conflict_conflicts@ =~= r2->Conflict_conflicts@);
    } else if exists|t: int| first_lock_failure(items, terms, t) {
        let t = choose|t: int| first_lock_failure(items, terms, t);
        let v = terms[t].locked_id.unwrap();
        if items.contains(v) {
            let o1 = choose|o: int| first_clash(terms, t, o) && r1->Conflict_conflicts@ == seq![terms[o].id, terms[t].id];
            let o2 = choose|o: int| first_clash(terms, t, o) && r2->Conflict_conflicts@ == seq![terms[o].id, terms[t].id];
            if o1 < o2 {
                assert(!lock_clash(terms, t, o1));
            } else if o2 < o1 {
                assert(!lock_clash(terms, t, o2));
            }
        }
    } else {
        if r1 is Assigned && r2 is Assigned {
            lemma_first_placements_agree(items, terms, r1->Assigned_assignments@, r2->Assigned_assignments@);
        } else if r1 is Conflict && r2 is Conflict {
            let u1 = choose|u: Seq<usize>| is_search_order(terms, u) && r1->Conflict_conflicts@ == ids_of(terms, u);
            let u2 = choose|u: Seq<usize>| is_search_order(terms, u) && r2->Conflict_conflicts@ == ids_of(terms, u);
            crate::problem::lemma_search_order_unique(terms, u1, u2);
        } else if r1 is Assigned {
            let b = choose|b: Seq<int>| is_placement(items, terms, b) && reports(items, terms, b, r1->Assigned_assignments@);
            assert(feasible(items, terms));
        } else if r2 is Assigned {
            let b = choose|b: Seq<int>| is_placement(items, terms, b) && reports(items, terms, b, r2->Assigned_assignments@);
            assert(feasible(items, terms));
        }
    }
}

} // verus!
