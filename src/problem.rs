use vstd::prelude::*;
use crate::state::{cf, square, State};

verus! {

/// A demand over the closed interval `[from, to]`, optionally pinned to an item.
///
/// Bounds are taken as given, also where `from > to`: the overlap test
/// (`from_i <= to_j && from_j <= to_i`) is applied to them unchanged.
#[derive(Clone, Copy, Debug, PartialEq, Eq, Structural)]
pub struct Term {
    pub id: usize,
    pub from: i64,
    pub to: i64,
    pub locked_id: Option<i32>,
}

/// One term placed on one item, by external identifiers.
#[derive(Clone, Copy, Debug, PartialEq, Eq, Structural)]
pub struct Assignment {
    pub term_id: usize,
    pub item_id: i32,
}

/// The result of one solve.
#[derive(Clone, Debug, PartialEq, Eq)]
pub enum Outcome {
    /// One assignment per term, in term order.
    Assigned { assignments: Vec<Assignment> },
    /// A locked term names an item that is not in the list.
    InvalidItem { message: String, term_id: usize, item_id: i32 },
    /// The listed terms cannot all be placed.
    Conflict { message: String, conflicts: Vec<usize> },
    /// The deadline passed before the search finished.
    Timeout { message: String },
}

/// Terms `i` and `j` overlap inclusively.
pub open spec fn overlap(terms: Seq<Term>, i: int, j: int) -> bool {
    terms[i].from <= terms[j].to && terms[j].from <= terms[i].to
}

/// The conflict matrix of `terms`: entry `(i, j)` is set iff `i ≠ j` and the two overlap.
pub open spec fn is_conflict_matrix(conf: Seq<Vec<bool>>, terms: Seq<Term>) -> bool {
    &&& square(conf, terms.len())
    &&& forall|i: int, j: int| 0 <= i < terms.len() && 0 <= j < terms.len() ==> #[trigger] cf(conf, i, j) == (i != j && overlap(terms, i, j))
}

/// Builds the conflict matrix of `terms`.
pub fn conflict_matrix(terms: &Vec<Term>) -> (m: Vec<Vec<bool>>)
    ensures
        is_conflict_matrix(m@, terms@),
{
    let n = terms.len();
    let mut m: Vec<Vec<bool>> = Vec::new();
    let mut i: usize = 0;
    while i < n
        invariant
            n == terms@.len(),
            i <= n,
            m@.len() == i,
            forall|a: int| 0 <= a < i ==> (#[trigger] m@[a])@.len() == n,
            forall|a: int, b: int| 0 <= a < i && 0 <= b < n ==> #[trigger] m@[a]@[b] == (a != b && overlap(terms@, a, b)),
        decreases n - i,
    {
        let mut row: Vec<bool> = Vec::new();
        let mut j: usize = 0;
        while j < n
            invariant
                n == terms@.len(),
                i < n,
                j <= n,
                row@.len() == j,
                forall|b: int| 0 <= b < j ==> #[trigger] row@[b] == (i != b && overlap(terms@, i as int, b)),
            decreases n - j,
        {
            row.push(i != j && terms[i].from <= terms[j].to && terms[j].from <= terms[i].to);
            j = j + 1;
        }
        m.push(row);
        proof {
            assert forall|a: int, b: int| 0 <= a < i + 1 && 0 <= b < n implies #[trigger] m@[a]@[b] == (a != b && overlap(terms@, a, b)) by {
                if a < i {
                } else {
                    assert(m@[a]@ == row@);
                }
            }
        }
        i = i + 1;
    }
    m
}

/// The character of decimal digit `d`.
pub open spec fn digit_char(d: nat) -> char {
    if d == 0 { '0' } else if d == 1 { '1' } else if d == 2 { '2' } else if d == 3 { '3' } else if d == 4 { '4' }
    else if d == 5 { '5' } else if d == 6 { '6' } else if d == 7 { '7' } else if d == 8 { '8' } else { '9' }
}

/// The decimal digits of `n`, most significant first, with no leading zeros.
pub open spec fn digits(n: nat) -> Seq<char>
    decreases n,
{
    if n < 10 {
        seq![digit_char(n)]
    } else {
        digits(n / 10) + seq![digit_char(n % 10)]
    }
}

/// The decimal text of `v`, with a leading `-` when negative.
pub open spec fn decimal(v: int) -> Seq<char> {
    if v < 0 { seq!['-'] + digits((-v) as nat) } else { digits(v as nat) }
}

fn digit_str(d: u64) -> (r: &'static str)
    requires
        d < 10,
    ensures
        r@ == seq![digit_char(d as nat)],
{
    proof {
        reveal_strlit("0");
        reveal_strlit("1");
        reveal_strlit("2");
        reveal_strlit("3");
        reveal_strlit("4");
        reveal_strlit("5");
        reveal_strlit("6");
        reveal_strlit("7");
        reveal_strlit("8");
        reveal_strlit("9");
    }
    if d == 0 { "0" } else if d == 1 { "1" } else if d == 2 { "2" } else if d == 3 { "3" } else if d == 4 { "4" }
    else if d == 5 { "5" } else if d == 6 { "6" } else if d == 7 { "7" } else if d == 8 { "8" } else { "9" }
}

fn append_digits(s: &mut String, n: u64)
    ensures
        final(s)@ == old(s)@ + digits(n as nat),
    decreases n,
{
    if n >= 10 {
        append_digits(s, n / 10);
    }
    s.append(digit_str(n % 10));
    proof {
        if n >= 10 {
            assert(old(s)@ + digits(n as nat) =~= old(s)@ + digits((n / 10) as nat) + seq![digit_char((n % 10) as nat)]);
        } else {
            assert(n % 10 == n);
        }
    }
}

/// Appends the decimal text of `v` to `s`.
pub fn append_decimal(s: &mut String, v: i32)
    ensures
        final(s)@ == old(s)@ + decimal(v as int),
{
    let w: i64 = v as i64;
    if w < 0 {
        s.append("-");
        proof {
            reveal_strlit("-");
        }
        append_digits(s, (-w) as u64);
        proof {
            assert(s@ =~= old(s)@ + decimal(v as int));
        }
    } else {
        append_digits(s, w as u64);
    }
}

/// The item index that item identifier `id` resolves to: its last position in `items`.
pub open spec fn resolves(items: Seq<i32>, id: i32, k: int) -> bool {
    0 <= k < items.len() && items[k] == id && forall|k2: int| k < k2 < items.len() ==> items[k2] != id
}

/// The index of `id` in `items`, if it occurs.
pub open spec fn find_item(items: Seq<i32>, id: i32) -> Option<usize> {
    if items.contains(id) {
        Some((choose|k: int| resolves(items, id, k)) as usize)
    } else {
        None
    }
}

/// `id` resolves to at most one index.
pub proof fn lemma_resolves_unique(items: Seq<i32>, id: i32, k1: int, k2: int)
    requires
        resolves(items, id, k1),
        resolves(items, id, k2),
    ensures
        k1 == k2,
{
}

/// An identifier that occurs in `items` resolves to some index.
pub proof fn lemma_resolves_exists(items: Seq<i32>, id: i32)
    requires
        items.contains(id),
    ensures
        exists|k: int| resolves(items, id, k),
    decreases items.len(),
{
    let n = items.len() as int;
    if items[n - 1] == id {
        assert(resolves(items, id, n - 1));
    } else {
        let c = choose|c: int| 0 <= c < n && items[c] == id;
        assert(items.drop_last()[c] == id);
        lemma_resolves_exists(items.drop_last(), id);
        let k = choose|k: int| resolves(items.drop_last(), id, k);
        assert forall|k2: int| k < k2 < n implies items[k2] != id by {
            if k2 < n - 1 {
                assert(items.drop_last()[k2] == items[k2]);
            }
        }
        assert(resolves(items, id, k));
    }
}

/// Looks up the index of item identifier `id`.
pub fn item_index(items: &Vec<i32>, id: i32) -> (r: Option<usize>)
    ensures
        r == find_item(items@, id),
        r matches Some(k) ==> resolves(items@, id, k as int),
{
    let mut k: usize = items.len();
    while k > 0
        invariant
            k <= items@.len(),
            forall|k2: int| k <= k2 < items@.len() ==> items@[k2] != id,
        decreases k,
    {
        k = k - 1;
        if items[k] == id {
            proof {
                assert(items@.contains(id));
                assert(resolves(items@, id, k as int));
                let c = choose|c: int| resolves(items@, id, c);
                lemma_resolves_unique(items@, id, c, k as int);
            }
            return Some(k);
        }
    }
    proof {
        if items@.contains(id) {
            let c = choose|c: int| 0 <= c < items@.len() && items@[c] == id;
        }
    }
    None
}

/// The number of terms among the first `m` that term `x` conflicts with.
pub open spec fn degree_upto(terms: Seq<Term>, x: int, m: int) -> nat
    decreases m,
{
    if m <= 0 {
        0
    } else {
        degree_upto(terms, x, m - 1) + if m - 1 != x && overlap(terms, x, m - 1) { 1nat } else { 0nat }
    }
}

/// The number of other terms that term `x` conflicts with.
pub open spec fn degree(terms: Seq<Term>, x: int) -> nat {
    degree_upto(terms, x, terms.len() as int)
}

proof fn lemma_degree_bound(terms: Seq<Term>, x: int, m: int)
    requires
        0 <= m,
    ensures
        degree_upto(terms, x, m) <= m,
    decreases m,
{
    if m > 0 {
        lemma_degree_bound(terms, x, m - 1);
    }
}

/// Counts the set entries in row `x` of the conflict matrix.
pub fn conflict_degree(conf: &Vec<Vec<bool>>, x: usize, Ghost(terms): Ghost<Seq<Term>>) -> (d: usize)
    requires
        is_conflict_matrix(conf@, terms),
        x < terms.len(),
    ensures
        d == degree(terms, x as int),
{
    let row = &conf[x];
    let n = row.len();
    let mut d: usize = 0;
    let mut j: usize = 0;
    while j < n
        invariant
            is_conflict_matrix(conf@, terms),
            x < terms.len(),
            row@ == conf@[x as int]@,
            n == terms.len(),
            j <= n,
            d == degree_upto(terms, x as int, j as int),
        decreases n - j,
    {
        proof {
            assert(cf(conf@, x as int, j as int) == (x != j && overlap(terms, x as int, j as int)));
            lemma_degree_bound(terms, x as int, j as int);
        }
        if row[j] {
            d = d + 1;
        }
        j = j + 1;
    }
    d
}

/// `x` comes before `y` in the search order: more conflicts first, then lower index.
pub open spec fn ranked_before(terms: Seq<Term>, x: int, y: int) -> bool {
    degree(terms, x) > degree(terms, y) || (degree(terms, x) == degree(terms, y) && x < y)
}

/// `u` lists exactly the unlocked terms, most constrained first.
pub open spec fn is_search_order(terms: Seq<Term>, u: Seq<usize>) -> bool {
    &&& forall|i: int| 0 <= i < u.len() ==> (#[trigger] u[i] as int) < terms.len() && terms[u[i] as int].locked_id.is_none()
    &&& forall|t: int| 0 <= t < terms.len() && terms[t].locked_id.is_none() ==> u.contains(t as usize)
    &&& forall|i: int, j: int| 0 <= i < j < u.len() ==> ranked_before(terms, #[trigger] u[i] as int, #[trigger] u[j] as int)
}

/// The unlocked term indices, ordered by descending conflict degree; ties keep index order.
pub fn search_order(terms: &Vec<Term>, conf: &Vec<Vec<bool>>) -> (u: Vec<usize>)
    requires
        is_conflict_matrix(conf@, terms@),
    ensures
        is_search_order(terms@, u@),
{
    let n = terms.len();
    let mut degs: Vec<usize> = Vec::new();
    let mut u: Vec<usize> = Vec::new();
    let mut t: usize = 0;
    while t < n
        invariant
            n == terms@.len(),
            is_conflict_matrix(conf@, terms@),
            t <= n,
            u@.len() == degs@.len(),
            forall|i: int| 0 <= i < u@.len() ==> (#[trigger] u@[i] as int) < t && terms@[u@[i] as int].locked_id.is_none()
                && degs@[i] == degree(terms@, u@[i] as int),
            forall|s: int| 0 <= s < t && terms@[s].locked_id.is_none() ==> u@.contains(s as usize),
            forall|i: int, j: int| 0 <= i < j < u@.len() ==> ranked_before(terms@, #[trigger] u@[i] as int, #[trigger] u@[j] as int),
        decreases n - t,
    {
        if terms[t].locked_id.is_none() {
            let d = conflict_degree(conf, t, Ghost(terms@));
            let mut p: usize = 0;
            while p < u.len() && degs[p] >= d
                invariant
                    u@.len() == degs@.len(),
                    p <= u@.len(),
                    forall|i: int| 0 <= i < p ==> #[trigger] degs@[i] >= d,
                decreases u@.len() - p,
            {
                p = p + 1;
            }
            let ghost old_u = u@;
            let ghost old_d = degs@;
            u.insert(p, t);
            degs.insert(p, d);
            proof {
                assert forall|i: int| 0 <= i < u@.len() implies (#[trigger] u@[i] as int) < t + 1 && terms@[u@[i] as int].locked_id.is_none()
                    && degs@[i] == degree(terms@, u@[i] as int) by {
                    if i < p {
                        assert(u@[i] == old_u[i] && degs@[i] == old_d[i]);
                    } else if i > p {
                        assert(u@[i] == old_u[i - 1] && degs@[i] == old_d[i - 1]);
                    }
                }
                assert forall|s: int| 0 <= s < t + 1 && terms@[s].locked_id.is_none() implies u@.contains(s as usize) by {
                    if s == t {
                        assert(u@[p as int] == t);
                    } else {
                        let i = choose|i: int| 0 <= i < old_u.len() && old_u[i] == s as usize;
                        if i < p {
                            assert(u@[i] == old_u[i]);
                        } else {
                            assert(u@[i + 1] == old_u[i]);
                        }
                    }
                }
                assert forall|i: int, j: int| 0 <= i < j < u@.len() implies ranked_before(terms@, #[trigger] u@[i] as int, #[trigger] u@[j] as int) by {
                    if j < p {
                        assert(u@[i] == old_u[i] && u@[j] == old_u[j]);
                    } else if j == p {
                        assert(u@[i] == old_u[i]);
                        assert(old_d[i] >= d);
                    } else if i > p {
                        assert(u@[i] == old_u[i - 1] && u@[j] == old_u[j - 1]);
                    } else if i == p {
                        assert(u@[j] == old_u[j - 1]);
                        assert(old_d[p as int] < d);
                        if j - 1 > p {
                            assert(ranked_before(terms@, old_u[p as int] as int, old_u[j - 1] as int));
                        }
                    } else {
                        assert(u@[i] == old_u[i] && u@[j] == old_u[j - 1]);
                    }
                }
            }
        }
        t = t + 1;
    }
    u
}

/// The item index that term `t`'s lock resolves to, if it is locked to a known item.
pub open spec fn locked_item(items: Seq<i32>, terms: Seq<Term>, t: int) -> Option<usize> {
    match terms[t].locked_id {
        Some(v) => find_item(items, v),
        None => None,
    }
}

/// Locked term `o` precedes locked term `t`, is pinned to the same item, and overlaps it.
pub open spec fn lock_clash(terms: Seq<Term>, t: int, o: int) -> bool {
    &&& 0 <= o < t
    &&& terms[t].locked_id.is_some()
    &&& terms[o].locked_id == terms[t].locked_id
    &&& overlap(terms, t, o)
}

/// Locking term `t` fails: its item is unknown, or an earlier locked term clashes with it.
pub open spec fn lock_fails(items: Seq<i32>, terms: Seq<Term>, t: int) -> bool {
    match terms[t].locked_id {
        Some(v) => !items.contains(v) || exists|o: int| lock_clash(terms, t, o),
        None => false,
    }
}

/// Locking succeeds for all of the first `m` terms.
pub open spec fn locks_ok_upto(items: Seq<i32>, terms: Seq<Term>, m: int) -> bool {
    forall|t: int| 0 <= t < m ==> !#[trigger] lock_fails(items, terms, t)
}

/// Term `t` is where locking stops.
pub open spec fn first_lock_failure(items: Seq<i32>, terms: Seq<Term>, t: int) -> bool {
    0 <= t < terms.len() && lock_fails(items, terms, t) && locks_ok_upto(items, terms, t)
}

/// `o` is the earliest term that clashes with `t`.
pub open spec fn first_clash(terms: Seq<Term>, t: int, o: int) -> bool {
    lock_clash(terms, t, o) && forall|c: int| 0 <= c < o ==> !#[trigger] lock_clash(terms, t, c)
}

/// The assignment after locking the first `m` terms.
pub open spec fn locked_state(items: Seq<i32>, terms: Seq<Term>, m: int) -> Seq<Option<usize>> {
    Seq::new(terms.len(), |t: int| if t < m { locked_item(items, terms, t) } else { None })
}

/// Every item list holds increasing term indices below `m`.
pub open spec fn rows_sorted(it: Seq<Vec<usize>>, m: int) -> bool {
    forall|k: int, j1: int, j2: int|
        #![trigger it[k]@[j1], it[k]@[j2]]
        0 <= k < it.len() && 0 <= j1 < j2 < it[k]@.len() ==> it[k]@[j1] < it[k]@[j2] && (it[k]@[j2] as int) < m
}

/// The outcome of the locking phase, when it stops at a term: an unknown item,
/// or the earliest clashing partner and the term itself, in index order.
pub open spec fn lock_failure_outcome(items: Seq<i32>, terms: Seq<Term>, t: int, r: Outcome) -> bool {
    match terms[t].locked_id {
        Some(v) => if !items.contains(v) {
            match r {
                Outcome::InvalidItem { message, term_id, item_id } => {
                    &&& message@ == "Term locked to unknown item: "@ + decimal(v as int)
                    &&& term_id == terms[t].id
                    &&& item_id == v
                },
                _ => false,
            }
        } else {
            match r {
                Outcome::Conflict { message, conflicts } => {
                    &&& message@ == "Conflict in terms for item "@ + decimal(v as int)
                    &&& exists|o: int| first_clash(terms, t, o) && conflicts@ == seq![terms[o].id, terms[t].id]
                },
                _ => false,
            }
        },
        None => false,
    }
}

/// Applies the locked terms, in index order, to an empty state.
pub fn lock_terms(
    items: &Vec<i32>,
    terms: &Vec<Term>,
    conf: &Vec<Vec<bool>>,
    state: &mut State,
) -> (r: Option<Outcome>)
    requires
        is_conflict_matrix(conf@, terms@),
        old(state).wf(conf@, items@.len()),
        old(state).assignments@ == locked_state(items@, terms@, 0),
        forall|k: int| 0 <= k < items@.len() ==> (#[trigger] old(state).item_terms@[k])@.len() == 0,
    ensures
        final(state).wf(conf@, items@.len()),
        r is None <==> locks_ok_upto(items@, terms@, terms@.len() as int),
        r is None ==> final(state).assignments@ == locked_state(items@, terms@, terms@.len() as int),
        r matches Some(o) ==> exists|t: int| first_lock_failure(items@, terms@, t) && lock_failure_outcome(items@, terms@, t, o),
{
    let n = terms.len();
    let ghost n_items = items@.len();
    let mut t: usize = 0;
    proof {
        assert(state.assignments@ =~= locked_state(items@, terms@, 0));
    }
    while t < n
        invariant
            n == terms@.len(),
            n_items == items@.len(),
            is_conflict_matrix(conf@, terms@),
            t <= n,
            state.wf(conf@, n_items),
            state.assignments@ == locked_state(items@, terms@, t as int),
            locks_ok_upto(items@, terms@, t as int),
            rows_sorted(state.item_terms@, t as int),
            forall|k: int, j: int| 0 <= k < n_items && 0 <= j < state.item_terms@[k]@.len() ==> (#[trigger] state.item_terms@[k]@[j] as int) < t,
        decreases n - t,
    {
        let ghost a = state.assignments@;
        if let Some(v) = terms[t].locked_id {
            match item_index(items, v) {
                None => {
                    let mut message = String::from_str("Term locked to unknown item: ");
                    append_decimal(&mut message, v);
                    let out = Outcome::InvalidItem { message, term_id: terms[t].id, item_id: v };
                    proof {
                        assert(!items@.contains(v));
                        assert(lock_fails(items@, terms@, t as int));
                        assert(first_lock_failure(items@, terms@, t as int));
                        assert(lock_failure_outcome(items@, terms@, t as int, out));
                    }
                    return Some(out);
                },
                Some(ii) => {
                    let row = &state.item_terms[ii];
                    let mut j: usize = 0;
                    while j < row.len()
                        invariant
                            row@ == state.item_terms@[ii as int]@,
                            ii < n_items,
                            t < n,
                            is_conflict_matrix(conf@, terms@),
                            state.wf(conf@, n_items),
                            state.assignments@ == a,
                            a.len() == n,
                            n == terms@.len(),
                            n_items == items@.len(),
                            a == locked_state(items@, terms@, t as int),
                            locks_ok_upto(items@, terms@, t as int),
                            rows_sorted(state.item_terms@, t as int),
                            forall|k: int, q: int| 0 <= k < n_items && 0 <= q < state.item_terms@[k]@.len() ==> (#[trigger] state.item_terms@[k]@[q] as int) < t,
                            resolves(items@, v, ii as int),
                            terms@[t as int].locked_id == Some(v),
                            j <= row@.len(),
                            forall|q: int| 0 <= q < j ==> !cf(conf@, t as int, #[trigger] row@[q] as int),
                        decreases row@.len() - j,
                    {
                        let other = row[j];
                        proof {
                            assert(state.item_terms@[ii as int]@[j as int] == other);
                            assert(conf@[t as int]@.len() == n);
                        }
                        if conf[t][other] {
                            let mut message = String::from_str("Conflict in terms for item ");
                            append_decimal(&mut message, v);
                            let conflicts = vec![terms[other].id, terms[t].id];
                            proof {
                                let o = other as int;
                                assert(a[o] == Some(ii));
                                assert(state.item_terms@[ii as int]@[j as int] == other);
                                assert(o < t);
                                assert(a[o] == locked_item(items@, terms@, o));
                                assert(locked_item(items@, terms@, o) == Some(ii));
                                let w = terms@[o].locked_id.unwrap();
                                assert(items@.contains(w));
                                lemma_resolves_exists(items@, w);
                                let kw = choose|k: int| resolves(items@, w, k);
                                assert(resolves(items@, w, kw));
                                assert(kw == ii as int);
                                assert(items@[ii as int] == v);
                                assert(w == v);
                                assert(cf(conf@, t as int, o));
                                assert(lock_clash(terms@, t as int, o));
                                assert forall|c: int| 0 <= c < o implies !#[trigger] lock_clash(terms@, t as int, c) by {
                                    if lock_clash(terms@, t as int, c) {
                                        assert(a[c] == locked_item(items@, terms@, c));
                                        assert(a[c] == Some(ii));
                                        assert(a[c].is_some());
                                        assert(state.item_terms@[ii as int]@.contains(c as usize));
                                        let q = choose|q: int| 0 <= q < row@.len() && row@[q] == c as usize;
                                        if q >= j {
                                            if q > j {
                                                assert(row@[j as int] < row@[q]);
                                            }
                                            assert(false);
                                        }
                                        assert(!cf(conf@, t as int, row@[q] as int));
                                    }
                                }
                                assert(first_clash(terms@, t as int, o));
                                assert(lock_fails(items@, terms@, t as int));
                                assert(conflicts@ == seq![terms@[o].id, terms@[t as int].id]);
                            }
                            let out = Outcome::Conflict { message, conflicts };
                            proof {
                                assert(first_lock_failure(items@, terms@, t as int));
                                assert(lock_failure_outcome(items@, terms@, t as int, out));
                            }
                            return Some(out);
                        }
                        j = j + 1;
                    }
                    proof {
                        assert(resolves(items@, v, ii as int));
                        assert forall|o: int| 0 <= o < a.len() && #[trigger] a[o] == Some(ii as usize) implies !cf(conf@, t as int, o) by {
                            assert(a[o].is_some());
                            assert(state.item_terms@[ii as int]@.contains(o as usize));
                            let q = choose|q: int| 0 <= q < row@.len() && row@[q] == o as usize;
                            assert(!cf(conf@, t as int, row@[q] as int));
                        }
                        assert(!lock_fails(items@, terms@, t as int)) by {
                            if exists|o: int| lock_clash(terms@, t as int, o) {
                                let o = choose|o: int| lock_clash(terms@, t as int, o);
                                assert(a[o] == locked_item(items@, terms@, o));
                                assert(a[o] == Some(ii));
                                assert(cf(conf@, t as int, o));
                            }
                        }
                        assert(a[t as int].is_none());
                    }
                    state.assign(t, ii, Ghost(conf@), Ghost(n_items));
                    proof {
                        assert(state.assignments@ =~= locked_state(items@, terms@, t + 1));
                        let it = state.item_terms@;
                        assert forall|k: int, j1: int, j2: int|
                            #![trigger it[k]@[j1], it[k]@[j2]]
                            0 <= k < it.len() && 0 <= j1 < j2 < it[k]@.len() implies it[k]@[j1] < it[k]@[j2] && (it[k]@[j2] as int) < t + 1 by {
                        }
                    }
                },
            }
        } else {
            proof {
                assert(locked_state(items@, terms@, t as int) =~= locked_state(items@, terms@, t + 1));
            }
        }
        t = t + 1;
    }
    None
}

/// `u1` and `u2` list the same terms, each strictly in search order.
proof fn lemma_sorted_unique(terms: Seq<Term>, u1: Seq<usize>, u2: Seq<usize>)
    requires
        forall|i: int, j: int| 0 <= i < j < u1.len() ==> ranked_before(terms, #[trigger] u1[i] as int, #[trigger] u1[j] as int),
        forall|i: int, j: int| 0 <= i < j < u2.len() ==> ranked_before(terms, #[trigger] u2[i] as int, #[trigger] u2[j] as int),
        forall|x: usize| u1.contains(x) <==> u2.contains(x),
    ensures
        u1 == u2,
    decreases u1.len(),
{
    if u1.len() == 0 {
        if u2.len() > 0 {
            assert(u2.contains(u2[0]));
        }
        assert(u1 =~= u2);
    } else {
        assert(u1.contains(u1[0]));
        assert(u2.len() > 0);
        let x1 = u1[0];
        let x2 = u2[0];
        if x1 != x2 {
            assert(u1.contains(x2) && u2.contains(x1));
            let p = choose|p: int| 0 <= p < u1.len() && u1[p] == x2;
            let q = choose|q: int| 0 <= q < u2.len() && u2[q] == x1;
            assert(ranked_before(terms, u1[0] as int, u1[p] as int));
            assert(ranked_before(terms, u2[0] as int, u2[q] as int));
        }
        let t1 = u1.subrange(1, u1.len() as int);
        let t2 = u2.subrange(1, u2.len() as int);
        assert forall|x: usize| t1.contains(x) <==> t2.contains(x) by {
            if t1.contains(x) {
                let p = choose|p: int| 0 <= p < t1.len() && t1[p] == x;
                assert(u1[p + 1] == x);
                assert(ranked_before(terms, u1[0] as int, u1[p + 1] as int));
                assert(u1.contains(x));
                let q = choose|q: int| 0 <= q < u2.len() && u2[q] == x;
                assert(q != 0);
                assert(t2[q - 1] == x);
            }
            if t2.contains(x) {
                let p = choose|p: int| 0 <= p < t2.len() && t2[p] == x;
                assert(u2[p + 1] == x);
                assert(ranked_before(terms, u2[0] as int, u2[p + 1] as int));
                assert(u2.contains(x));
                let q = choose|q: int| 0 <= q < u1.len() && u1[q] == x;
                assert(q != 0);
                assert(t1[q - 1] == x);
            }
        }
        assert forall|i: int, j: int| 0 <= i < j < t1.len() implies ranked_before(terms, #[trigger] t1[i] as int, #[trigger] t1[j] as int) by {
            assert(t1[i] == u1[i + 1] && t1[j] == u1[j + 1]);
        }
        assert forall|i: int, j: int| 0 <= i < j < t2.len() implies ranked_before(terms, #[trigger] t2[i] as int, #[trigger] t2[j] as int) by {
            assert(t2[i] == u2[i + 1] && t2[j] == u2[j + 1]);
        }
        lemma_sorted_unique(terms, t1, t2);
        assert(u1 =~= seq![x1] + t1);
        assert(u2 =~= seq![x2] + t2);
    }
}

/// There is one search order for a term list.
pub proof fn lemma_search_order_unique(terms: Seq<Term>, u1: Seq<usize>, u2: Seq<usize>)
    requires
        is_search_order(terms, u1),
        is_search_order(terms, u2),
    ensures
        u1 == u2,
{
    assert forall|x: usize| u1.contains(x) <==> u2.contains(x) by {
        if u1.contains(x) {
            let p = choose|p: int| 0 <= p < u1.len() && u1[p] == x;
            assert(terms[u1[p] as int].locked_id.is_none());
        }
        if u2.contains(x) {
            let p = choose|p: int| 0 <= p < u2.len() && u2[p] == x;
            assert(terms[u2[p] as int].locked_id.is_none());
        }
    }
    lemma_sorted_unique(terms, u1, u2);
}

} // verus!
