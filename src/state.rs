use vstd::prelude::*;

verus! {

/// Entry `(i, j)` of a conflict matrix.
pub open spec fn cf(conf: Seq<Vec<bool>>, i: int, j: int) -> bool {
    conf[i]@[j]
}

/// `conf` is a symmetric `n × n` matrix.
pub open spec fn square(conf: Seq<Vec<bool>>, n: nat) -> bool {
    &&& conf.len() == n
    &&& forall|i: int| 0 <= i < n ==> (#[trigger] conf[i]@).len() == n
    &&& forall|i: int, j: int| 0 <= i < n && 0 <= j < n ==> #[trigger] cf(conf, i, j) == cf(conf, j, i)
}

/// No two distinct terms that share an item are in conflict.
pub open spec fn consistent(conf: Seq<Vec<bool>>, a: Seq<Option<usize>>) -> bool {
    forall|t1: int, t2: int|
        #![trigger a[t1], a[t2]]
        0 <= t1 < a.len() && 0 <= t2 < a.len() && t1 != t2 && a[t1].is_some() && a[t1] == a[t2]
            ==> !cf(conf, t1, t2)
}

/// Item `k` can take term `t`: nothing on `k` conflicts with `t`.
pub open spec fn fits(conf: Seq<Vec<bool>>, a: Seq<Option<usize>>, t: int, k: int) -> bool {
    forall|o: int| 0 <= o < a.len() && #[trigger] a[o] == Some(k as usize) ==> !cf(conf, t, o)
}

/// Some item below `n_items` can take term `t`.
pub open spec fn has_fit(conf: Seq<Vec<bool>>, a: Seq<Option<usize>>, t: int, n_items: nat) -> bool {
    exists|k: int| 0 <= k < n_items && #[trigger] fits(conf, a, t, k)
}

/// `b` keeps every assignment that `a` makes.
pub open spec fn extends(b: Seq<Option<usize>>, a: Seq<Option<usize>>) -> bool {
    &&& b.len() == a.len()
    &&& forall|t: int| 0 <= t < a.len() && #[trigger] a[t].is_some() ==> b[t] == a[t]
}

/// Every term holds an item below `n_items`.
pub open spec fn total(a: Seq<Option<usize>>, n_items: nat) -> bool {
    forall|t: int| 0 <= t < a.len() ==> (#[trigger] a[t]).is_some() && a[t].unwrap() < n_items
}

/// A complete assignment with no conflict that keeps what `a` assigns.
pub open spec fn is_solution_of(
    conf: Seq<Vec<bool>>,
    b: Seq<Option<usize>>,
    a: Seq<Option<usize>>,
    n_items: nat,
) -> bool {
    extends(b, a) && total(b, n_items) && consistent(conf, b)
}

/// A term with no fitting item under `a` rules out every solution that extends `a`.
pub proof fn lemma_no_fit_blocks(
    conf: Seq<Vec<bool>>,
    a: Seq<Option<usize>>,
    b: Seq<Option<usize>>,
    t: int,
    n_items: nat,
)
    requires
        0 <= t < a.len(),
        a[t].is_none(),
        !has_fit(conf, a, t, n_items),
    ensures
        !is_solution_of(conf, b, a, n_items),
{
    if !is_solution_of(conf, b, a, n_items) {
        return;
    }
    let k = b[t].unwrap() as int;
    assert(b[t].is_some());
    assert(!fits(conf, a, t, k));
    let o = choose|o: int| 0 <= o < a.len() && #[trigger] a[o] == Some(k as usize) && cf(conf, t, o);
    assert(a[o].is_some());
    assert(b[o] == a[o]);
    assert(b[t] == b[o]);
}

/// Every item list of `o` is a prefix of the same list in `s`.
pub open spec fn rows_extend(s: State, o: State) -> bool {
    &&& s.item_terms@.len() == o.item_terms@.len()
    &&& forall|k: int| 0 <= k < o.item_terms@.len() ==> (#[trigger] s.item_terms@[k])@.len() >= o.item_terms@[k]@.len()
    &&& forall|k: int, j: int|
        0 <= k < o.item_terms@.len() && 0 <= j < o.item_terms@[k]@.len() ==> #[trigger] s.item_terms@[k]@[j] == o.item_terms@[k]@[j]
}

/// Prefixes of prefixes are prefixes.
pub proof fn lemma_rows_extend_trans(a: State, b: State, c: State)
    requires
        rows_extend(a, b),
        rows_extend(b, c),
    ensures
        rows_extend(a, c),
{
    assert forall|k: int, j: int|
        0 <= k < c.item_terms@.len() && 0 <= j < c.item_terms@[k]@.len() implies #[trigger] a.item_terms@[k]@[j] == c.item_terms@[k]@[j] by {
        assert(b.item_terms@[k]@.len() >= c.item_terms@[k]@.len());
        assert(a.item_terms@[k]@[j] == b.item_terms@[k]@[j]);
    }
}

/// The assignment of terms to items, with each item's list of terms.
pub struct State {
    /// term index -> item index, `None` while unassigned
    pub assignments: Vec<Option<usize>>,
    /// item index -> the term indices it holds, in the order they were placed
    pub item_terms: Vec<Vec<usize>>,
}

impl State {
    /// The two halves agree and no item holds two conflicting terms.
    pub open spec fn wf(&self, conf: Seq<Vec<bool>>, n_items: nat) -> bool {
        let a = self.assignments@;
        let it = self.item_terms@;
        &&& square(conf, a.len())
        &&& a.len() <= usize::MAX
        &&& n_items <= usize::MAX
        &&& it.len() == n_items
        &&& forall|k: int, j: int|
            0 <= k < n_items && 0 <= j < it[k]@.len() ==> (#[trigger] it[k]@[j] as int) < a.len()
                && a[it[k]@[j] as int] == Some(k as usize)
        &&& forall|t: int|
            0 <= t < a.len() && (#[trigger] a[t]).is_some() ==> a[t].unwrap() < n_items
                && it[a[t].unwrap() as int]@.contains(t as usize)
        &&& forall|k: int, j1: int, j2: int|
            #![trigger it[k]@[j1], it[k]@[j2]]
            0 <= k < n_items && 0 <= j1 < j2 < it[k]@.len() ==> it[k]@[j1] != it[k]@[j2]
        &&& consistent(conf, a)
    }

    /// Same contents as `o`, list by list.
    pub open spec fn same(&self, o: &State) -> bool {
        &&& self.assignments@ == o.assignments@
        &&& self.item_terms@.len() == o.item_terms@.len()
        &&& forall|k: int| 0 <= k < o.item_terms@.len() ==> (#[trigger] self.item_terms@[k])@ == o.item_terms@[k]@
    }

    /// An empty state for `n_terms` terms and `n_items` items.
    pub fn new(n_terms: usize, n_items: usize, Ghost(conf): Ghost<Seq<Vec<bool>>>) -> (s: State)
        requires
            square(conf, n_terms as nat),
        ensures
            s.wf(conf, n_items as nat),
            s.assignments@ == Seq::new(n_terms as nat, |t: int| None::<usize>),
            forall|k: int| 0 <= k < n_items ==> (#[trigger] s.item_terms@[k])@.len() == 0,
    {
        let mut assignments: Vec<Option<usize>> = Vec::new();
        let mut i: usize = 0;
        while i < n_terms
            invariant
                i <= n_terms,
                assignments@ == Seq::new(i as nat, |t: int| None::<usize>),
            decreases n_terms - i,
        {
            assignments.push(None);
            i = i + 1;
        }
        let mut item_terms: Vec<Vec<usize>> = Vec::new();
        let mut k: usize = 0;
        while k < n_items
            invariant
                k <= n_items,
                item_terms@.len() == k,
                forall|j: int| 0 <= j < k ==> (#[trigger] item_terms@[j])@.len() == 0,
            decreases n_items - k,
        {
            item_terms.push(Vec::new());
            k = k + 1;
        }
        State { assignments, item_terms }
    }

    /// Well-formedness depends on the contents alone.
    pub proof fn lemma_same_wf(&self, o: &State, conf: Seq<Vec<bool>>, n_items: nat)
        requires
            o.wf(conf, n_items),
            self.same(o),
        ensures
            self.wf(conf, n_items),
    {
        let it = self.item_terms@;
        let oit = o.item_terms@;
        assert forall|k: int, j: int|
            0 <= k < n_items && 0 <= j < it[k]@.len() implies (#[trigger] it[k]@[j] as int) < self.assignments@.len()
                && self.assignments@[it[k]@[j] as int] == Some(k as usize) by {
            assert(it[k]@ == oit[k]@);
            assert(it[k]@[j] == oit[k]@[j]);
        }
        assert forall|t: int|
            0 <= t < self.assignments@.len() && (#[trigger] self.assignments@[t]).is_some() implies self.assignments@[t].unwrap() < n_items
                && it[self.assignments@[t].unwrap() as int]@.contains(t as usize) by {
            assert(it[self.assignments@[t].unwrap() as int]@ == oit[self.assignments@[t].unwrap() as int]@);
        }
        assert forall|k: int, j1: int, j2: int|
            #![trigger it[k]@[j1], it[k]@[j2]]
            0 <= k < n_items && 0 <= j1 < j2 < it[k]@.len() implies it[k]@[j1] != it[k]@[j2] by {
            assert(it[k]@ == oit[k]@);
            assert(oit[k]@[j1] != oit[k]@[j2]);
        }
    }

    /// An independent copy with the same contents.
    pub fn copy(&self) -> (r: State)
        ensures
            r.same(self),
    {
        let mut assignments: Vec<Option<usize>> = Vec::new();
        let mut i: usize = 0;
        while i < self.assignments.len()
            invariant
                i <= self.assignments@.len(),
                assignments@ == self.assignments@.subrange(0, i as int),
            decreases self.assignments@.len() - i,
        {
            assignments.push(self.assignments[i]);
            i = i + 1;
        }
        let mut item_terms: Vec<Vec<usize>> = Vec::new();
        let mut k: usize = 0;
        while k < self.item_terms.len()
            invariant
                k <= self.item_terms@.len(),
                item_terms@.len() == k,
                forall|j: int| 0 <= j < k ==> (#[trigger] item_terms@[j])@ == self.item_terms@[j]@,
            decreases self.item_terms@.len() - k,
        {
            let row = &self.item_terms[k];
            let mut copy: Vec<usize> = Vec::new();
            let mut j: usize = 0;
            while j < row.len()
                invariant
                    j <= row@.len(),
                    copy@ == row@.subrange(0, j as int),
                decreases row@.len() - j,
            {
                copy.push(row[j]);
                j = j + 1;
            }
            item_terms.push(copy);
            k = k + 1;
        }
        assert(assignments@ == self.assignments@);
        State { assignments, item_terms }
    }

    /// Places term `ti` on item `ii`.
    pub fn assign(&mut self, ti: usize, ii: usize, Ghost(conf): Ghost<Seq<Vec<bool>>>, Ghost(n_items): Ghost<nat>)
        requires
            old(self).wf(conf, n_items),
            ti < old(self).assignments@.len(),
            ii < n_items,
            old(self).assignments@[ti as int].is_none(),
            fits(conf, old(self).assignments@, ti as int, ii as int),
        ensures
            final(self).wf(conf, n_items),
            final(self).assignments@ == old(self).assignments@.update(ti as int, Some(ii)),
            final(self).item_terms@.len() == old(self).item_terms@.len(),
            final(self).item_terms@[ii as int]@ == old(self).item_terms@[ii as int]@.push(ti),
            forall|k: int| 0 <= k < n_items && k != ii ==> (#[trigger] final(self).item_terms@[k])@ == old(self).item_terms@[k]@,
    {
        self.assignments.set(ti, Some(ii));
        self.item_terms[ii].push(ti);
        proof {
            let a = self.assignments@;
            let it = self.item_terms@;
            let oa = old(self).assignments@;
            let oit = old(self).item_terms@;
            assert forall|k: int, j: int|
                0 <= k < n_items && 0 <= j < it[k]@.len() implies (#[trigger] it[k]@[j] as int) < a.len()
                    && a[it[k]@[j] as int] == Some(k as usize) by {
                if k == ii && j == oit[k]@.len() {
                } else {
                    assert(it[k]@[j] == oit[k]@[j]);
                    assert(oa[oit[k]@[j] as int] == Some(k as usize));
                    if oit[k]@[j] == ti {
                        assert(false);
                    }
                }
            }
            assert forall|t: int|
                0 <= t < a.len() && (#[trigger] a[t]).is_some() implies a[t].unwrap() < n_items
                    && it[a[t].unwrap() as int]@.contains(t as usize) by {
                if t == ti {
                    assert(it[ii as int]@[oit[ii as int]@.len() as int] == ti);
                } else {
                    let k = oa[t].unwrap() as int;
                    let j = choose|j: int| 0 <= j < oit[k]@.len() && oit[k]@[j] == t as usize;
                    assert(it[k]@[j] == t as usize);
                }
            }
            assert forall|k: int, j1: int, j2: int|
                #![trigger it[k]@[j1], it[k]@[j2]]
                0 <= k < n_items && 0 <= j1 < j2 < it[k]@.len() implies it[k]@[j1] != it[k]@[j2] by {
                if k == ii && j2 == oit[k]@.len() {
                    assert(oa[oit[k]@[j1] as int] == Some(k as usize));
                } else {
                    assert(it[k]@[j1] == oit[k]@[j1] && it[k]@[j2] == oit[k]@[j2]);
                }
            }
            assert forall|t1: int, t2: int|
                #![trigger a[t1], a[t2]]
                0 <= t1 < a.len() && 0 <= t2 < a.len() && t1 != t2 && a[t1].is_some() && a[t1] == a[t2]
                    implies !cf(conf, t1, t2) by {
                if t1 == ti {
                    assert(oa[t2] == Some(ii));
                } else if t2 == ti {
                    assert(oa[t1] == Some(ii));
                    assert(!cf(conf, ti as int, t1));
                    assert(cf(conf, ti as int, t1) == cf(conf, t1, ti as int));
                } else {
                    assert(oa[t1] == a[t1] && oa[t2] == a[t2]);
                }
            }
        }
    }

    /// Takes term `ti` back off item `ii`, where it was the last one placed.
    pub fn unassign(&mut self, ti: usize, ii: usize, Ghost(conf): Ghost<Seq<Vec<bool>>>, Ghost(n_items): Ghost<nat>)
        requires
            old(self).wf(conf, n_items),
            ii < n_items,
            old(self).item_terms@[ii as int]@.len() > 0,
            old(self).item_terms@[ii as int]@.last() == ti,
        ensures
            final(self).wf(conf, n_items),
            final(self).assignments@ == old(self).assignments@.update(ti as int, None),
            final(self).item_terms@.len() == old(self).item_terms@.len(),
            final(self).item_terms@[ii as int]@ == old(self).item_terms@[ii as int]@.drop_last(),
            forall|k: int| 0 <= k < n_items && k != ii ==> (#[trigger] final(self).item_terms@[k])@ == old(self).item_terms@[k]@,
    {
        let ghost last = (old(self).item_terms@[ii as int]@.len() - 1) as int;
        proof {
            assert(old(self).item_terms@[ii as int]@[last] == ti);
        }
        self.assignments.set(ti, None);
        self.item_terms[ii].pop();
        proof {
            let a = self.assignments@;
            let it = self.item_terms@;
            let oa = old(self).assignments@;
            let oit = old(self).item_terms@;
            assert forall|k: int, j: int|
                0 <= k < n_items && 0 <= j < it[k]@.len() implies (#[trigger] it[k]@[j] as int) < a.len()
                    && a[it[k]@[j] as int] == Some(k as usize) by {
                assert(it[k]@[j] == oit[k]@[j]);
                assert(oa[ti as int] == Some(ii));
                assert(oa[oit[k]@[j] as int] == Some(k as usize));
                if k == ii {
                    assert(oit[k]@[j] != oit[k]@[last]);
                    assert(oit[ii as int]@[last] == ti);
                }
                assert(oit[k]@[j] != ti);
            }
            assert forall|t: int|
                0 <= t < a.len() && (#[trigger] a[t]).is_some() implies a[t].unwrap() < n_items
                    && it[a[t].unwrap() as int]@.contains(t as usize) by {
                let k = oa[t].unwrap() as int;
                let j = choose|j: int| 0 <= j < oit[k]@.len() && oit[k]@[j] == t as usize;
                assert(t != ti as int);
                if k == ii && j == last {
                    assert(oit[k]@[j] == ti);
                    assert(t as usize == ti);
                }
                assert(it[k]@[j] == t as usize);
            }
            assert forall|k: int, j1: int, j2: int|
                #![trigger it[k]@[j1], it[k]@[j2]]
                0 <= k < n_items && 0 <= j1 < j2 < it[k]@.len() implies it[k]@[j1] != it[k]@[j2] by {
                assert(it[k]@[j1] == oit[k]@[j1] && it[k]@[j2] == oit[k]@[j2]);
            }
            assert forall|t1: int, t2: int|
                #![trigger a[t1], a[t2]]
                0 <= t1 < a.len() && 0 <= t2 < a.len() && t1 != t2 && a[t1].is_some() && a[t1] == a[t2]
                    implies !cf(conf, t1, t2) by {
                assert(oa[t1] == a[t1] && oa[t2] == a[t2]);
            }
        }
    }

    /// Whether item `ii` can take term `ti`.
    pub fn item_fits(&self, ti: usize, ii: usize, conf: &Vec<Vec<bool>>, Ghost(n_items): Ghost<nat>) -> (r: bool)
        requires
            self.wf(conf@, n_items),
            ti < self.assignments@.len(),
            ii < n_items,
        ensures
            r == fits(conf@, self.assignments@, ti as int, ii as int),
    {
        let row = &self.item_terms[ii];
        let mut j: usize = 0;
        while j < row.len()
            invariant
                self.wf(conf@, n_items),
                ti < self.assignments@.len(),
                ii < n_items,
                row@ == self.item_terms@[ii as int]@,
                j <= row@.len(),
                forall|q: int| 0 <= q < j ==> !cf(conf@, ti as int, #[trigger] row@[q] as int),
            decreases row@.len() - j,
        {
            let o = row[j];
            proof {
                assert(self.item_terms@[ii as int]@[j as int] == o);
            }
            if conf[ti][o] {
                return false;
            }
            j = j + 1;
        }
        proof {
            let a = self.assignments@;
            assert forall|o: int| 0 <= o < a.len() && #[trigger] a[o] == Some(ii as usize) implies !cf(conf@, ti as int, o) by {
                assert(a[o].is_some());
                assert(self.item_terms@[ii as int]@.contains(o as usize));
                let q = choose|q: int| 0 <= q < row@.len() && row@[q] == o as usize;
                assert(!cf(conf@, ti as int, row@[q] as int));
            }
        }
        true
    }
}

} // verus!
