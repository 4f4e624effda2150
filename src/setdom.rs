use vstd::prelude::*;
use crate::value::OrdT;
use crate::domain::{
    TrailState, active_of, count_true, distinct, lemma_active_contains, lemma_active_len, lemma_count_update, lemma_remove_active,
    lemma_restore_after_remove, state_active, state_remove, state_restore, state_wf,
};

verus! {

/// Error of a domain operation.
#[derive(Debug, Clone, PartialEq, Eq)]
pub enum DomainError<T> {
    /// The value is not in the domain (its catalog, or its active values).
    UnknownValue(T),
}

/// `r` is a least element of `s` (`None` when `s` is empty).
pub open spec fn is_min_of<T: OrdT>(s: Seq<T>, r: Option<T>) -> bool {
    match r {
        None => s.len() == 0,
        Some(m) => s.contains(m) && forall|i: int| 0 <= i < s.len() ==> !(#[trigger] s[i]).lt_spec(&m),
    }
}

/// `r` is a greatest element of `s` (`None` when `s` is empty).
pub open spec fn is_max_of<T: OrdT>(s: Seq<T>, r: Option<T>) -> bool {
    match r {
        None => s.len() == 0,
        Some(m) => s.contains(m) && forall|i: int| 0 <= i < s.len() ==> !m.lt_spec(&(#[trigger] s[i])),
    }
}

/// The least value of a sequence.
pub fn min_value<T: OrdT>(s: &Vec<T>) -> (r: Option<T>)
    ensures
        is_min_of(s@, r),
{
    if s.len() == 0 {
        return None;
    }
    let mut m: usize = 0;
    let mut i: usize = 1;
    proof {
        T::lemma_lt_irreflexive(&s@[0]);
    }
    while i < s.len()
        invariant
            0 < i <= s.len(),
            m < i,
            forall|j: int| 0 <= j < i ==> !(#[trigger] s@[j]).lt_spec(&s@[m as int]),
        decreases s.len() - i,
    {
        if s[i].less(&s[m]) {
            proof {
                assert forall|j: int| 0 <= j < i + 1 implies !(#[trigger] s@[j]).lt_spec(
                    &s@[i as int],
                ) by {
                    if j == i {
                        T::lemma_lt_irreflexive(&s@[j]);
                    } else if s@[j].lt_spec(&s@[i as int]) {
                        T::lemma_lt_transitive(&s@[j], &s@[i as int], &s@[m as int]);
                    }
                }
            }
            m = i;
        }
        i += 1;
    }
    assert(s@[m as int] == s@[m as int]);
    Some(s[m].duplicate())
}

/// The greatest value of a sequence.
pub fn max_value<T: OrdT>(s: &Vec<T>) -> (r: Option<T>)
    ensures
        is_max_of(s@, r),
{
    if s.len() == 0 {
        return None;
    }
    let mut m: usize = 0;
    let mut i: usize = 1;
    proof {
        T::lemma_lt_irreflexive(&s@[0]);
    }
    while i < s.len()
        invariant
            0 < i <= s.len(),
            m < i,
            forall|j: int| 0 <= j < i ==> !s@[m as int].lt_spec(&(#[trigger] s@[j])),
        decreases s.len() - i,
    {
        if s[m].less(&s[i]) {
            proof {
                assert forall|j: int| 0 <= j < i + 1 implies !s@[i as int].lt_spec(
                    &(#[trigger] s@[j]),
                ) by {
                    if j == i {
                        T::lemma_lt_irreflexive(&s@[j]);
                    } else if s@[i as int].lt_spec(&s@[j]) {
                        T::lemma_lt_transitive(&s@[m as int], &s@[i as int], &s@[j]);
                    }
                }
            }
            m = i;
        }
        i += 1;
    }
    assert(s@[m as int] == s@[m as int]);
    Some(s[m].duplicate())
}

/// Copy of a sequence of values.
pub fn copy_values<T: OrdT>(s: &Vec<T>) -> (r: Vec<T>)
    ensures
        r@ == s@,
{
    let mut r: Vec<T> = Vec::new();
    let mut i: usize = 0;
    while i < s.len()
        invariant
            i <= s.len(),
            r@ == s@.subrange(0, i as int),
        decreases s.len() - i,
    {
        r.push(s[i].duplicate());
        i += 1;
        assert(r@ =~= s@.subrange(0, i as int));
    }
    assert(r@ =~= s@);
    r
}

/// Copy of a sequence of positions.
fn copy_positions(s: &Vec<usize>) -> (r: Vec<usize>)
    ensures
        r@ == s@,
{
    let mut r: Vec<usize> = Vec::new();
    let mut i: usize = 0;
    while i < s.len()
        invariant
            i <= s.len(),
            r@ == s@.subrange(0, i as int),
        decreases s.len() - i,
    {
        r.push(s[i]);
        i += 1;
        assert(r@ =~= s@.subrange(0, i as int));
    }
    assert(r@ =~= s@);
    r
}

/// The interface common to domains.
pub trait Domain<T: OrdT>: Sized {
    /// The values currently in the domain, in catalog order.
    spec fn active_spec(&self) -> Seq<T>;

    /// The full catalog the domain was built from.
    spec fn initial_spec(&self) -> Seq<T>;

    spec fn well_formed(&self) -> bool;

    fn get_initial_values(&self) -> (r: &Vec<T>)
        requires
            self.well_formed(),
        ensures
            r@ == self.initial_spec(),
    ;

    fn active_values(&self) -> (r: Vec<T>)
        requires
            self.well_formed(),
        ensures
            r@ == self.active_spec(),
    ;

    fn size(&self) -> (r: usize)
        requires
            self.well_formed(),
        ensures
            r == self.active_spec().len(),
    ;

    fn is_empty(&self) -> (r: bool)
        requires
            self.well_formed(),
        ensures
            r == (self.active_spec().len() == 0),
    ;

    fn min(&self) -> (r: Option<T>)
        requires
            self.well_formed(),
        ensures
            is_min_of(self.active_spec(), r),
    ;

    fn max(&self) -> (r: Option<T>)
        requires
            self.well_formed(),
        ensures
            is_max_of(self.active_spec(), r),
    ;
}

/// A domain with trailing: an ordered catalog of distinct values, of which
/// a subset is active. The active values form a doubly-linked list in
/// catalog order (`next`, `prev`, `head`, `tail`; positions count from 1,
/// 0 ends the list). Each removal is pushed on a trail with the search
/// level at which it happened; a removed value keeps its links, so that
/// undoing the removals from the most recent on puts each one back in its
/// place.
#[derive(Debug, Clone, PartialEq)]
pub struct SetDom<T> {
    values: Vec<T>,
    present: Vec<bool>,
    next: Vec<usize>,
    prev: Vec<usize>,
    head: usize,
    tail: usize,
    trail: Vec<(usize, usize)>,
    size: usize,
}

/// The linked lists over the active values and over each removed value's
/// neighbours at its removal; `head` is the successor of a position before
/// all, `tail` the predecessor of one after all.
pub open spec fn links(
    p: Seq<bool>,
    t: Seq<(usize, usize)>,
    nx: Seq<usize>,
    pv: Seq<usize>,
    head: usize,
    tail: usize,
) -> bool {
    let top = t.len() as int;
    &&& nx.len() == p.len()
    &&& pv.len() == p.len()
    &&& forall|a: int|
        0 <= a < p.len() && #[trigger] p[a] ==> succ_ok(p, t, top, a, nx[a]) && pred_ok(p, t, top, a, pv[a])
    &&& forall|k: int|
        0 <= k < t.len() ==> succ_ok(p, t, k, (#[trigger] t[k]).0 as int, nx[t[k].0 as int]) && pred_ok(
            p,
            t,
            k,
            t[k].0 as int,
            pv[t[k].0 as int],
        )
    &&& pred_ok(p, t, top, p.len() as int, tail)
    &&& succ_ok(p, t, top, -1, head)
}

/// `b` is active, or was removed after trail entry `k`.
pub open spec fn member(p: Seq<bool>, t: Seq<(usize, usize)>, k: int, b: int) -> bool {
    (0 <= b < p.len() && p[b]) || exists|j: int| 0 <= j && k < j < t.len() && (#[trigger] t[j]).0 == b
}

/// Link `n` names the successor of `a` among the members for entry `k`.
pub open spec fn succ_ok(p: Seq<bool>, t: Seq<(usize, usize)>, k: int, a: int, n: usize) -> bool {
    if n == 0 {
        forall|b: int| #[trigger] member(p, t, k, b) && b != a ==> b < a
    } else {
        &&& member(p, t, k, n - 1)
        &&& a < n - 1
        &&& forall|b: int| #[trigger] member(p, t, k, b) ==> !(a < b < n - 1)
    }
}

/// Link `q` names the predecessor of `a` among the members for entry `k`.
pub open spec fn pred_ok(p: Seq<bool>, t: Seq<(usize, usize)>, k: int, a: int, q: usize) -> bool {
    if q == 0 {
        forall|b: int| #[trigger] member(p, t, k, b) && b != a ==> a < b
    } else {
        &&& member(p, t, k, q - 1)
        &&& q - 1 < a
        &&& forall|b: int| #[trigger] member(p, t, k, b) ==> !(q - 1 < b < a)
    }
}

impl<T> View for SetDom<T> {
    type V = TrailState<T>;

    closed spec fn view(&self) -> TrailState<T> {
        (self.values@, self.present@, self.trail@)
    }
}

impl<T: OrdT> SetDom<T> {
    pub closed spec fn wf(&self) -> bool {
        &&& state_wf(self@)
        &&& self.size == count_true(self.present@)
        &&& self.links_ok()
    }

    /// The links of active values name their neighbours among the active
    /// values; those of a removed value name its neighbours among the
    /// values active when it was removed.
    closed spec fn links_ok(&self) -> bool {
        links(self.present@, self.trail@, self.next@, self.prev@, self.head, self.tail)
    }

    /// The active values, in catalog order.
    pub open spec fn active(&self) -> Seq<T> {
        state_active(self@)
    }

    /// Builds a domain whose values are all active.
    pub fn new(values: Vec<T>) -> (r: SetDom<T>)
        requires
            distinct(values@),
        ensures
            r.wf(),
            r@.0 == values@,
            r@.2.len() == 0,
            r.active() == values@,
    {
        let d = values.len();
        let mut present: Vec<bool> = Vec::new();
        let mut next: Vec<usize> = Vec::new();
        let mut prev: Vec<usize> = Vec::new();
        let mut i: usize = 0;
        while i < d
            invariant
                i <= d,
                d == values@.len(),
                present@.len() == i,
                next@.len() == i,
                prev@.len() == i,
                forall|j: int| 0 <= j < i ==> #[trigger] present@[j],
                forall|j: int| 0 <= j < i ==> #[trigger] next@[j] == if j + 1 == d { 0 } else { j + 2 },
                forall|j: int| 0 <= j < i ==> #[trigger] prev@[j] == j,
                count_true(present@) == i,
                active_of(values@.subrange(0, i as int), present@) == values@.subrange(0, i as int),
            decreases d - i,
        {
            let ghost old_p = present@;
            present.push(true);
            next.push(if i + 1 == d { 0 } else { i + 2 });
            prev.push(i);
            assert(present@.drop_last() =~= old_p);
            assert(values@.subrange(0, i + 1).drop_last() =~= values@.subrange(0, i as int));
            i += 1;
            assert(values@.subrange(0, i as int) =~= values@.subrange(0, i - 1).push(values@[i - 1]));
        }
        assert(values@.subrange(0, d as int) =~= values@);
        let head: usize = if d == 0 { 0 } else { 1 };
        let r = SetDom { values, present, next, prev, head, tail: d, trail: Vec::new(), size: d };
        proof {
            let p = r.present@;
            let t = r.trail@;
            assert forall|b: int| #[trigger] member(p, t, 0, b) <==> 0 <= b < d by {}
            assert forall|a: int| 0 <= a < p.len() && #[trigger] p[a] implies succ_ok(p, t, 0, a, r.next@[a]) && pred_ok(p, t, 0, a, r.prev@[a]) by {
                if a + 1 < d {
                    assert(member(p, t, 0, a + 1));
                }
                if a > 0 {
                    assert(member(p, t, 0, a - 1));
                }
            }
            if d > 0 {
                assert(member(p, t, 0, d - 1));
                assert(member(p, t, 0, 0));
            }
            assert(r.links_ok());
        }
        r
    }

    /// Index of `v` in the catalog.
    fn position(&self, v: &T) -> (r: Option<usize>)
        requires
            self.wf(),
        ensures
            match r {
                Some(i) => i < self@.0.len() && self@.0[i as int] == *v,
                None => !self@.0.contains(*v),
            },
    {
        let mut i: usize = 0;
        while i < self.values.len()
            invariant
                i <= self.values@.len(),
                forall|j: int| 0 <= j < i ==> self.values@[j] != *v,
            decreases self.values.len() - i,
        {
            if self.values[i].same(v) {
                return Some(i);
            }
            i += 1;
        }
        None
    }

    proof fn lemma_count_bound(p: Seq<bool>)
        ensures
            count_true(p) <= p.len(),
        decreases p.len(),
    {
        if p.len() > 0 {
            Self::lemma_count_bound(p.drop_last());
        }
    }

    /// Deactivates catalog entry `i` at level `lvl`: unlinks it from the
    /// active list and pushes it on the trail.
    fn deactivate(&mut self, i: usize, lvl: usize)
        requires
            old(self).wf(),
            i < old(self)@.0.len(),
            old(self)@.1[i as int],
        ensures
            final(self).wf(),
            final(self)@ == state_remove(old(self)@, old(self)@.0[i as int], lvl),
            final(self)@ == (old(self)@.0, old(self)@.1.update(i as int, false), old(self)@.2.push((i, lvl))),
    {
        let ghost s = self@;
        proof {
            lemma_count_update(self.present@, i as int, false);
            let v = s.0[i as int];
            assert(0 <= i < s.0.len() && i < s.1.len() && s.0[i as int] == v && s.1[i as int]);
            let c = choose|c: int| 0 <= c < s.0.len() && c < s.1.len() && s.0[c] == v && s.1[c];
            assert(c == i);
        }
        let _d = self.present.len();
        let q = self.prev[i];
        let n = self.next[i];
        proof {
            lemma_unlink(self.present@, self.trail@, self.next@, self.prev@, self.head, self.tail, i as int, lvl);
        }
        if q == 0 {
            self.head = n;
        } else {
            self.next.set(q - 1, n);
        }
        if n == 0 {
            self.tail = q;
        } else {
            self.prev.set(n - 1, q);
        }
        self.present.set(i, false);
        self.trail.push((i, lvl));
        self.size = self.size - 1;
        proof {
            let t = self@;
            assert forall|k: int| 0 <= k < t.2.len() implies (#[trigger] t.2[k]).0 < t.1.len() && !t.1[t.2[k].0 as int] by {
                if k < s.2.len() {
                    assert(t.2[k] == s.2[k]);
                }
            }
            assert forall|k1: int, k2: int| 0 <= k1 < k2 < t.2.len() implies (#[trigger] t.2[k1]).0 != (#[trigger] t.2[k2]).0 by {
                assert(t.2[k1] == s.2[k1]);
                if k2 < s.2.len() {
                    assert(t.2[k2] == s.2[k2]);
                }
            }
        }
    }

    /// Re-activates the most recent removal, linking it back between the
    /// neighbours it had.
    fn relink_top(&mut self)
        requires
            old(self).wf(),
            old(self)@.2.len() > 0,
        ensures
            final(self).wf(),
            final(self)@ == (old(self)@.0, old(self)@.1.update(old(self)@.2.last().0 as int, true), old(self)@.2.drop_last()),
    {
        let ghost s = self@;
        // The catalog size, a usize, bounds the number of active values.
        let _d = self.present.len();
        let i = self.trail[self.trail.len() - 1].0;
        proof {
            assert(s.2[s.2.len() - 1].0 == i);
            lemma_relink(self.present@, self.trail@, self.next@, self.prev@, self.head, self.tail, i as int);
            lemma_count_update(s.1, i as int, true);
            Self::lemma_count_bound(s.1.update(i as int, true));
        }
        let _ = self.trail.pop();
        let q = self.prev[i];
        let n = self.next[i];
        if q == 0 {
            self.head = i + 1;
        } else {
            self.next.set(q - 1, i + 1);
        }
        if n == 0 {
            self.tail = i + 1;
        } else {
            self.prev.set(n - 1, i + 1);
        }
        self.present.set(i, true);
        self.size = self.size + 1;
        proof {
            let t = self@;
            assert(t.2 =~= s.2.drop_last());
            assert(t == (s.0, s.1.update(i as int, true), s.2.drop_last()));
            assert forall|k: int| 0 <= k < t.2.len() implies (#[trigger] t.2[k]).0 < t.1.len() && !t.1[t.2[k].0 as int] by {
                assert(t.2[k] == s.2[k]);
                assert(s.2[k].0 != s.2[s.2.len() - 1].0);
            }
            assert forall|k1: int, k2: int| 0 <= k1 < k2 < t.2.len() implies (#[trigger] t.2[k1]).0 != (#[trigger] t.2[k2]).0 by {
                assert(t.2[k1] == s.2[k1]);
                assert(t.2[k2] == s.2[k2]);
            }
        }
    }

    /// Removes `v` at level `lvl`. An already absent value is left as it
    /// is; a value outside the catalog is an error.
    pub fn remove_value(&mut self, v: &T, lvl: usize) -> (r: Result<(), DomainError<T>>)
        requires
            old(self).wf(),
        ensures
            final(self).wf(),
            final(self)@ == state_remove(old(self)@, *v, lvl),
            r.is_ok() == old(self)@.0.contains(*v),
            r.is_err() ==> r == Err::<(), DomainError<T>>(DomainError::UnknownValue(*v)),
            forall|x: T|
                final(self).active().contains(x) <==> old(self).active().contains(x) && x != *v,
            final(self).active().len() + (if old(self).active().contains(*v) {
                1int
            } else {
                0int
            }) == old(self).active().len(),
    {
        proof {
            lemma_remove_active(self@, *v, lvl);
        }
        match self.position(v) {
            None => {
                proof {
                    let s = self@;
                    if exists|i: int| 0 <= i < s.0.len() && i < s.1.len() && s.0[i] == *v && s.1[i] {
                        let i = choose|i: int| 0 <= i < s.0.len() && i < s.1.len() && s.0[i] == *v && s.1[i];
                        assert(s.0.contains(*v));
                    }
                }
                Err(DomainError::UnknownValue(v.duplicate()))
            },
            Some(i) => {
                if self.present[i] {
                    self.deactivate(i, lvl);
                } else {
                    proof {
                        let s = self@;
                        assert(!exists|c: int| 0 <= c < s.0.len() && c < s.1.len() && s.0[c] == *v && s.1[c]);
                    }
                }
                Ok(())
            },
        }
    }

    /// Reduces the domain to the single active value `v`, removing every
    /// other active value at level `lvl`. `v` must be active.
    pub fn reduce_to(&mut self, v: &T, lvl: usize) -> (r: Result<(), DomainError<T>>)
        requires
            old(self).wf(),
        ensures
            final(self).wf(),
            r.is_ok() == old(self).active().contains(*v),
            r.is_err() ==> r == Err::<(), DomainError<T>>(DomainError::UnknownValue(*v))
                && final(self)@ == old(self)@,
            r.is_ok() ==> final(self).active() == seq![*v],
            r.is_ok() ==> final(self)@.0 == old(self)@.0,
            r.is_ok() ==> state_restore(final(self)@, lvl) == state_restore(old(self)@, lvl),
    {
        proof {
            lemma_active_contains(self@.0, self@.1, *v);
        }
        let idx = match self.position(v) {
            None => {
                return Err(DomainError::UnknownValue(v.duplicate()));
            },
            Some(i) => i,
        };
        if !self.present[idx] {
            proof {
                assert forall|j: int| 0 <= j < self@.0.len() && self@.1[j] implies self@.0[j] != *v by {
                    if self@.0[j] == *v {
                        assert(j == idx);
                    }
                }
            }
            return Err(DomainError::UnknownValue(v.duplicate()));
        }
        let ghost s0 = self@;
        let mut i: usize = 0;
        while i < self.values.len()
            invariant
                self.wf(),
                self@.0 == s0.0,
                idx < s0.0.len(),
                s0.0[idx as int] == *v,
                self@.1[idx as int],
                i <= self@.0.len(),
                forall|j: int| 0 <= j < i && j != idx ==> !self@.1[j],
                state_restore(self@, lvl) == state_restore(s0, lvl),
            decreases self@.0.len() - i,
        {
            if i != idx && self.present[i] {
                let ghost before = self@;
                self.deactivate(i, lvl);
                proof {
                    lemma_restore_after_remove(before, before.0[i as int], lvl, lvl);
                }
            }
            i += 1;
        }
        proof {
            let s = self@;
            lemma_active_single(s.0, s.1, idx as int);
        }
        Ok(())
    }

    /// Undoes, most recent first, every removal made at a level `>= lvl`.
    pub fn restore_up_to(&mut self, lvl: usize)
        requires
            old(self).wf(),
        ensures
            final(self).wf(),
            final(self)@ == state_restore(old(self)@, lvl),
    {
        loop
            invariant
                self.wf(),
                state_restore(self@, lvl) == state_restore(old(self)@, lvl),
            ensures
                self.wf(),
                self@ == state_restore(old(self)@, lvl),
            decreases self.trail@.len(),
        {
            let n = self.trail.len();
            if n == 0 || self.trail[n - 1].1 < lvl {
                assert(state_restore(self@, lvl) == self@);
                break;
            }
            let ghost s = self@;
            self.relink_top();
            assert(self@ == (s.0, s.1.update(s.2.last().0 as int, true), s.2.drop_last()));
        }
    }
}

impl<T: OrdT> SetDom<T> {
    /// Re-activates `v`, which must be active already or the most recent
    /// removal: values come back in the reverse order of their removal. A
    /// value outside the catalog is an error.
    pub fn add_value(&mut self, v: &T) -> (r: Result<(), DomainError<T>>)
        requires
            old(self).wf(),
            old(self)@.0.contains(*v) && !old(self).active().contains(*v) ==> old(self)@.2.len() > 0
                && old(self)@.0[old(self)@.2.last().0 as int] == *v,
        ensures
            final(self).wf(),
            r.is_ok() == old(self)@.0.contains(*v),
            r.is_err() ==> r == Err::<(), DomainError<T>>(DomainError::UnknownValue(*v))
                && final(self)@ == old(self)@,
            r.is_ok() && old(self).active().contains(*v) ==> final(self)@ == old(self)@,
            r.is_ok() && !old(self).active().contains(*v) ==> final(self)@ == (
                old(self)@.0,
                old(self)@.1.update(old(self)@.2.last().0 as int, true),
                old(self)@.2.drop_last(),
            ),
            final(self).active().contains(*v) == old(self)@.0.contains(*v),
    {
        proof {
            lemma_active_contains(self@.0, self@.1, *v);
        }
        let idx = match self.position(v) {
            None => {
                return Err(DomainError::UnknownValue(v.duplicate()));
            },
            Some(i) => i,
        };
        if self.present[idx] {
            return Ok(());
        }
        proof {
            assert forall|j: int| 0 <= j < self@.0.len() && self@.1[j] implies self@.0[j] != *v by {
                if self@.0[j] == *v {
                    assert(j == idx);
                }
            }
            assert(self@.0[self@.2.last().0 as int] == *v);
            assert(self@.2.last().0 == idx);
        }
        self.relink_top();
        proof {
            lemma_active_contains(self@.0, self@.1, *v);
            assert(self@.1[idx as int]);
        }
        Ok(())
    }

    /// An independent copy of the domain.
    pub fn snapshot(&self) -> (r: Self)
        requires
            self.wf(),
        ensures
            r.wf(),
            r@ == self@,
    {
        let values = copy_values(&self.values);
        let mut present: Vec<bool> = Vec::new();
        let mut i: usize = 0;
        while i < self.present.len()
            invariant
                i <= self.present@.len(),
                present@ == self.present@.subrange(0, i as int),
            decreases self.present@.len() - i,
        {
            present.push(self.present[i]);
            i += 1;
            assert(present@ =~= self.present@.subrange(0, i as int));
        }
        let mut trail: Vec<(usize, usize)> = Vec::new();
        let mut k: usize = 0;
        while k < self.trail.len()
            invariant
                k <= self.trail@.len(),
                trail@ == self.trail@.subrange(0, k as int),
            decreases self.trail@.len() - k,
        {
            trail.push(self.trail[k]);
            k += 1;
            assert(trail@ =~= self.trail@.subrange(0, k as int));
        }
        assert(present@ =~= self.present@);
        assert(trail@ =~= self.trail@);
        let next = copy_positions(&self.next);
        let prev = copy_positions(&self.prev);
        SetDom { values, present, next, prev, head: self.head, tail: self.tail, trail, size: self.size }
    }

    /// The first active value.
    pub fn head(&self) -> (r: Option<T>)
        requires
            self.wf(),
        ensures
            r == (if self.active().len() == 0 {
                None
            } else {
                Some(self.active()[0])
            }),
    {
        let a = self.active_values();
        if a.len() == 0 {
            None
        } else {
            Some(a[0].duplicate())
        }
    }

    /// The last active value.
    pub fn tail(&self) -> (r: Option<T>)
        requires
            self.wf(),
        ensures
            r == (if self.active().len() == 0 {
                None
            } else {
                Some(self.active().last())
            }),
    {
        let a = self.active_values();
        if a.len() == 0 {
            None
        } else {
            Some(a[a.len() - 1].duplicate())
        }
    }

    /// The whole catalog, active or not.
    pub fn iter_all(&self) -> (r: &Vec<T>)
        ensures
            r@ == self@.0,
    {
        &self.values
    }

    /// The active values, in catalog order.
    pub fn iter_on_active(&self) -> (r: Vec<T>)
        requires
            self.wf(),
        ensures
            r@ == self.active(),
    {
        self.active_values()
    }
}

impl<T: OrdT> Domain<T> for SetDom<T> {
    open spec fn active_spec(&self) -> Seq<T> {
        self.active()
    }

    open spec fn initial_spec(&self) -> Seq<T> {
        self@.0
    }

    open spec fn well_formed(&self) -> bool {
        self.wf()
    }

    fn get_initial_values(&self) -> (r: &Vec<T>) {
        &self.values
    }

    /// Walks the list of active values from its head.
    fn active_values(&self) -> (r: Vec<T>) {
        assert(self.well_formed());
        assert(self.wf());
        let ghost p = self.present@;
        let ghost t = self.trail@;
        let ghost len = t.len() as int;
        let d = self.values.len();
        let mut r: Vec<T> = Vec::new();
        let mut cur = self.head;
        proof {
            assert(succ_ok(p, t, len, -1, cur));
            let c = if cur == 0 { d as int } else { cur - 1 };
            assert forall|b: int| 0 <= b < c implies !p[b] by {
                if p[b] {
                    assert(member(p, t, len, b));
                }
            }
            lemma_active_skip(self.values@, p, 0, c);
            assert(self.values@.subrange(0, 0) =~= Seq::<T>::empty());
        }
        while cur != 0
            invariant
                self.wf(),
                p == self.present@,
                t == self.trail@,
                len == t.len(),
                d == self.values@.len(),
                d == p.len(),
                cur <= d,
                cur != 0 ==> p[cur - 1],
                r@ == active_of(
                    self.values@.subrange(0, if cur == 0 { d as int } else { cur - 1 }),
                    p.subrange(0, if cur == 0 { d as int } else { cur - 1 }),
                ),
            decreases d - (if cur == 0 { d as int } else { cur - 1 }),
        {
            let a = cur - 1;
            r.push(self.values[a].duplicate());
            let nxt = self.next[a];
            proof {
                assert(member(p, t, len, a as int));
                assert(succ_ok(p, t, len, a as int, nxt));
                let c2 = if nxt == 0 { d as int } else { nxt - 1 };
                if nxt != 0 {
                    assert(member(p, t, len, nxt - 1));
                }
                assert forall|b: int| a + 1 <= b < c2 implies !p[b] by {
                    if p[b] {
                        assert(member(p, t, len, b));
                    }
                }
                assert(self.values@.subrange(0, a + 1).drop_last() =~= self.values@.subrange(0, a as int));
                assert(p.subrange(0, a + 1).drop_last() =~= p.subrange(0, a as int));
                lemma_active_skip(self.values@, p, a + 1, c2);
            }
            cur = nxt;
        }
        proof {
            assert(self.values@.subrange(0, d as int) =~= self.values@);
            assert(p.subrange(0, d as int) =~= p);
            assert(self@ == (self.values@, self.present@, self.trail@));
            assert(r@ == active_of(self.values@, p));
            assert(r@ == self.active());
            assert(self.active_spec() == self.active());
        }
        r
    }

    fn size(&self) -> (r: usize) {
        proof {
            lemma_active_len(self.values@, self.present@);
        }
        self.size
    }

    fn is_empty(&self) -> (r: bool) {
        self.size() == 0
    }

    fn min(&self) -> (r: Option<T>) {
        let a = self.active_values();
        min_value(&a)
    }

    fn max(&self) -> (r: Option<T>) {
        let a = self.active_values();
        max_value(&a)
    }
}

/// A plain ordered domain: every value is active.
#[derive(Debug, Clone, PartialEq)]
pub struct ExDom<T> {
    values: Vec<T>,
}

impl<T: OrdT> ExDom<T> {
    pub closed spec fn values_spec(&self) -> Seq<T> {
        self.values@
    }

    pub fn new(values: Vec<T>) -> (r: ExDom<T>)
        ensures
            r.values_spec() == values@,
    {
        ExDom { values }
    }

    pub fn get(&self) -> (r: &Vec<T>)
        ensures
            r@ == self.values_spec(),
    {
        &self.values
    }
}

impl<T: OrdT> Domain<T> for ExDom<T> {
    open spec fn active_spec(&self) -> Seq<T> {
        self.values_spec()
    }

    open spec fn initial_spec(&self) -> Seq<T> {
        self.values_spec()
    }

    open spec fn well_formed(&self) -> bool {
        true
    }

    fn get_initial_values(&self) -> (r: &Vec<T>) {
        &self.values
    }

    fn active_values(&self) -> (r: Vec<T>) {
        copy_values(&self.values)
    }

    fn size(&self) -> (r: usize) {
        self.values.len()
    }

    fn is_empty(&self) -> (r: bool) {
        self.values.len() == 0
    }

    fn min(&self) -> (r: Option<T>) {
        min_value(&self.values)
    }

    fn max(&self) -> (r: Option<T>) {
        max_value(&self.values)
    }
}

/// The successor links once position `i` is unlinked.
pub open spec fn unlink_next(nx: Seq<usize>, pv: Seq<usize>, i: int) -> Seq<usize> {
    if pv[i] == 0 {
        nx
    } else {
        nx.update(pv[i] - 1, nx[i])
    }
}

/// The predecessor links once position `i` is unlinked.
pub open spec fn unlink_prev(nx: Seq<usize>, pv: Seq<usize>, i: int) -> Seq<usize> {
    if nx[i] == 0 {
        pv
    } else {
        pv.update(nx[i] - 1, pv[i])
    }
}

/// The membership sets once active position `i` is pushed on the trail.
proof fn lemma_member_push(p: Seq<bool>, t: Seq<(usize, usize)>, i: int, lvl: usize)
    requires
        0 <= i < p.len(),
        i <= usize::MAX,
        p[i],
    ensures
        forall|k: int, b: int|
            k < t.len() ==> #[trigger] member(p.update(i, false), t.push((i as usize, lvl)), k, b)
                == member(p, t, k, b),
        forall|k: int, b: int|
            t.len() <= k ==> #[trigger] member(p.update(i, false), t.push((i as usize, lvl)), k, b)
                == (member(p, t, t.len() as int, b) && b != i),
{
    let p2 = p.update(i, false);
    let t2 = t.push((i as usize, lvl));
    let len = t.len() as int;
    assert(t2[len] == (i as usize, lvl));
    assert forall|k: int, b: int| k < len implies #[trigger] member(p2, t2, k, b) == member(p, t, k, b) by {
        if member(p, t, k, b) {
            if 0 <= b < p.len() && p[b] {
                if b == i {
                    assert(0 <= len && k < len < t2.len() && t2[len].0 == b);
                } else {
                    assert(p2[b]);
                }
            } else {
                let j = choose|j: int| 0 <= j && k < j < t.len() && (#[trigger] t[j]).0 == b;
                assert(t2[j] == t[j]);
            }
        }
        if member(p2, t2, k, b) {
            if !(0 <= b < p2.len() && p2[b]) {
                let j = choose|j: int| 0 <= j && k < j < t2.len() && (#[trigger] t2[j]).0 == b;
                if j < len {
                    assert(t2[j] == t[j]);
                } else {
                    assert(b == i);
                }
            }
        }
    }
    assert forall|k: int, b: int| len <= k implies #[trigger] member(p2, t2, k, b) == (member(p, t, len, b) && b != i) by {
        if member(p2, t2, k, b) && !(0 <= b < p2.len() && p2[b]) {
            let j = choose|j: int| 0 <= j && k < j < t2.len() && (#[trigger] t2[j]).0 == b;
        }
    }
}

/// After unlinking `i`, the active positions still link to their
/// neighbours.
#[verifier::rlimit(40)]
proof fn lemma_unlink_active(
    p: Seq<bool>,
    t: Seq<(usize, usize)>,
    nx: Seq<usize>,
    pv: Seq<usize>,
    head: usize,
    tail: usize,
    i: int,
    lvl: usize,
)
    requires
        links(p, t, nx, pv, head, tail),
        0 <= i < p.len(),
        p.len() <= usize::MAX,
        p[i],
    ensures
        forall|a: int|
            0 <= a < p.len() && #[trigger] p.update(i, false)[a] ==> succ_ok(
                p.update(i, false),
                t.push((i as usize, lvl)),
                t.len() + 1 as int,
                a,
                unlink_next(nx, pv, i)[a],
            ) && pred_ok(p.update(i, false), t.push((i as usize, lvl)), t.len() + 1 as int, a, unlink_prev(nx, pv, i)[a]),
{
    lemma_member_push(p, t, i, lvl);
    let q = pv[i];
    let n = nx[i];
    let p2 = p.update(i, false);
    let t2 = t.push((i as usize, lvl));
    let nx2 = unlink_next(nx, pv, i);
    let pv2 = unlink_prev(nx, pv, i);
    let len = t.len() as int;
    assert(succ_ok(p, t, len, i, n) && pred_ok(p, t, len, i, q));
    assert forall|a: int| 0 <= a < p.len() && #[trigger] p2[a] implies succ_ok(p2, t2, len + 1, a, nx2[a])
        && pred_ok(p2, t2, len + 1, a, pv2[a]) by {
        assert(p[a] && a != i);
        assert(succ_ok(p, t, len, a, nx[a]) && pred_ok(p, t, len, a, pv[a]));
        if q != 0 && a == q - 1 {
            assert(nx2[a] == n);
            if n == 0 {
                assert forall|b: int| #[trigger] member(p2, t2, len + 1, b) && b != a implies b < a by {
                    assert(member(p, t, len, b));
                }
            } else {
                assert(member(p, t, len, n - 1));
                assert forall|b: int| #[trigger] member(p2, t2, len + 1, b) implies !(a < b < n - 1) by {
                    assert(member(p, t, len, b));
                }
            }
        } else {
            assert(nx2[a] == nx[a]);
            let m = nx[a];
            if m != 0 {
                if m - 1 == i {
                    if q == 0 {
                        assert(member(p, t, len, a));
                    } else {
                        assert(member(p, t, len, q - 1));
                        assert(member(p, t, len, a));
                    }
                }
                assert(member(p2, t2, len + 1, m - 1));
            }
            assert forall|b: int| #[trigger] member(p2, t2, len + 1, b) implies member(p, t, len, b) by {}
        }
        if n != 0 && a == n - 1 {
            assert(pv2[a] == q);
            if q == 0 {
                assert forall|b: int| #[trigger] member(p2, t2, len + 1, b) && b != a implies a < b by {
                    assert(member(p, t, len, b));
                }
            } else {
                assert(member(p, t, len, q - 1));
                assert forall|b: int| #[trigger] member(p2, t2, len + 1, b) implies !(q - 1 < b < a) by {
                    assert(member(p, t, len, b));
                }
            }
        } else {
            assert(pv2[a] == pv[a]);
            let m = pv[a];
            if m != 0 {
                if m - 1 == i {
                    if n == 0 {
                        assert(member(p, t, len, a));
                    } else {
                        assert(member(p, t, len, n - 1));
                        assert(member(p, t, len, a));
                    }
                }
                assert(member(p2, t2, len + 1, m - 1));
            }
            assert forall|b: int| #[trigger] member(p2, t2, len + 1, b) implies member(p, t, len, b) by {}
        }
    }
}

/// After unlinking `i`, each trail entry, `i`'s own included, still links
/// to its neighbours at its removal.
#[verifier::rlimit(40)]
proof fn lemma_unlink_trail(
    p: Seq<bool>,
    t: Seq<(usize, usize)>,
    nx: Seq<usize>,
    pv: Seq<usize>,
    head: usize,
    tail: usize,
    i: int,
    lvl: usize,
)
    requires
        links(p, t, nx, pv, head, tail),
        0 <= i < p.len(),
        p.len() <= usize::MAX,
        p[i],
        forall|k: int| 0 <= k < t.len() ==> (#[trigger] t[k]).0 < p.len() && !p[t[k].0 as int],
    ensures
        forall|k: int|
            0 <= k < t.len() + 1 ==> succ_ok(
                p.update(i, false),
                t.push((i as usize, lvl)),
                k,
                (#[trigger] t.push((i as usize, lvl))[k]).0 as int,
                unlink_next(nx, pv, i)[t.push((i as usize, lvl))[k].0 as int],
            ) && pred_ok(
                p.update(i, false),
                t.push((i as usize, lvl)),
                k,
                t.push((i as usize, lvl))[k].0 as int,
                unlink_prev(nx, pv, i)[t.push((i as usize, lvl))[k].0 as int],
            ),
{
    lemma_member_push(p, t, i, lvl);
    let q = pv[i];
    let n = nx[i];
    let p2 = p.update(i, false);
    let t2 = t.push((i as usize, lvl));
    let nx2 = unlink_next(nx, pv, i);
    let pv2 = unlink_prev(nx, pv, i);
    let len = t.len() as int;
    assert(succ_ok(p, t, len, i, n) && pred_ok(p, t, len, i, q));
    assert forall|k: int| 0 <= k < t2.len() implies succ_ok(p2, t2, k, (#[trigger] t2[k]).0 as int, nx2[t2[k].0 as int])
        && pred_ok(p2, t2, k, t2[k].0 as int, pv2[t2[k].0 as int]) by {
        let e = t2[k].0 as int;
        if k < len {
            assert(t2[k] == t[k]);
            assert(!p[e]);
            if q != 0 {
                assert(member(p, t, len, q - 1));
            }
            if n != 0 {
                assert(member(p, t, len, n - 1));
            }
            assert(nx2[e] == nx[e] && pv2[e] == pv[e]);
            assert(succ_ok(p, t, k, e, nx[e]) && pred_ok(p, t, k, e, pv[e]));
        } else {
            assert(e == i);
            assert(nx2[e] == n && pv2[e] == q);
            if n != 0 {
                assert(member(p2, t2, k, n - 1));
            }
            if q != 0 {
                assert(member(p2, t2, k, q - 1));
            }
            assert forall|b: int| #[trigger] member(p2, t2, k, b) implies member(p, t, len, b) && b != i by {}
        }
    }
}

/// Unlinking active position `i` and pushing it on the trail keeps the
/// links right: its neighbours are joined, and `i` keeps links to them.
proof fn lemma_unlink(
    p: Seq<bool>,
    t: Seq<(usize, usize)>,
    nx: Seq<usize>,
    pv: Seq<usize>,
    head: usize,
    tail: usize,
    i: int,
    lvl: usize,
)
    requires
        links(p, t, nx, pv, head, tail),
        0 <= i < p.len(),
        p.len() <= usize::MAX,
        p[i],
        forall|k: int| 0 <= k < t.len() ==> (#[trigger] t[k]).0 < p.len() && !p[t[k].0 as int],
    ensures
        links(
            p.update(i, false),
            t.push((i as usize, lvl)),
            unlink_next(nx, pv, i),
            unlink_prev(nx, pv, i),
            if pv[i] == 0 {
                nx[i]
            } else {
                head
            },
            if nx[i] == 0 {
                pv[i]
            } else {
                tail
            },
        ),
{
    lemma_member_push(p, t, i, lvl);
    lemma_unlink_active(p, t, nx, pv, head, tail, i, lvl);
    lemma_unlink_trail(p, t, nx, pv, head, tail, i, lvl);
    let q = pv[i];
    let n = nx[i];
    let p2 = p.update(i, false);
    let t2 = t.push((i as usize, lvl));
    let len = t.len() as int;
    let d = p.len() as int;
    let h2 = if q == 0 {
        n
    } else {
        head
    };
    let tl2 = if n == 0 {
        q
    } else {
        tail
    };
    assert(succ_ok(p, t, len, i, n) && pred_ok(p, t, len, i, q));
    assert(pred_ok(p, t, len, d, tail) && succ_ok(p, t, len, -1, head));
    assert forall|b: int| #[trigger] member(p2, t2, len + 1, b) implies member(p, t, len, b) && b != i by {}
    if n == 0 {
        if q != 0 {
            assert(member(p2, t2, len + 1, q - 1));
        }
    } else {
        assert(member(p, t, len, n - 1));
        if tail == 0 {
            assert(member(p, t, len, i));
        } else if tail - 1 == i {
            assert(member(p, t, len, n - 1));
        }
        assert(member(p2, t2, len + 1, tail - 1));
    }
    if q == 0 {
        if n != 0 {
            assert(member(p2, t2, len + 1, n - 1));
        }
    } else {
        assert(member(p, t, len, q - 1));
        if head == 0 {
            assert(member(p, t, len, i));
        } else if head - 1 == i {
            assert(member(p, t, len, q - 1));
        }
        assert(member(p2, t2, len + 1, head - 1));
    }
    assert(pred_ok(p2, t2, len + 1, d, tl2));
    assert(succ_ok(p2, t2, len + 1, -1, h2));
    assert(unlink_next(nx, pv, i).len() == p2.len());
    assert(unlink_prev(nx, pv, i).len() == p2.len());
}

/// The successor links once the most recent removal `i` is linked back.
pub open spec fn relink_next(nx: Seq<usize>, pv: Seq<usize>, i: int) -> Seq<usize> {
    if pv[i] == 0 {
        nx
    } else {
        nx.update(pv[i] - 1, (i + 1) as usize)
    }
}

/// The predecessor links once the most recent removal `i` is linked back.
pub open spec fn relink_prev(nx: Seq<usize>, pv: Seq<usize>, i: int) -> Seq<usize> {
    if nx[i] == 0 {
        pv
    } else {
        pv.update(nx[i] - 1, (i + 1) as usize)
    }
}

/// The membership sets once the most recent removal `i` is active again.
proof fn lemma_member_pop(p: Seq<bool>, t: Seq<(usize, usize)>, i: int)
    requires
        t.len() > 0,
        i == t.last().0,
        0 <= i < p.len(),
    ensures
        forall|k: int, b: int|
            k < t.len() - 1 ==> #[trigger] member(p.update(i, true), t.drop_last(), k, b) == member(p, t, k, b),
        forall|k: int, b: int|
            t.len() - 1 <= k ==> #[trigger] member(p.update(i, true), t.drop_last(), k, b) == (member(
                p,
                t,
                t.len() - 1,
                b,
            ) || b == i),
{
    let p2 = p.update(i, true);
    let t2 = t.drop_last();
    let top = t.len() - 1;
    assert forall|k: int, b: int| k < top implies #[trigger] member(p2, t2, k, b) == member(p, t, k, b) by {
        if member(p, t, k, b) && !(0 <= b < p.len() && p[b]) {
            let j = choose|j: int| 0 <= j && k < j < t.len() && (#[trigger] t[j]).0 == b;
            if j < top {
                assert(t2[j] == t[j]);
            } else {
                assert(p2[b]);
            }
        }
        if member(p2, t2, k, b) {
            if 0 <= b < p2.len() && p2[b] {
                if b == i {
                    assert(0 <= top && k < top < t.len() && t[top].0 == b);
                }
            } else {
                let j = choose|j: int| 0 <= j && k < j < t2.len() && (#[trigger] t2[j]).0 == b;
                assert(t2[j] == t[j]);
            }
        }
    }
    assert forall|k: int, b: int| top <= k implies #[trigger] member(p2, t2, k, b) == (member(p, t, top, b) || b == i) by {
        if member(p2, t2, k, b) && !(0 <= b < p2.len() && p2[b]) {
            let j = choose|j: int| 0 <= j && k < j < t2.len() && (#[trigger] t2[j]).0 == b;
        }
        if member(p, t, top, b) && !(0 <= b < p.len() && p[b]) {
            let j = choose|j: int| 0 <= j && top < j < t.len() && (#[trigger] t[j]).0 == b;
        }
    }
}

/// After linking `i` back, the active positions link to their successors.
#[verifier::rlimit(40)]
proof fn lemma_relink_active_succ(
    p: Seq<bool>,
    t: Seq<(usize, usize)>,
    nx: Seq<usize>,
    pv: Seq<usize>,
    head: usize,
    tail: usize,
    i: int,
)
    requires
        links(p, t, nx, pv, head, tail),
        t.len() > 0,
        i == t.last().0,
        0 <= i < p.len(),
        p.len() <= usize::MAX,
        !p[i],
    ensures
        forall|a: int|
            0 <= a < p.len() && #[trigger] p.update(i, true)[a] ==> succ_ok(
                p.update(i, true),
                t.drop_last(),
                t.len() - 1,
                a,
                relink_next(nx, pv, i)[a],
            ),
{
    lemma_member_pop(p, t, i);
    let q = pv[i];
    let n = nx[i];
    let p2 = p.update(i, true);
    let t2 = t.drop_last();
    let nx2 = relink_next(nx, pv, i);
    let pv2 = relink_prev(nx, pv, i);
    let len = t.len() as int;
    let top = len - 1;
    assert(t[top] == t[top]);
    assert(succ_ok(p, t, top, i, n) && pred_ok(p, t, top, i, q));
    assert forall|b: int| #[trigger] member(p, t, top, b) == member(p, t, len, b) by {
        if member(p, t, top, b) && !(0 <= b < p.len() && p[b]) {
            let j = choose|j: int| 0 <= j && top < j < t.len() && (#[trigger] t[j]).0 == b;
        }
    }
    assert forall|a: int| 0 <= a < p.len() && #[trigger] p2[a] implies succ_ok(p2, t2, top, a, nx2[a]) by {
        if a == i {
            if q != 0 {
                assert(member(p, t, top, q - 1));
            }
            assert(nx2[a] == n && pv2[a] == q);
            if n != 0 {
                assert(member(p, t, top, n - 1));
            }
            assert forall|b: int| #[trigger] member(p2, t2, top, b) && b != i implies member(p, t, top, b) by {}
        } else {
            assert(p[a]);
            assert(member(p, t, len, a));
            assert(succ_ok(p, t, len, a, nx[a]) && pred_ok(p, t, len, a, pv[a]));
            if q != 0 && a == q - 1 {
                assert(nx2[a] == i + 1);
                assert(member(p2, t2, top, i));
                assert forall|b: int| #[trigger] member(p2, t2, top, b) implies !(a < b < i) by {
                    if b != i {
                        assert(member(p, t, top, b));
                    }
                }
            } else {
                assert(nx2[a] == nx[a]);
                let m = nx[a];
                if q != 0 {
                    assert(member(p, t, top, q - 1));
                    assert(member(p, t, len, q - 1));
                }
                if m == 0 {
                    assert forall|b: int| #[trigger] member(p2, t2, top, b) && b != a implies b < a by {
                        if b != i {
                            assert(member(p, t, len, b));
                        } else {
                            assert(member(p, t, top, a));
                            if q != 0 {
                                assert(member(p, t, len, q - 1));
                            }
                        }
                    }
                } else {
                    assert(member(p, t, len, m - 1));
                    assert(member(p2, t2, top, m - 1));
                    assert forall|b: int| #[trigger] member(p2, t2, top, b) implies !(a < b < m - 1) by {
                        if b != i {
                            assert(member(p, t, len, b));
                        } else {
                            assert(member(p, t, top, a));
                            if q != 0 {
                                assert(member(p, t, len, q - 1));
                            }
                        }
                    }
                }
            }
        }
    }
}

/// After linking `i` back, the active positions link to their predecessors.
#[verifier::rlimit(40)]
proof fn lemma_relink_active_pred(
    p: Seq<bool>,
    t: Seq<(usize, usize)>,
    nx: Seq<usize>,
    pv: Seq<usize>,
    head: usize,
    tail: usize,
    i: int,
)
    requires
        links(p, t, nx, pv, head, tail),
        t.len() > 0,
        i == t.last().0,
        0 <= i < p.len(),
        p.len() <= usize::MAX,
        !p[i],
    ensures
        forall|a: int|
            0 <= a < p.len() && #[trigger] p.update(i, true)[a] ==> pred_ok(
                p.update(i, true),
                t.drop_last(),
                t.len() - 1,
                a,
                relink_prev(nx, pv, i)[a],
            ),
{
    lemma_member_pop(p, t, i);
    let q = pv[i];
    let n = nx[i];
    let p2 = p.update(i, true);
    let t2 = t.drop_last();
    let nx2 = relink_next(nx, pv, i);
    let pv2 = relink_prev(nx, pv, i);
    let len = t.len() as int;
    let top = len - 1;
    assert(t[top] == t[top]);
    assert(succ_ok(p, t, top, i, n) && pred_ok(p, t, top, i, q));
    assert forall|b: int| #[trigger] member(p, t, top, b) == member(p, t, len, b) by {
        if member(p, t, top, b) && !(0 <= b < p.len() && p[b]) {
            let j = choose|j: int| 0 <= j && top < j < t.len() && (#[trigger] t[j]).0 == b;
        }
    }
    assert forall|a: int| 0 <= a < p.len() && #[trigger] p2[a] implies pred_ok(p2, t2, top, a, pv2[a]) by {
        if a == i {
            if q != 0 {
                assert(member(p, t, top, q - 1));
            }
            assert(nx2[a] == n && pv2[a] == q);
            if n != 0 {
                assert(member(p, t, top, n - 1));
            }
            assert forall|b: int| #[trigger] member(p2, t2, top, b) && b != i implies member(p, t, top, b) by {}
        } else {
            assert(p[a]);
            assert(member(p, t, len, a));
            assert(succ_ok(p, t, len, a, nx[a]) && pred_ok(p, t, len, a, pv[a]));
            if n != 0 && a == n - 1 {
                assert(pv2[a] == i + 1);
                assert(member(p2, t2, top, i));
                assert forall|b: int| #[trigger] member(p2, t2, top, b) implies !(i < b < a) by {
                    if b != i {
                        assert(member(p, t, top, b));
                    }
                }
            } else {
                assert(pv2[a] == pv[a]);
                let m = pv[a];
                if n != 0 {
                    assert(member(p, t, top, n - 1));
                    assert(member(p, t, len, n - 1));
                }
                if m == 0 {
                    assert forall|b: int| #[trigger] member(p2, t2, top, b) && b != a implies a < b by {
                        if b != i {
                            assert(member(p, t, len, b));
                        } else {
                            assert(member(p, t, top, a));
                            if n != 0 {
                                assert(member(p, t, len, n - 1));
                            }
                        }
                    }
                } else {
                    assert(member(p, t, len, m - 1));
                    assert(member(p2, t2, top, m - 1));
                    assert forall|b: int| #[trigger] member(p2, t2, top, b) implies !(m - 1 < b < a) by {
                        if b != i {
                            assert(member(p, t, len, b));
                        } else {
                            assert(member(p, t, top, a));
                            if n != 0 {
                                assert(member(p, t, len, n - 1));
                            }
                        }
                    }
                }
            }
        }
    }
}

/// Linking the most recent removal back keeps the links right.
#[verifier::rlimit(40)]
proof fn lemma_relink(
    p: Seq<bool>,
    t: Seq<(usize, usize)>,
    nx: Seq<usize>,
    pv: Seq<usize>,
    head: usize,
    tail: usize,
    i: int,
)
    requires
        links(p, t, nx, pv, head, tail),
        t.len() > 0,
        i == t.last().0,
        0 <= i < p.len(),
        p.len() <= usize::MAX,
        !p[i],
        forall|k: int| 0 <= k < t.len() ==> (#[trigger] t[k]).0 < p.len() && !p[t[k].0 as int],
        forall|k1: int, k2: int| 0 <= k1 < k2 < t.len() ==> (#[trigger] t[k1]).0 != (#[trigger] t[k2]).0,
    ensures
        links(
            p.update(i, true),
            t.drop_last(),
            relink_next(nx, pv, i),
            relink_prev(nx, pv, i),
            if pv[i] == 0 {
                (i + 1) as usize
            } else {
                head
            },
            if nx[i] == 0 {
                (i + 1) as usize
            } else {
                tail
            },
        ),
{
    lemma_member_pop(p, t, i);
    lemma_relink_active_succ(p, t, nx, pv, head, tail, i);
    lemma_relink_active_pred(p, t, nx, pv, head, tail, i);
    let q = pv[i];
    let n = nx[i];
    let p2 = p.update(i, true);
    let t2 = t.drop_last();
    let nx2 = relink_next(nx, pv, i);
    let pv2 = relink_prev(nx, pv, i);
    let len = t.len() as int;
    let top = len - 1;
    let d = p.len() as int;
    assert(t[top] == t[top]);
    assert(succ_ok(p, t, top, i, n) && pred_ok(p, t, top, i, q));
    assert forall|b: int| #[trigger] member(p, t, top, b) == member(p, t, len, b) by {
        if member(p, t, top, b) && !(0 <= b < p.len() && p[b]) {
            let j = choose|j: int| 0 <= j && top < j < t.len() && (#[trigger] t[j]).0 == b;
        }
    }
    assert forall|k: int| 0 <= k < t2.len() implies succ_ok(p2, t2, k, (#[trigger] t2[k]).0 as int, nx2[t2[k].0 as int])
        && pred_ok(p2, t2, k, t2[k].0 as int, pv2[t2[k].0 as int]) by {
        let e = t2[k].0 as int;
        assert(t2[k] == t[k]);
        assert(!p[e]);
        assert(e != i);
        if q != 0 {
            assert(member(p, t, top, q - 1));
        }
        if n != 0 {
            assert(member(p, t, top, n - 1));
        }
        assert(nx2[e] == nx[e] && pv2[e] == pv[e]);
        assert(succ_ok(p, t, k, e, nx[e]) && pred_ok(p, t, k, e, pv[e]));
    }
    assert(pred_ok(p, t, len, d, tail) && succ_ok(p, t, len, -1, head));
    let h2 = if q == 0 {
        (i + 1) as usize
    } else {
        head
    };
    let tl2 = if n == 0 {
        (i + 1) as usize
    } else {
        tail
    };
    assert(member(p2, t2, top, i));
    if n == 0 {
        assert forall|b: int| #[trigger] member(p2, t2, top, b) implies !(i < b < d) by {
            if b != i {
                assert(member(p, t, top, b));
            }
        }
    } else {
        assert(member(p, t, top, n - 1));
        assert(member(p, t, len, n - 1));
        assert(member(p2, t2, top, tail - 1));
        assert forall|b: int| #[trigger] member(p2, t2, top, b) implies !(tail - 1 < b < d) by {
            if b != i {
                assert(member(p, t, len, b));
            }
        }
    }
    if q == 0 {
        assert forall|b: int| #[trigger] member(p2, t2, top, b) implies !(-1 < b < i) by {
            if b != i {
                assert(member(p, t, top, b));
            }
        }
    } else {
        assert(member(p, t, top, q - 1));
        assert(member(p, t, len, q - 1));
        assert(member(p2, t2, top, head - 1));
        assert forall|b: int| #[trigger] member(p2, t2, top, b) implies !(-1 < b < head - 1) by {
            if b != i {
                assert(member(p, t, len, b));
            }
        }
    }
    assert(pred_ok(p2, t2, top, d, tl2));
    assert(succ_ok(p2, t2, top, -1, h2));
    assert(nx2.len() == p2.len() && pv2.len() == p2.len());
}

/// Catalog entries that are all absent add nothing to the active values.
proof fn lemma_active_skip<T>(values: Seq<T>, present: Seq<bool>, from: int, to: int)
    requires
        values.len() == present.len(),
        0 <= from <= to <= values.len(),
        forall|b: int| from <= b < to ==> !present[b],
    ensures
        active_of(values.subrange(0, to), present.subrange(0, to)) == active_of(
            values.subrange(0, from),
            present.subrange(0, from),
        ),
    decreases to - from,
{
    if from < to {
        lemma_active_skip(values, present, from, to - 1);
        assert(values.subrange(0, to).drop_last() =~= values.subrange(0, to - 1));
        assert(present.subrange(0, to).drop_last() =~= present.subrange(0, to - 1));
    }
}

proof fn lemma_active_single<T>(values: Seq<T>, present: Seq<bool>, idx: int)
    requires
        values.len() == present.len(),
        0 <= idx < values.len(),
        forall|j: int| 0 <= j < present.len() ==> present[j] == (j == idx),
    ensures
        active_of(values, present) == seq![values[idx]],
    decreases values.len(),
{
    let n = values.len() - 1;
    if idx == n {
        lemma_active_none(values.drop_last(), present.drop_last());
    } else {
        lemma_active_single(values.drop_last(), present.drop_last(), idx);
    }
}

proof fn lemma_active_none<T>(values: Seq<T>, present: Seq<bool>)
    requires
        values.len() == present.len(),
        forall|j: int| 0 <= j < present.len() ==> !present[j],
    ensures
        active_of(values, present) == Seq::<T>::empty(),
    decreases values.len(),
{
    if values.len() > 0 {
        lemma_active_none(values.drop_last(), present.drop_last());
    }
}

} // verus!
