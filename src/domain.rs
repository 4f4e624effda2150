use vstd::prelude::*;
use crate::value::OrdT;

verus! {

/// The model of a trailed domain: the initial catalog of values, which of
/// them are active, and the trail of removals as (catalog index, level),
/// most recent last.
pub type TrailState<T> = (Seq<T>, Seq<bool>, Seq<(usize, usize)>);

/// No value occurs twice.
pub open spec fn distinct<T>(s: Seq<T>) -> bool {
    forall|i: int, j: int| 0 <= i < j < s.len() ==> s[i] != s[j]
}

/// The values of `values` whose flag in `present` is set, in catalog order.
pub open spec fn active_of<T>(values: Seq<T>, present: Seq<bool>) -> Seq<T>
    decreases values.len(),
{
    if values.len() == 0 || present.len() == 0 {
        seq![]
    } else {
        let rest = active_of(values.drop_last(), present.drop_last());
        if present.last() {
            rest.push(values.last())
        } else {
            rest
        }
    }
}

/// Number of set flags.
pub open spec fn count_true(p: Seq<bool>) -> nat
    decreases p.len(),
{
    if p.len() == 0 {
        0
    } else {
        count_true(p.drop_last()) + if p.last() {
            1nat
        } else {
            0nat
        }
    }
}

pub open spec fn state_wf<T>(s: TrailState<T>) -> bool {
    &&& s.0.len() == s.1.len()
    &&& distinct(s.0)
    &&& forall|k: int|
        0 <= k < s.2.len() ==> (#[trigger] s.2[k]).0 < s.1.len() && !s.1[s.2[k].0 as int]
    &&& forall|k1: int, k2: int|
        0 <= k1 < k2 < s.2.len() ==> (#[trigger] s.2[k1]).0 != (#[trigger] s.2[k2]).0
}

pub open spec fn state_active<T>(s: TrailState<T>) -> Seq<T> {
    active_of(s.0, s.1)
}

/// Removing `v` at level `lvl`: an active `v` is deactivated and pushed on
/// the trail; anything else leaves the state as it is.
pub open spec fn state_remove<T>(s: TrailState<T>, v: T, lvl: usize) -> TrailState<T> {
    if exists|i: int| 0 <= i < s.0.len() && i < s.1.len() && s.0[i] == v && s.1[i] {
        let i = choose|i: int| 0 <= i < s.0.len() && i < s.1.len() && s.0[i] == v && s.1[i];
        (s.0, s.1.update(i, false), s.2.push((i as usize, lvl)))
    } else {
        s
    }
}

/// A sequence of removals, applied first to last.
pub open spec fn state_remove_all<T>(s: TrailState<T>, ops: Seq<(T, usize)>) -> TrailState<T>
    decreases ops.len(),
{
    if ops.len() == 0 {
        s
    } else {
        state_remove(state_remove_all(s, ops.drop_last()), ops.last().0, ops.last().1)
    }
}

/// Undoing, most recent first, every removal made at a level `>= lvl`.
pub open spec fn state_restore<T>(s: TrailState<T>, lvl: usize) -> TrailState<T>
    decreases s.2.len(),
{
    if s.2.len() > 0 && s.2.last().1 >= lvl {
        let i = s.2.last().0;
        state_restore((s.0, s.1.update(i as int, true), s.2.drop_last()), lvl)
    } else {
        s
    }
}

pub proof fn lemma_active_len<T>(values: Seq<T>, present: Seq<bool>)
    requires
        values.len() == present.len(),
    ensures
        active_of(values, present).len() == count_true(present),
    decreases values.len(),
{
    if values.len() > 0 {
        lemma_active_len(values.drop_last(), present.drop_last());
    }
}

pub proof fn lemma_active_contains<T>(values: Seq<T>, present: Seq<bool>, x: T)
    requires
        values.len() == present.len(),
    ensures
        active_of(values, present).contains(x) <==> exists|i: int|
            0 <= i < values.len() && present[i] && values[i] == x,
    decreases values.len(),
{
    if values.len() > 0 {
        let vs = values.drop_last();
        let ps = present.drop_last();
        lemma_active_contains(vs, ps, x);
        let rest = active_of(vs, ps);
        if active_of(values, present).contains(x) {
            if rest.contains(x) {
                let i = choose|i: int| 0 <= i < vs.len() && ps[i] && vs[i] == x;
                assert(present[i] && values[i] == x);
            } else {
                let n = values.len() - 1;
                let j = choose|j: int|
                    0 <= j < active_of(values, present).len() && active_of(values, present)[j]
                        == x;
                assert(j == rest.len());
                assert(present[n] && values[n] == x);
            }
        }
        if exists|i: int| 0 <= i < values.len() && present[i] && values[i] == x {
            let i = choose|i: int| 0 <= i < values.len() && present[i] && values[i] == x;
            if i < values.len() - 1 {
                assert(ps[i] && vs[i] == x);
                let j = choose|j: int| 0 <= j < rest.len() && rest[j] == x;
                if present.last() {
                    assert(active_of(values, present)[j] == x);
                }
            } else {
                assert(active_of(values, present)[rest.len() as int] == x);
            }
        }
    }
}

pub proof fn lemma_count_update(p: Seq<bool>, i: int, b: bool)
    requires
        0 <= i < p.len(),
    ensures
        count_true(p.update(i, b)) + (if p[i] {
            1int
        } else {
            0int
        }) == count_true(p) + (if b {
            1int
        } else {
            0int
        }),
    decreases p.len(),
{
    let q = p.update(i, b);
    if i == p.len() - 1 {
        assert(q.drop_last() =~= p.drop_last());
    } else {
        assert(q.drop_last() =~= p.drop_last().update(i, b));
        lemma_count_update(p.drop_last(), i, b);
    }
}

/// What a removal does to the active values: `v` leaves, nothing else
/// changes, and the count drops by one exactly when `v` was active.
pub proof fn lemma_remove_active<T>(s: TrailState<T>, v: T, lvl: usize)
    requires
        state_wf(s),
    ensures
        forall|x: T|
            state_active(state_remove(s, v, lvl)).contains(x) <==> state_active(s).contains(x) && x
                != v,
        state_active(state_remove(s, v, lvl)).len() + (if state_active(s).contains(v) {
            1int
        } else {
            0int
        }) == state_active(s).len(),
        state_remove(s, v, lvl).0 == s.0,
        state_remove(s, v, lvl).1.len() == s.1.len(),
{
    let r = state_remove(s, v, lvl);
    lemma_active_contains(s.0, s.1, v);
    lemma_active_len(s.0, s.1);
    if exists|i: int| 0 <= i < s.0.len() && i < s.1.len() && s.0[i] == v && s.1[i] {
        let i = choose|i: int| 0 <= i < s.0.len() && i < s.1.len() && s.0[i] == v && s.1[i];
        lemma_active_len(r.0, r.1);
        lemma_count_update(s.1, i, false);
        assert forall|x: T| state_active(r).contains(x) <==> state_active(s).contains(x) && x != v by {
            lemma_active_contains(s.0, s.1, x);
            lemma_active_contains(r.0, r.1, x);
            if state_active(s).contains(x) && x != v {
                let j = choose|j: int| 0 <= j < s.0.len() && s.1[j] && s.0[j] == x;
                assert(r.1[j]);
            }
            if state_active(r).contains(x) {
                let j = choose|j: int| 0 <= j < r.0.len() && r.1[j] && r.0[j] == x;
                assert(j != i);
                assert(s.1[j]);
            }
        }
    } else {
        assert forall|x: T| state_active(r).contains(x) <==> state_active(s).contains(x) && x != v by {
        }
    }
}

/// Removals at levels `>= lvl` are undone by `restore_up_to(lvl)`.
pub proof fn lemma_restore_after_remove<T>(s: TrailState<T>, v: T, l: usize, lvl: usize)
    requires
        l >= lvl,
        s.1.len() <= usize::MAX,
    ensures
        state_restore(state_remove(s, v, l), lvl) == state_restore(s, lvl),
{
    if exists|i: int| 0 <= i < s.0.len() && i < s.1.len() && s.0[i] == v && s.1[i] {
        let i = choose|i: int| 0 <= i < s.0.len() && i < s.1.len() && s.0[i] == v && s.1[i];
        let t = (s.0, s.1.update(i, false), s.2.push((i as usize, l)));
        assert(t.2.drop_last() =~= s.2);
        assert(t.1.update(i, true) =~= s.1);
        assert(state_remove(s, v, l) == t);
        assert(state_restore(t, lvl) == state_restore((t.0, t.1.update(i, true), t.2.drop_last()), lvl));
    }
}

pub proof fn lemma_remove_all_keeps_catalog<T>(s: TrailState<T>, ops: Seq<(T, usize)>)
    ensures
        state_remove_all(s, ops).0 == s.0,
        state_remove_all(s, ops).1.len() == s.1.len(),
    decreases ops.len(),
{
    if ops.len() > 0 {
        lemma_remove_all_keeps_catalog(s, ops.drop_last());
    }
}

/// Trail round trip: starting from a state whose most recent removal lies
/// below level `lvl`, any sequence of removals at levels `>= lvl` followed
/// by a restoration up to `lvl` gives back the starting state, and so the
/// same active values.
pub proof fn lemma_trail_round_trip<T>(s: TrailState<T>, ops: Seq<(T, usize)>, lvl: usize)
    requires
        s.1.len() <= usize::MAX,
        s.2.len() == 0 || s.2.last().1 < lvl,
        forall|k: int| 0 <= k < ops.len() ==> (#[trigger] ops[k]).1 >= lvl,
    ensures
        state_restore(state_remove_all(s, ops), lvl) == s,
        state_active(state_restore(state_remove_all(s, ops), lvl)) == state_active(s),
    decreases ops.len(),
{
    if ops.len() > 0 {
        let rest = ops.drop_last();
        assert forall|k: int| 0 <= k < rest.len() implies (#[trigger] rest[k]).1 >= lvl by {
            assert(rest[k] == ops[k]);
        }
        lemma_trail_round_trip(s, rest, lvl);
        lemma_remove_all_keeps_catalog(s, rest);
        assert(ops[ops.len() - 1].1 >= lvl);
        lemma_restore_after_remove(state_remove_all(s, rest), ops.last().0, ops.last().1, lvl);
    }
}

} // verus!
