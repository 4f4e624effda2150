use vstd::prelude::*;
use crate::value::OrdT;
use crate::truth::{Truth, and_spec, from_bool};
use crate::variable::{Asn, ExVar, VValue, labels_of, pairs_of};
use crate::setdom::{Domain, SetDom};
use crate::constraint::{
    Constraint, ConstraintBase, check_spec, covers, extend_over, extensions, store_wf,
};
use crate::intensional::contains_label;

verus! {

/// Error of CSP construction.
#[derive(Debug, Clone, Copy, PartialEq, Eq, Structural)]
pub enum CspError {
    /// Two variables share a label.
    DuplicateLabel,
    /// A constraint's scope names a variable that the CSP does not hold.
    UnknownVariable,
}

/// A constraint satisfaction problem: variables with their domains, the
/// constraints over them, and the labels of the instantiated variables.
pub struct Csp<T, C> {
    vars: Vec<ExVar<T>>,
    constraints: Vec<C>,
    past: Vec<String>,
}

/// The labels of a sequence of variables.
pub open spec fn var_labels<T: OrdT>(vars: Seq<ExVar<T>>) -> Seq<Seq<char>> {
    vars.map_values(|x: ExVar<T>| x.label_spec())
}

/// Sum of the sizes of the active domains.
pub open spec fn total_size<T: OrdT>(vars: Seq<ExVar<T>>) -> nat
    decreases vars.len(),
{
    if vars.len() == 0 {
        0
    } else {
        total_size(vars.drop_last()) + vars.last().active().len()
    }
}

pub proof fn lemma_total_size_update<T: OrdT>(vars: Seq<ExVar<T>>, i: int, x: ExVar<T>)
    requires
        0 <= i < vars.len(),
    ensures
        total_size(vars.update(i, x)) == total_size(vars) - vars[i].active().len() + x.active().len(),
    decreases vars.len(),
{
    let u = vars.update(i, x);
    if i == vars.len() - 1 {
        assert(u.drop_last() =~= vars.drop_last());
    } else {
        assert(u.drop_last() =~= vars.drop_last().update(i, x));
        lemma_total_size_update(vars.drop_last(), i, x);
    }
}

/// The assignment covers constraint `c`.
pub open spec fn covered_by<T: OrdT, C: ConstraintBase<T>>(c: C, asn: Asn<T>) -> bool {
    covers(asn, c.scope_spec())
}

/// The indices of the first `n` constraints that `asn` covers, ascending.
pub open spec fn cover_spec<T: OrdT, C: ConstraintBase<T>>(cs: Seq<C>, asn: Asn<T>, n: int) -> Seq<usize>
    decreases n,
{
    if n <= 0 {
        seq![]
    } else if covered_by(cs[n - 1], asn) {
        cover_spec(cs, asn, n - 1).push((n - 1) as usize)
    } else {
        cover_spec(cs, asn, n - 1)
    }
}

/// Every covered constraint accepts the assignment.
pub open spec fn locally_spec<T: OrdT, C: ConstraintBase<T>>(cs: Seq<C>, asn: Asn<T>) -> Truth {
    from_bool(
        forall|i: int| 0 <= i < cs.len() && covered_by(#[trigger] cs[i], asn) ==> cs[i].sat(asn),
    )
}

/// The assignment covers every constraint and is locally consistent.
pub open spec fn solution_spec<T: OrdT, C: ConstraintBase<T>>(cs: Seq<C>, asn: Asn<T>) -> Truth {
    and_spec(
        from_bool(forall|i: int| 0 <= i < cs.len() ==> covered_by(#[trigger] cs[i], asn)),
        locally_spec(cs, asn),
    )
}

/// No constraint rejects the assignment.
pub open spec fn none_rejects<T: OrdT, C: ConstraintBase<T>>(cs: Seq<C>, asn: Asn<T>) -> bool {
    forall|i: int| 0 <= i < cs.len() ==> check_spec(&(#[trigger] cs[i]), asn) != Truth::False
}

/// Locally consistent, and a solution already or extensible over all the
/// unbound variables to an assignment that no constraint rejects.
pub open spec fn globally_spec<T: OrdT, C: ConstraintBase<T>>(
    vars: Seq<ExVar<T>>,
    cs: Seq<C>,
    asn: Asn<T>,
) -> Truth {
    if locally_spec(cs, asn) != Truth::True {
        Truth::False
    } else if solution_spec(cs, asn) == Truth::True {
        Truth::True
    } else {
        from_bool(
            exists|k: int|
                0 <= k < extensions(vars, var_labels(vars), asn).len() && none_rejects(
                    cs,
                    #[trigger] extensions(vars, var_labels(vars), asn)[k],
                ),
        )
    }
}

/// The greatest of the first `n` active-domain sizes.
pub open spec fn max_dom<T: OrdT>(vars: Seq<ExVar<T>>, n: int) -> nat
    decreases n,
{
    if n <= 0 {
        0
    } else {
        let m = max_dom(vars, n - 1);
        if vars[n - 1].active().len() > m {
            vars[n - 1].active().len()
        } else {
            m
        }
    }
}

/// The greatest of the first `n` scope sizes.
pub open spec fn max_arity<T: OrdT, C: ConstraintBase<T>>(cs: Seq<C>, n: int) -> nat
    decreases n,
{
    if n <= 0 {
        0
    } else {
        let m = max_arity(cs, n - 1);
        if cs[n - 1].scope_spec().len() > m {
            cs[n - 1].scope_spec().len()
        } else {
            m
        }
    }
}

impl<T: OrdT, C: ConstraintBase<T>> Csp<T, C> {
    pub closed spec fn vars_spec(&self) -> Seq<ExVar<T>> {
        self.vars@
    }

    pub closed spec fn cons_spec(&self) -> Seq<C> {
        self.constraints@
    }

    pub closed spec fn past_spec(&self) -> Seq<Seq<char>> {
        labels_of(self.past@)
    }

    /// Domains well formed, labels distinct, scopes within the variables.
    pub open spec fn wf(&self) -> bool {
        &&& store_wf(self.vars_spec())
        &&& var_labels(self.vars_spec()).no_duplicates()
        &&& forall|i: int, j: int|
            0 <= i < self.cons_spec().len() && 0 <= j < self.cons_spec()[i].scope_spec().len()
                ==> var_labels(self.vars_spec()).contains(
                #[trigger] self.cons_spec()[i].scope_spec()[j],
            )
    }

    /// A problem over `v` and `c`. Labels must be distinct and every scope
    /// label must name one of the variables.
    pub fn new(v: Vec<ExVar<T>>, c: Vec<C>) -> (r: Result<Self, CspError>)
        requires
            store_wf(v@),
        ensures
            !var_labels(v@).no_duplicates() ==> r == Err::<Self, CspError>(CspError::DuplicateLabel),
            var_labels(v@).no_duplicates() ==> (r.is_ok() == (forall|i: int, j: int|
                0 <= i < c@.len() && 0 <= j < c@[i].scope_spec().len() ==> var_labels(v@).contains(
                    #[trigger] c@[i].scope_spec()[j],
                ))),
            r.is_err() ==> r == Err::<Self, CspError>(CspError::DuplicateLabel) || r == Err::<
                Self,
                CspError,
            >(CspError::UnknownVariable),
            r matches Ok(p) ==> p.wf() && p.vars_spec() == v@ && p.cons_spec() == c@
                && p.past_spec().len() == 0,
    {
        let labels = labels_vec(&v);
        let mut i: usize = 0;
        while i < labels.len()
            invariant
                i <= labels@.len(),
                labels_of(labels@) == var_labels(v@),
                forall|a: int, b: int| 0 <= a < b < labels@.len() && a < i ==> labels_of(labels@)[a] != labels_of(labels@)[b],
            decreases labels@.len() - i,
        {
            let mut j: usize = i + 1;
            while j < labels.len()
                invariant
                    i < j <= labels@.len(),
                    labels_of(labels@) == var_labels(v@),
                    forall|a: int, b: int| 0 <= a < b < labels@.len() && a < i ==> labels_of(labels@)[a] != labels_of(labels@)[b],
                    forall|b: int| i < b < j ==> labels_of(labels@)[i as int] != labels_of(labels@)[b],
                decreases labels@.len() - j,
            {
                if labels[i] == labels[j] {
                    assert(labels_of(labels@)[i as int] == labels_of(labels@)[j as int]);
                    return Err(CspError::DuplicateLabel);
                }
                j += 1;
            }
            i += 1;
        }
        let mut k: usize = 0;
        while k < c.len()
            invariant
                k <= c@.len(),
                labels_of(labels@) == var_labels(v@),
                var_labels(v@).no_duplicates(),
                forall|a: int, j: int|
                    0 <= a < k && 0 <= j < c@[a].scope_spec().len() ==> var_labels(v@).contains(
                        #[trigger] c@[a].scope_spec()[j],
                    ),
            decreases c@.len() - k,
        {
            let s = c[k].scp();
            let mut j: usize = 0;
            while j < s.len()
                invariant
                    k < c@.len(),
                    j <= s@.len(),
                    labels_of(s@) == c@[k as int].scope_spec(),
                    labels_of(labels@) == var_labels(v@),
                    var_labels(v@).no_duplicates(),
                    forall|a: int, j: int|
                        0 <= a < k && 0 <= j < c@[a].scope_spec().len() ==> var_labels(v@).contains(
                            #[trigger] c@[a].scope_spec()[j],
                        ),
                    forall|b: int| 0 <= b < j ==> var_labels(v@).contains(#[trigger] c@[k as int].scope_spec()[b]),
                decreases s@.len() - j,
            {
                if !contains_label(&labels, &s[j]) {
                    assert(c@[k as int].scope_spec()[j as int] == s@[j as int]@);
                    return Err(CspError::UnknownVariable);
                }
                assert(c@[k as int].scope_spec()[j as int] == s@[j as int]@);
                j += 1;
            }
            k += 1;
        }
        Ok(Csp { vars: v, constraints: c, past: Vec::new() })
    }

    pub fn constraints(&self) -> (r: &Vec<C>)
        ensures
            r@ == self.cons_spec(),
    {
        &self.constraints
    }

    pub fn vars(&self) -> (r: &Vec<ExVar<T>>)
        ensures
            r@ == self.vars_spec(),
    {
        &self.vars
    }

    /// The labels of the instantiated variables.
    pub fn past(&self) -> (r: &Vec<String>)
        ensures
            labels_of(r@) == self.past_spec(),
    {
        &self.past
    }

    /// The search level: the number of instantiated variables.
    pub fn level(&self) -> (r: usize)
        ensures
            r == self.past_spec().len(),
    {
        self.past.len()
    }

    /// The indices of the constraints that `asn` covers, ascending.
    pub fn cover(&self, asn: &Vec<VValue<T>>) -> (r: Vec<usize>)
        ensures
            r@ == cover_spec(self.cons_spec(), pairs_of(asn@), self.cons_spec().len() as int),
    {
        let mut r: Vec<usize> = Vec::new();
        let mut i: usize = 0;
        while i < self.constraints.len()
            invariant
                i <= self.constraints@.len(),
                r@ == cover_spec(self.cons_spec(), pairs_of(asn@), i as int),
            decreases self.constraints@.len() - i,
        {
            if self.constraints[i].is_covered(asn) {
                r.push(i);
            }
            i += 1;
        }
        r
    }

    /// `False` when some covered constraint rejects `asn`, else `True`.
    pub fn is_locally_consistent(&self, asn: &Vec<VValue<T>>) -> (r: Truth)
        ensures
            r == locally_spec(self.cons_spec(), pairs_of(asn@)),
    {
        let ghost a = pairs_of(asn@);
        let mut i: usize = 0;
        while i < self.constraints.len()
            invariant
                i <= self.constraints@.len(),
                a == pairs_of(asn@),
                forall|j: int|
                    0 <= j < i && covered_by(#[trigger] self.cons_spec()[j], a) ==> self.cons_spec()[j].sat(a),
            decreases self.constraints@.len() - i,
        {
            let c = &self.constraints[i];
            if c.is_covered(asn) && c.check_assignment(asn) == Truth::False {
                assert(covered_by(self.cons_spec()[i as int], a));
                return Truth::False;
            }
            i += 1;
        }
        Truth::True
    }

    /// Covers every constraint and is locally consistent.
    pub fn is_solution(&self, asn: &Vec<VValue<T>>) -> (r: Truth)
        ensures
            r == solution_spec(self.cons_spec(), pairs_of(asn@)),
    {
        let ghost a = pairs_of(asn@);
        let mut all = true;
        let mut i: usize = 0;
        while i < self.constraints.len()
            invariant
                i <= self.constraints@.len(),
                a == pairs_of(asn@),
                all == (forall|j: int| 0 <= j < i ==> covered_by(#[trigger] self.cons_spec()[j], a)),
            decreases self.constraints@.len() - i,
        {
            let cov = self.constraints[i].is_covered(asn);
            assert(cov == covered_by(self.cons_spec()[i as int], a));
            if !cov {
                all = false;
            }
            i += 1;
        }
        Truth::from_bool(all).and(self.is_locally_consistent(asn))
    }

    /// Locally consistent, and either a solution or extensible over all the
    /// unbound variables to an assignment that no constraint rejects.
    pub fn is_globally_consistent(&self, asn: &Vec<VValue<T>>) -> (r: Truth)
        requires
            self.wf(),
        ensures
            r == globally_spec(self.vars_spec(), self.cons_spec(), pairs_of(asn@)),
    {
        if self.is_locally_consistent(asn) != Truth::True {
            return Truth::False;
        }
        if self.is_solution(asn) == Truth::True {
            return Truth::True;
        }
        let labels = labels_vec(&self.vars);
        let ghost es = extensions(self.vars_spec(), var_labels(self.vars_spec()), pairs_of(asn@));
        let f = |e: &Vec<VValue<T>>| -> (b: bool)
            ensures
                b == none_rejects(self.cons_spec(), pairs_of(e@)),
            { self.none_rejects(e) };
        let found = exists_extension(&self.vars, asn, &labels, f);
        proof {
            if found {
                let (k, e) = choose|k: int, e: Vec<VValue<T>>|
                    0 <= k < es.len() && pairs_of(e@) == es[k] && f.ensures((&e,), true);
                assert(none_rejects(self.cons_spec(), es[k]));
            }
        }
        Truth::from_bool(found)
    }

    fn none_rejects(&self, asn: &Vec<VValue<T>>) -> (r: bool)
        ensures
            r == none_rejects(self.cons_spec(), pairs_of(asn@)),
    {
        let mut i: usize = 0;
        while i < self.constraints.len()
            invariant
                i <= self.constraints@.len(),
                forall|j: int| 0 <= j < i ==> check_spec(&(#[trigger] self.cons_spec()[j]), pairs_of(asn@)) != Truth::False,
            decreases self.constraints@.len() - i,
        {
            if self.constraints[i].check_assignment(asn) == Truth::False {
                assert(check_spec(&self.cons_spec()[i as int], pairs_of(asn@)) == Truth::False);
                return false;
            }
            i += 1;
        }
        true
    }

    /// The number of variables.
    pub fn n(&self) -> (r: usize)
        ensures
            r == self.vars_spec().len(),
    {
        self.vars.len()
    }

    /// The number of constraints.
    pub fn e(&self) -> (r: usize)
        ensures
            r == self.cons_spec().len(),
    {
        self.constraints.len()
    }

    /// The greatest active-domain size (0 without variables).
    pub fn d(&self) -> (r: usize)
        requires
            self.wf(),
        ensures
            r == max_dom(self.vars_spec(), self.vars_spec().len() as int),
    {
        let mut m: usize = 0;
        let mut i: usize = 0;
        while i < self.vars.len()
            invariant
                i <= self.vars@.len(),
                store_wf(self.vars@),
                m == max_dom(self.vars_spec(), i as int),
            decreases self.vars@.len() - i,
        {
            let s = self.vars[i].valid_size();
            if s > m {
                m = s;
            }
            i += 1;
        }
        m
    }

    /// The greatest constraint arity (0 without constraints).
    pub fn r(&self) -> (r: usize)
        ensures
            r == max_arity(self.cons_spec(), self.cons_spec().len() as int),
    {
        let mut m: usize = 0;
        let mut i: usize = 0;
        while i < self.constraints.len()
            invariant
                i <= self.constraints@.len(),
                m == max_arity(self.cons_spec(), i as int),
            decreases self.constraints@.len() - i,
        {
            let s = self.constraints[i].scp().len();
            if s > m {
                m = s;
            }
            i += 1;
        }
        m
    }

    /// No two constraints have the same scope, as a set.
    pub fn is_normalized(&self) -> (r: bool)
        ensures
            r == (forall|i: int, j: int|
                0 <= i < j < self.cons_spec().len() ==> (#[trigger] self.cons_spec()[i]).scope_spec().to_set()
                    != (#[trigger] self.cons_spec()[j]).scope_spec().to_set()),
    {
        let n = self.constraints.len();
        let mut i: usize = 0;
        while i < n
            invariant
                n == self.cons_spec().len(),
                i <= n,
                forall|a: int, b: int|
                    0 <= a < b < n && a < i ==> (#[trigger] self.cons_spec()[a]).scope_spec().to_set()
                        != (#[trigger] self.cons_spec()[b]).scope_spec().to_set(),
            decreases n - i,
        {
            let mut j: usize = i + 1;
            while j < n
                invariant
                    n == self.cons_spec().len(),
                    i < j <= n,
                    forall|a: int, b: int|
                        0 <= a < b < n && a < i ==> (#[trigger] self.cons_spec()[a]).scope_spec().to_set()
                            != (#[trigger] self.cons_spec()[b]).scope_spec().to_set(),
                    forall|b: int|
                        i < b < j ==> self.cons_spec()[i as int].scope_spec().to_set()
                            != (#[trigger] self.cons_spec()[b]).scope_spec().to_set(),
                decreases n - j,
            {
                if same_label_set(self.constraints[i].scp(), self.constraints[j].scp()) {
                    return false;
                }
                j += 1;
            }
            i += 1;
        }
        true
    }

    /// Removes the values of `vals` from the domain of variable `i` at
    /// level `lvl`.
    pub fn remove_values(&mut self, i: usize, vals: &Vec<T>, lvl: usize)
        requires
            old(self).wf(),
            i < old(self).vars_spec().len(),
        ensures
            final(self).wf(),
            final(self).cons_spec() == old(self).cons_spec(),
            final(self).past_spec() == old(self).past_spec(),
            final(self).vars_spec().len() == old(self).vars_spec().len(),
            forall|j: int|
                0 <= j < old(self).vars_spec().len() && j != i ==> #[trigger] final(self).vars_spec()[j]
                    == old(self).vars_spec()[j],
            final(self).vars_spec()[i as int].label_spec() == old(self).vars_spec()[i as int].label_spec(),
            forall|x: T|
                #[trigger] final(self).vars_spec()[i as int].active().contains(x) <==> old(self).vars_spec()[i as int].active().contains(x)
                    && !vals@.contains(x),
            final(self).vars_spec()[i as int].active().len() <= old(self).vars_spec()[i as int].active().len(),
            (exists|x: T| old(self).vars_spec()[i as int].active().contains(x) && vals@.contains(x))
                ==> final(self).vars_spec()[i as int].active().len() < old(self).vars_spec()[i as int].active().len(),
    {
        let ghost v0 = self.vars@;
        let mut x = self.vars.remove(i);
        let ghost x0 = x;
        assert(x0 == v0[i as int]);
        assert(x0.wf());
        let mut k: usize = 0;
        while k < vals.len()
            invariant
                k <= vals@.len(),
                x.wf(),
                x.label_spec() == x0.label_spec(),
                forall|y: T| x.active().contains(y) <==> x0.active().contains(y) && !vals@.subrange(0, k as int).contains(y),
                x.active().len() <= x0.active().len(),
                (exists|y: T| x0.active().contains(y) && vals@.subrange(0, k as int).contains(y))
                    ==> x.active().len() < x0.active().len(),
            decreases vals@.len() - k,
        {
            let ghost before = x;
            let _ = x.dom_mut().remove_value(&vals[k], lvl);
            proof {
                let sub = vals@.subrange(0, k + 1);
                assert(sub =~= vals@.subrange(0, k as int).push(vals@[k as int]));
                assert forall|y: T| x.active().contains(y) <==> x0.active().contains(y) && !sub.contains(y) by {
                    if sub.contains(y) && !vals@.subrange(0, k as int).contains(y) {
                        let m = choose|m: int| 0 <= m < sub.len() && sub[m] == y;
                        if m < k {
                            assert(vals@.subrange(0, k as int)[m] == y);
                        }
                    }
                    if vals@.subrange(0, k as int).contains(y) {
                        let m = choose|m: int| 0 <= m < k && vals@.subrange(0, k as int)[m] == y;
                        assert(sub[m] == y);
                    }
                    if y == vals@[k as int] {
                        assert(sub[k as int] == y);
                    }
                }
                if exists|y: T| x0.active().contains(y) && sub.contains(y) {
                    let y = choose|y: T| x0.active().contains(y) && sub.contains(y);
                    if !vals@.subrange(0, k as int).contains(y) {
                        let m = choose|m: int| 0 <= m < sub.len() && sub[m] == y;
                        if m < k {
                            assert(vals@.subrange(0, k as int)[m] == y);
                        }
                        assert(y == vals@[k as int]);
                        assert(before.active().contains(y));
                    } else {
                        assert(exists|z: T| x0.active().contains(z) && vals@.subrange(0, k as int).contains(z));
                    }
                }
            }
            k += 1;
        }
        assert(vals@.subrange(0, vals@.len() as int) =~= vals@);
        self.vars.insert(i, x);
        proof {
            assert(self.vars@ =~= v0.update(i as int, x));
            assert(var_labels(self.vars@) =~= var_labels(v0));
            assert forall|j: int| 0 <= j < self.vars@.len() implies (#[trigger] self.vars@[j]).wf() by {
                if j != i {
                    assert(self.vars@[j] == v0[j]);
                }
            }
            assert(store_wf(self.vars_spec()));
            assert(var_labels(self.vars_spec()).no_duplicates());
            assert(self.cons_spec() == old(self).cons_spec());
            assert(self.wf());
        }
    }
}

/// A solution is locally consistent.
pub proof fn lemma_solution_locally_consistent<T: OrdT, C: ConstraintBase<T>>(cs: Seq<C>, asn: Asn<T>)
    ensures
        solution_spec(cs, asn) == Truth::True ==> locally_spec(cs, asn) == Truth::True,
{
}

/// Whether some extension of `asn` over the unbound labels of `missing`,
/// within the active domains, passes `constraint`; the extensions are tried
/// in odometer order and the search stops at the first that passes.
pub fn exists_extension<T: OrdT, F: Fn(&Vec<VValue<T>>) -> bool>(
    vars: &Vec<ExVar<T>>,
    asn: &Vec<VValue<T>>,
    missing: &Vec<String>,
    constraint: F,
) -> (r: bool)
    requires
        store_wf(vars@),
        forall|e: &Vec<VValue<T>>| constraint.requires((e,)),
    ensures
        r ==> exists|k: int, e: Vec<VValue<T>>|
            0 <= k < extensions(vars@, labels_of(missing@), pairs_of(asn@)).len() && pairs_of(e@)
                == extensions(vars@, labels_of(missing@), pairs_of(asn@))[k] && constraint.ensures(
                (&e,),
                true,
            ),
        !r ==> forall|k: int|
            0 <= k < extensions(vars@, labels_of(missing@), pairs_of(asn@)).len() ==> exists|
                e: Vec<VValue<T>>,
            |
                pairs_of(e@) == #[trigger] extensions(vars@, labels_of(missing@), pairs_of(asn@))[k]
                    && constraint.ensures((&e,), false),
{
    let exts = extend_over(vars, missing, asn);
    let ghost es = extensions(vars@, labels_of(missing@), pairs_of(asn@));
    let mut k: usize = 0;
    while k < exts.len()
        invariant
            forall|e: &Vec<VValue<T>>| constraint.requires((e,)),
            es == extensions(vars@, labels_of(missing@), pairs_of(asn@)),
            k <= exts@.len(),
            exts@.len() == es.len(),
            forall|j: int| 0 <= j < exts@.len() ==> pairs_of(#[trigger] exts@[j]@) == es[j],
            forall|j: int|
                0 <= j < k ==> exists|e: Vec<VValue<T>>|
                    pairs_of(e@) == #[trigger] es[j] && constraint.ensures((&e,), false),
        decreases exts@.len() - k,
    {
        let ok = constraint(&exts[k]);
        proof {
            assert(pairs_of(exts@[k as int]@) == es[k as int]);
        }
        if ok {
            return true;
        }
        k += 1;
    }
    false
}

/// The index of the variable labelled `l`, if any.
pub fn find_var<T: OrdT>(vars: &Vec<ExVar<T>>, l: &String) -> (r: Option<usize>)
    ensures
        r matches Some(i) ==> i < vars@.len() && vars@[i as int].label_spec() == l@,
        r.is_none() ==> !var_labels(vars@).contains(l@),
{
    let mut i: usize = 0;
    while i < vars.len()
        invariant
            i <= vars@.len(),
            forall|j: int| 0 <= j < i ==> (#[trigger] vars@[j]).label_spec() != l@,
        decreases vars@.len() - i,
    {
        if *vars[i].label() == *l {
            return Some(i);
        }
        i += 1;
    }
    proof {
        if var_labels(vars@).contains(l@) {
            let j = choose|j: int| 0 <= j < vars@.len() && var_labels(vars@)[j] == l@;
            assert(vars@[j].label_spec() == l@);
        }
    }
    None
}

/// The labels of the variables, in order.
pub fn labels_vec<T: OrdT>(v: &Vec<ExVar<T>>) -> (r: Vec<String>)
    ensures
        labels_of(r@) == var_labels(v@),
{
    let mut r: Vec<String> = Vec::new();
    let mut i: usize = 0;
    while i < v.len()
        invariant
            i <= v@.len(),
            labels_of(r@) == var_labels(v@).subrange(0, i as int),
        decreases v@.len() - i,
    {
        let ghost before = r@;
        r.push(v[i].label().clone());
        assert(labels_of(r@) =~= labels_of(before).push(v@[i as int].label_spec()));
        i += 1;
        assert(labels_of(r@) =~= var_labels(v@).subrange(0, i as int));
    }
    assert(var_labels(v@).subrange(0, i as int) =~= var_labels(v@));
    r
}

/// Whether two label lists hold the same set of labels.
pub fn same_label_set(a: &Vec<String>, b: &Vec<String>) -> (r: bool)
    ensures
        r == (labels_of(a@).to_set() == labels_of(b@).to_set()),
{
    let sub_ab = all_in(a, b);
    let sub_ba = all_in(b, a);
    proof {
        if sub_ab && sub_ba {
            assert(labels_of(a@).to_set() =~= labels_of(b@).to_set());
        }
        if !sub_ab {
            let k = choose|k: int| 0 <= k < a@.len() && !labels_of(b@).contains(#[trigger] labels_of(a@)[k]);
            assert(labels_of(a@).to_set().contains(labels_of(a@)[k]));
        }
        if !sub_ba {
            let k = choose|k: int| 0 <= k < b@.len() && !labels_of(a@).contains(#[trigger] labels_of(b@)[k]);
            assert(labels_of(b@).to_set().contains(labels_of(b@)[k]));
        }
    }
    sub_ab && sub_ba
}

/// Whether every label of `a` is in `b`.
fn all_in(a: &Vec<String>, b: &Vec<String>) -> (r: bool)
    ensures
        r == (forall|k: int| 0 <= k < a@.len() ==> labels_of(b@).contains(#[trigger] labels_of(a@)[k])),
{
    let mut k: usize = 0;
    while k < a.len()
        invariant
            k <= a@.len(),
            forall|j: int| 0 <= j < k ==> labels_of(b@).contains(#[trigger] labels_of(a@)[j]),
        decreases a@.len() - k,
    {
        if !contains_label(b, &a[k]) {
            assert(labels_of(a@)[k as int] == a@[k as int]@);
            return false;
        }
        assert(labels_of(a@)[k as int] == a@[k as int]@);
        k += 1;
    }
    true
}

} // verus!
