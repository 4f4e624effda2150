use vstd::prelude::*;
use vstd::string::StringExecFns;
use crate::value::{Duplicate, OrdT};
use crate::truth::{Truth, from_bool, not_spec};
use crate::variable::{
    Asn, ExVar, VValue, binds, is_bound, labels_of, make_assignment, pairs_of, zip_assignment,
};
use crate::walker::{product, product_of, seqs_of};
use crate::setdom::Domain;

verus! {

/// The active domain of the first variable labelled `l`; empty when there
/// is none.
pub open spec fn dom_of<T: OrdT>(vars: Seq<ExVar<T>>, l: Seq<char>) -> Seq<T>
    decreases vars.len(),
{
    if vars.len() == 0 {
        seq![]
    } else if vars[0].label_spec() == l {
        vars[0].active()
    } else {
        dom_of(vars.drop_first(), l)
    }
}

/// Every variable's domain is well formed.
pub open spec fn store_wf<T: OrdT>(vars: Seq<ExVar<T>>) -> bool {
    forall|i: int| 0 <= i < vars.len() ==> (#[trigger] vars[i]).wf()
}

/// The active domains of the variables labelled `labels`, in order.
pub open spec fn doms_of<T: OrdT>(vars: Seq<ExVar<T>>, labels: Seq<Seq<char>>) -> Seq<Seq<T>> {
    labels.map_values(|l: Seq<char>| dom_of(vars, l))
}

/// The labels of `scope` that `asn` leaves unbound, in scope order.
pub open spec fn unbound<T>(scope: Seq<Seq<char>>, asn: Asn<T>) -> Seq<Seq<char>>
    decreases scope.len(),
{
    if scope.len() == 0 {
        seq![]
    } else if binds(asn, scope.last()) {
        unbound(scope.drop_last(), asn)
    } else {
        unbound(scope.drop_last(), asn).push(scope.last())
    }
}

/// Every extension of `asn` by one active value of each unbound scope
/// variable, in odometer order over the scope.
pub open spec fn extensions<T: OrdT>(
    vars: Seq<ExVar<T>>,
    scope: Seq<Seq<char>>,
    asn: Asn<T>,
) -> Seq<Asn<T>> {
    let missing = unbound(scope, asn);
    product(doms_of(vars, missing)).map_values(|t: Seq<T>| asn + zip_assignment(missing, t))
}

/// Every label of `scope` is bound in `asn`.
pub open spec fn covers<T>(asn: Asn<T>, scope: Seq<Seq<char>>) -> bool {
    forall|i: int| 0 <= i < scope.len() ==> binds(asn, #[trigger] scope[i])
}

/// What defines a constraint: a scope of variable labels and a
/// satisfaction test on assignments.
pub trait ConstraintBase<T: OrdT>: Sized {
    /// The labels of the scope, in order.
    spec fn scope_spec(&self) -> Seq<Seq<char>>;

    /// Whether the constraint accepts an assignment that covers its scope.
    spec fn sat(&self, asn: Asn<T>) -> bool;

    fn scp(&self) -> (r: &Vec<String>)
        ensures
            labels_of(r@) == self.scope_spec(),
    ;

    fn apply(&self, asn: &Vec<VValue<T>>) -> (r: bool)
        ensures
            r == self.sat(pairs_of(asn@)),
    ;

    /// A printed form of the constraint.
    fn print(&self) -> String;
}

/// The operations every constraint offers, derived from its scope and its
/// satisfaction test, and reading domains from a store of variables.
pub trait Constraint<T: OrdT>: ConstraintBase<T> {
    /// `"c_"` followed by the scope labels.
    fn label(&self) -> (r: String)
        ensures
            r@ == seq!['c', '_'] + concat_labels(self.scope_spec()),
    {
        let s = self.scp();
        let mut r = String::from_str("c_");
        proof {
            reveal_strlit("c_");
        }
        let mut i: usize = 0;
        while i < s.len()
            invariant
                i <= s@.len(),
                labels_of(s@) == self.scope_spec(),
                r@ == seq!['c', '_'] + concat_labels(labels_of(s@).subrange(0, i as int)),
            decreases s@.len() - i,
        {
            r.append(s[i].as_str());
            assert(labels_of(s@).subrange(0, i + 1).drop_last() =~= labels_of(s@).subrange(0, i as int));
            i += 1;
        }
        assert(labels_of(s@).subrange(0, i as int) =~= labels_of(s@));
        r
    }

    /// Whether every scope variable is bound in `asn`.
    fn is_covered(&self, asn: &Vec<VValue<T>>) -> (r: bool)
        ensures
            r == covers(pairs_of(asn@), self.scope_spec()),
    {
        let s = self.scp();
        let mut i: usize = 0;
        while i < s.len()
            invariant
                i <= s@.len(),
                labels_of(s@) == self.scope_spec(),
                forall|j: int| 0 <= j < i ==> binds(pairs_of(asn@), #[trigger] labels_of(s@)[j]),
            decreases s@.len() - i,
        {
            if !is_bound(asn, &s[i]) {
                assert(labels_of(s@)[i as int] == s@[i as int]@);
                assert(!binds(pairs_of(asn@), self.scope_spec()[i as int]));
                return false;
            }
            i += 1;
        }
        true
    }

    /// `Unknown` when `asn` does not cover the scope, else whether the
    /// constraint accepts it.
    fn check_assignment(&self, asn: &Vec<VValue<T>>) -> (r: Truth)
        ensures
            r == check_spec(self, pairs_of(asn@)),
    {
        if self.is_covered(asn) {
            Truth::from_bool(self.apply(asn))
        } else {
            Truth::Unknown
        }
    }

    /// `Unknown` when the variable is out of scope, else whether the value
    /// is in its active domain.
    fn is_valid(&self, vars: &Vec<ExVar<T>>, w: &VValue<T>) -> (r: Truth)
        requires
            store_wf(vars@),
        ensures
            r == valid_spec(self, vars@, (w.label@, w.value)),
    {
        if !self.in_scope(&w.label) {
            return Truth::Unknown;
        }
        let d = active_of_label(vars, &w.label);
        Truth::from_bool(contains_value(&d, &w.value))
    }

    /// Whether `l` is a scope label.
    fn in_scope(&self, l: &String) -> (r: bool)
        ensures
            r == self.scope_spec().contains(l@),
    {
        let s = self.scp();
        let mut i: usize = 0;
        while i < s.len()
            invariant
                i <= s@.len(),
                labels_of(s@) == self.scope_spec(),
                forall|j: int| 0 <= j < i ==> (#[trigger] labels_of(s@)[j]) != l@,
            decreases s@.len() - i,
        {
            if s[i] == *l {
                assert(labels_of(s@)[i as int] == l@);
                return true;
            }
            i += 1;
        }
        false
    }

    /// The extensions of `asn` over the unbound scope variables.
    fn extend(&self, vars: &Vec<ExVar<T>>, asn: &Vec<VValue<T>>) -> (r: Vec<Vec<VValue<T>>>)
        requires
            store_wf(vars@),
        ensures
            r@.len() == extensions(vars@, self.scope_spec(), pairs_of(asn@)).len(),
            forall|k: int|
                0 <= k < r@.len() ==> pairs_of(#[trigger] r@[k]@) == extensions(
                    vars@,
                    self.scope_spec(),
                    pairs_of(asn@),
                )[k],
    {
        extend_over(vars, self.scp(), asn)
    }

    /// Whether `asn` extends, within the active domains, to an assignment
    /// of the scope that the constraint accepts.
    fn is_support_asn(&self, vars: &Vec<ExVar<T>>, asn: &Vec<VValue<T>>) -> (r: Truth)
        requires
            store_wf(vars@),
        ensures
            r == support_asn_spec(self, vars@, pairs_of(asn@)),
    {
        let ghost a = pairs_of(asn@);
        let mut i: usize = 0;
        while i < asn.len()
            invariant
                store_wf(vars@),
                i <= asn@.len(),
                a == pairs_of(asn@),
                forall|j: int| 0 <= j < i ==> valid_spec(self, vars@, #[trigger] a[j]) != Truth::False,
            decreases asn@.len() - i,
        {
            if self.is_valid(vars, &asn[i]) == Truth::False {
                assert(a[i as int] == (asn@[i as int].label@, asn@[i as int].value));
                return Truth::False;
            }
            i += 1;
        }
        if self.is_covered(asn) {
            return self.check_assignment(asn);
        }
        if self.exists_accepted(vars, asn) {
            Truth::True
        } else {
            Truth::False
        }
    }

    /// `is_support_asn` computed through the relation: after the same
    /// validity and coverage tests, whether some tuple of the relation
    /// holds every v-value of `asn`.
    fn is_support_asn_rel(&self, vars: &Vec<ExVar<T>>, asn: &Vec<VValue<T>>) -> (r: Truth)
        requires
            store_wf(vars@),
        ensures
            r == support_asn_rel_spec(self, vars@, pairs_of(asn@)),
    {
        let ghost a = pairs_of(asn@);
        let mut i: usize = 0;
        while i < asn.len()
            invariant
                store_wf(vars@),
                i <= asn@.len(),
                a == pairs_of(asn@),
                forall|j: int| 0 <= j < i ==> valid_spec(self, vars@, #[trigger] a[j]) != Truth::False,
            decreases asn@.len() - i,
        {
            if self.is_valid(vars, &asn[i]) == Truth::False {
                assert(a[i as int] == (asn@[i as int].label@, asn@[i as int].value));
                return Truth::False;
            }
            i += 1;
        }
        if self.is_covered(asn) {
            return self.check_assignment(asn);
        }
        let rel = self.rel(vars);
        let ghost rs = rel_spec(self, vars@);
        let mut k: usize = 0;
        while k < rel.len()
            invariant
                k <= rel@.len(),
                a == pairs_of(asn@),
                rs == rel_spec(self, vars@),
                rel@.len() == rs.len(),
                forall|j: int| 0 <= j < rel@.len() ==> pairs_of(#[trigger] rel@[j]@) == rs[j],
                forall|j: int| 0 <= j < k ==> !holds_all(#[trigger] rs[j], a),
                !(exists|j: int| 0 <= j < a.len() && valid_spec(self, vars@, #[trigger] a[j]) == Truth::False),
                !covers(a, self.scope_spec()),
            decreases rel@.len() - k,
        {
            assert(pairs_of(rel@[k as int]@) == rs[k as int]);
            if holds_every(&rel[k], asn) {
                return Truth::True;
            }
            k += 1;
        }
        Truth::False
    }

    /// Whether some extension of `asn` is accepted.
    fn exists_accepted(&self, vars: &Vec<ExVar<T>>, asn: &Vec<VValue<T>>) -> (r: bool)
        requires
            store_wf(vars@),
        ensures
            r == has_accepted_extension(self, vars@, pairs_of(asn@)),
    {
        let exts = self.extend(vars, asn);
        let ghost es = extensions(vars@, self.scope_spec(), pairs_of(asn@));
        let mut k: usize = 0;
        while k < exts.len()
            invariant
                k <= exts@.len(),
                es == extensions(vars@, self.scope_spec(), pairs_of(asn@)),
                exts@.len() == es.len(),
                forall|j: int| 0 <= j < exts@.len() ==> pairs_of(#[trigger] exts@[j]@) == es[j],
                forall|j: int| 0 <= j < k ==> check_spec(self, #[trigger] es[j]) != Truth::True,
            decreases exts@.len() - k,
        {
            if self.check_assignment(&exts[k]) == Truth::True {
                assert(pairs_of(exts@[k as int]@) == es[k as int]);
                assert(check_spec(self, es[k as int]) == Truth::True);
                assert(check_spec(self, extensions(vars@, self.scope_spec(), pairs_of(asn@))[k as int]) == Truth::True);
                return true;
            }
            k += 1;
        }
        false
    }

    /// `Unknown` when the variable is out of scope, else whether some
    /// extension of the single v-value is accepted.
    fn is_allowed(&self, vars: &Vec<ExVar<T>>, w: &VValue<T>) -> (r: Truth)
        requires
            store_wf(vars@),
        ensures
            r == allowed_spec(self, vars@, (w.label@, w.value)),
    {
        if !self.in_scope(&w.label) {
            return Truth::Unknown;
        }
        let asn = vec![w.duplicate()];
        assert(pairs_of(asn@) =~= seq![(w.label@, w.value)]);
        Truth::from_bool(self.exists_accepted(vars, &asn))
    }

    /// `True` when the v-value is valid and occurs in some tuple of the
    /// relation, else `False`.
    fn strict_support(&self, vars: &Vec<ExVar<T>>, w: &VValue<T>) -> (r: Truth)
        requires
            store_wf(vars@),
        ensures
            r == from_bool(valid_spec(self, vars@, (w.label@, w.value)) == Truth::True && exists|k: int|
                0 <= k < rel_spec(self, vars@).len() && (#[trigger] rel_spec(self, vars@)[k]).contains(
                    (w.label@, w.value),
                )),
    {
        if self.is_valid(vars, w) != Truth::True {
            return Truth::False;
        }
        let rel = self.rel(vars);
        let ghost rs = rel_spec(self, vars@);
        let mut k: usize = 0;
        while k < rel.len()
            invariant
                k <= rel@.len(),
                rs == rel_spec(self, vars@),
                rel@.len() == rs.len(),
                valid_spec(self, vars@, (w.label@, w.value)) == Truth::True,
                forall|j: int| 0 <= j < rel@.len() ==> pairs_of(#[trigger] rel@[j]@) == rs[j],
                forall|j: int| 0 <= j < k ==> !(#[trigger] rs[j]).contains((w.label@, w.value)),
            decreases rel@.len() - k,
        {
            let t = &rel[k];
            assert(pairs_of(rel@[k as int]@) == rs[k as int]);
            let mut m: usize = 0;
            while m < t.len()
                invariant
                    k < rel@.len(),
                    m <= t@.len(),
                    t@ == rel@[k as int]@,
                    rs == rel_spec(self, vars@),
                    rel@.len() == rs.len(),
                    pairs_of(t@) == rs[k as int],
                    valid_spec(self, vars@, (w.label@, w.value)) == Truth::True,
                    forall|j: int| 0 <= j < m ==> (#[trigger] pairs_of(t@)[j]) != (w.label@, w.value),
                decreases t@.len() - m,
            {
                if t[m].label == w.label && t[m].value.same(&w.value) {
                    assert(pairs_of(t@)[m as int] == (w.label@, w.value));
                    assert(rs[k as int].contains((w.label@, w.value)));
                    return Truth::True;
                }
                assert(pairs_of(t@)[m as int] == (t@[m as int].label@, t@[m as int].value));
                m += 1;
            }
            assert(!rs[k as int].contains((w.label@, w.value)));
            k += 1;
        }
        Truth::False
    }

    /// Valid and allowed; `Unknown` out of scope, `False` when not valid.
    fn is_support(&self, vars: &Vec<ExVar<T>>, w: &VValue<T>) -> (r: Truth)
        requires
            store_wf(vars@),
        ensures
            r == support_spec(self, vars@, (w.label@, w.value)),
    {
        match self.is_valid(vars, w) {
            Truth::True => self.is_allowed(vars, w),
            other => other,
        }
    }

    /// The negation of `is_support`, `Unknown` staying `Unknown`.
    fn is_conflicts(&self, vars: &Vec<ExVar<T>>, w: &VValue<T>) -> (r: Truth)
        requires
            store_wf(vars@),
        ensures
            r == conflict_spec(self, vars@, (w.label@, w.value)),
    {
        self.is_support(vars, w).negate()
    }

    /// The accepted assignments of the scope over the active domains, in
    /// odometer order.
    fn rel(&self, vars: &Vec<ExVar<T>>) -> (r: Vec<Vec<VValue<T>>>)
        requires
            store_wf(vars@),
        ensures
            r@.len() == rel_spec(self, vars@).len(),
            forall|k: int| 0 <= k < r@.len() ==> pairs_of(#[trigger] r@[k]@) == rel_spec(self, vars@)[k],
    {
        let empty: Vec<VValue<T>> = Vec::new();
        let all = self.extend(vars, &empty);
        assert(pairs_of(empty@) =~= Seq::<(Seq<char>, T)>::empty());
        let ghost es = all_tuples(self, vars@);
        let mut out: Vec<Vec<VValue<T>>> = Vec::new();
        let mut k: usize = 0;
        while k < all.len()
            invariant
                k <= all@.len(),
                all@.len() == es.len(),
                forall|j: int| 0 <= j < all@.len() ==> pairs_of(#[trigger] all@[j]@) == es[j],
                out@.len() == keep_accepted(self, es.subrange(0, k as int)).len(),
                forall|j: int| 0 <= j < out@.len() ==> pairs_of(#[trigger] out@[j]@) == keep_accepted(self, es.subrange(0, k as int))[j],
            decreases all@.len() - k,
        {
            assert(es.subrange(0, k + 1).drop_last() =~= es.subrange(0, k as int));
            if self.check_assignment(&all[k]) == Truth::True {
                out.push(copy_assignment(&all[k]));
            }
            k += 1;
        }
        assert(es.subrange(0, all@.len() as int) =~= es);
        out
    }

    /// The number of assignments of the scope over the active domains.
    fn size(&self, vars: &Vec<ExVar<T>>) -> (r: usize)
        requires
            store_wf(vars@),
        ensures
            r == all_tuples(self, vars@).len(),
    {
        let empty: Vec<VValue<T>> = Vec::new();
        assert(pairs_of(empty@) =~= Seq::<(Seq<char>, T)>::empty());
        self.extend(vars, &empty).len()
    }

    /// Every assignment of the scope over the active domains is accepted.
    fn is_entailed(&self, vars: &Vec<ExVar<T>>) -> (r: bool)
        requires
            store_wf(vars@),
        ensures
            r == (rel_spec(self, vars@).len() == all_tuples(self, vars@).len()),
    {
        self.rel(vars).len() == self.size(vars)
    }

    /// No assignment of the scope over the active domains is accepted.
    fn is_disentailed(&self, vars: &Vec<ExVar<T>>) -> (r: bool)
        requires
            store_wf(vars@),
        ensures
            r == (rel_spec(self, vars@).len() == 0),
    {
        self.rel(vars).len() == 0
    }

    /// Tightness as a fraction (forbidden, total): the share of the
    /// assignments of the scope over the active domains that are rejected.
    fn tightness(&self, vars: &Vec<ExVar<T>>) -> (r: (usize, usize))
        requires
            store_wf(vars@),
        ensures
            r.1 == all_tuples(self, vars@).len(),
            r.0 + rel_spec(self, vars@).len() == r.1,
    {
        let total = self.size(vars);
        let allowed = self.rel(vars).len();
        proof {
            lemma_keep_accepted_len(self, all_tuples(self, vars@));
        }
        (total - allowed, total)
    }

    /// Looseness as a fraction (allowed, total).
    fn looseness(&self, vars: &Vec<ExVar<T>>) -> (r: (usize, usize))
        requires
            store_wf(vars@),
        ensures
            r.1 == all_tuples(self, vars@).len(),
            r.0 == rel_spec(self, vars@).len(),
    {
        let total = self.size(vars);
        let allowed = self.rel(vars).len();
        (allowed, total)
    }
}

impl<T: OrdT, C: ConstraintBase<T>> Constraint<T> for C {
}

/// The extensions of `asn` over the labels of `s` that it leaves unbound.
pub fn extend_over<T: OrdT>(vars: &Vec<ExVar<T>>, s: &Vec<String>, asn: &Vec<VValue<T>>) -> (r: Vec<Vec<VValue<T>>>)
    requires
        store_wf(vars@),
    ensures
        r@.len() == extensions(vars@, labels_of(s@), pairs_of(asn@)).len(),
        forall|k: int|
            0 <= k < r@.len() ==> pairs_of(#[trigger] r@[k]@) == extensions(
                vars@,
                labels_of(s@),
                pairs_of(asn@),
            )[k],
{
    let ghost a = pairs_of(asn@);
    let mut missing: Vec<String> = Vec::new();
    let mut doms: Vec<Vec<T>> = Vec::new();
    let mut i: usize = 0;
    while i < s.len()
        invariant
            store_wf(vars@),
            i <= s@.len(),
            a == pairs_of(asn@),
            labels_of(missing@) == unbound(labels_of(s@).subrange(0, i as int), a),
            missing@.len() == doms@.len(),
            seqs_of(doms@) == doms_of(vars@, labels_of(missing@)),
        decreases s@.len() - i,
    {
        assert(labels_of(s@).subrange(0, i + 1).drop_last() =~= labels_of(s@).subrange(0, i as int));
        if !is_bound(asn, &s[i]) {
            let d = active_of_label(vars, &s[i]);
            let ghost m0 = missing@;
            let ghost d0 = doms@;
            missing.push(s[i].clone());
            doms.push(d);
            assert(labels_of(missing@) =~= labels_of(m0).push(s@[i as int]@));
            assert forall|j: int| 0 <= j < doms@.len() implies #[trigger] seqs_of(doms@)[j] == doms_of(vars@, labels_of(missing@))[j] by {
                if j < d0.len() {
                    assert(seqs_of(doms@)[j] == seqs_of(d0)[j]);
                    assert(labels_of(missing@)[j] == labels_of(m0)[j]);
                } else {
                    assert(labels_of(missing@)[j] == s@[i as int]@);
                }
            }
            assert(seqs_of(doms@) =~= doms_of(vars@, labels_of(missing@)));
        }
        i += 1;
    }
    assert(labels_of(s@).subrange(0, s@.len() as int) =~= labels_of(s@));
    let tuples = product_of(&doms);
    let ghost exts = extensions(vars@, labels_of(s@), a);
    let mut out: Vec<Vec<VValue<T>>> = Vec::new();
    let mut k: usize = 0;
    while k < tuples.len()
        invariant
            k <= tuples@.len(),
            a == pairs_of(asn@),
            seqs_of(tuples@) == product(doms_of(vars@, labels_of(missing@))),
            labels_of(missing@) == unbound(labels_of(s@), a),
            exts == extensions(vars@, labels_of(s@), a),
            exts.len() == tuples@.len(),
            out@.len() == k,
            forall|j: int| 0 <= j < k ==> pairs_of(#[trigger] out@[j]@) == exts[j],
        decreases tuples@.len() - k,
    {
        let mut e = copy_assignment(asn);
        let mut tail = make_assignment(&missing, copy_values_of(&tuples[k]));
        let ghost e0 = e@;
        e.append(&mut tail);
        proof {
            assert(seqs_of(tuples@)[k as int] == tuples@[k as int]@);
            assert(pairs_of(e@) =~= pairs_of(e0) + zip_assignment(labels_of(missing@), tuples@[k as int]@));
        }
        out.push(e);
        k += 1;
    }
    out
}

/// The scope labels joined end to end.
pub open spec fn concat_labels(s: Seq<Seq<char>>) -> Seq<char>
    decreases s.len(),
{
    if s.len() == 0 {
        seq![]
    } else {
        concat_labels(s.drop_last()) + s.last()
    }
}

pub open spec fn check_spec<T: OrdT, C: ConstraintBase<T>>(c: &C, asn: Asn<T>) -> Truth {
    if covers(asn, c.scope_spec()) {
        from_bool(c.sat(asn))
    } else {
        Truth::Unknown
    }
}

pub open spec fn valid_spec<T: OrdT, C: ConstraintBase<T>>(c: &C, vars: Seq<ExVar<T>>, w: (Seq<char>, T)) -> Truth {
    if !c.scope_spec().contains(w.0) {
        Truth::Unknown
    } else {
        from_bool(dom_of(vars, w.0).contains(w.1))
    }
}

pub open spec fn has_accepted_extension<T: OrdT, C: ConstraintBase<T>>(
    c: &C,
    vars: Seq<ExVar<T>>,
    asn: Asn<T>,
) -> bool {
    exists|k: int|
        0 <= k < extensions(vars, c.scope_spec(), asn).len() && check_spec(
            c,
            #[trigger] extensions(vars, c.scope_spec(), asn)[k],
        ) == Truth::True
}

pub open spec fn support_asn_spec<T: OrdT, C: ConstraintBase<T>>(
    c: &C,
    vars: Seq<ExVar<T>>,
    asn: Asn<T>,
) -> Truth {
    if exists|j: int| 0 <= j < asn.len() && valid_spec(c, vars, #[trigger] asn[j]) == Truth::False {
        Truth::False
    } else if covers(asn, c.scope_spec()) {
        check_spec(c, asn)
    } else {
        from_bool(has_accepted_extension(c, vars, asn))
    }
}

/// Every pair of `asn` occurs in `t`.
pub open spec fn holds_all<T>(t: Asn<T>, asn: Asn<T>) -> bool {
    forall|j: int| 0 <= j < asn.len() ==> t.contains(#[trigger] asn[j])
}

pub open spec fn support_asn_rel_spec<T: OrdT, C: ConstraintBase<T>>(
    c: &C,
    vars: Seq<ExVar<T>>,
    asn: Asn<T>,
) -> Truth {
    if exists|j: int| 0 <= j < asn.len() && valid_spec(c, vars, #[trigger] asn[j]) == Truth::False {
        Truth::False
    } else if covers(asn, c.scope_spec()) {
        check_spec(c, asn)
    } else {
        from_bool(
            exists|k: int|
                0 <= k < rel_spec(c, vars).len() && holds_all(#[trigger] rel_spec(c, vars)[k], asn),
        )
    }
}

pub open spec fn allowed_spec<T: OrdT, C: ConstraintBase<T>>(c: &C, vars: Seq<ExVar<T>>, w: (Seq<char>, T)) -> Truth {
    if !c.scope_spec().contains(w.0) {
        Truth::Unknown
    } else {
        from_bool(has_accepted_extension(c, vars, seq![w]))
    }
}

pub open spec fn support_spec<T: OrdT, C: ConstraintBase<T>>(c: &C, vars: Seq<ExVar<T>>, w: (Seq<char>, T)) -> Truth {
    match valid_spec(c, vars, w) {
        Truth::True => allowed_spec(c, vars, w),
        other => other,
    }
}

/// The negation of support, `Unknown` staying `Unknown`.
pub open spec fn conflict_spec<T: OrdT, C: ConstraintBase<T>>(c: &C, vars: Seq<ExVar<T>>, w: (Seq<char>, T)) -> Truth {
    not_spec(support_spec(c, vars, w))
}

/// All assignments of the scope over the active domains.
pub open spec fn all_tuples<T: OrdT, C: ConstraintBase<T>>(c: &C, vars: Seq<ExVar<T>>) -> Seq<Asn<T>> {
    extensions(vars, c.scope_spec(), seq![])
}

/// The assignments of `s` that the constraint accepts, in order.
pub open spec fn keep_accepted<T: OrdT, C: ConstraintBase<T>>(c: &C, s: Seq<Asn<T>>) -> Seq<Asn<T>>
    decreases s.len(),
{
    if s.len() == 0 {
        seq![]
    } else if check_spec(c, s.last()) == Truth::True {
        keep_accepted(c, s.drop_last()).push(s.last())
    } else {
        keep_accepted(c, s.drop_last())
    }
}

/// The relation of the constraint over the active domains.
pub open spec fn rel_spec<T: OrdT, C: ConstraintBase<T>>(c: &C, vars: Seq<ExVar<T>>) -> Seq<Asn<T>> {
    keep_accepted(c, all_tuples(c, vars))
}

pub proof fn lemma_keep_accepted_len<T: OrdT, C: ConstraintBase<T>>(c: &C, s: Seq<Asn<T>>)
    ensures
        keep_accepted(c, s).len() <= s.len(),
    decreases s.len(),
{
    if s.len() > 0 {
        lemma_keep_accepted_len(c, s.drop_last());
    }
}

/// Every kept assignment is accepted.
pub proof fn lemma_keep_accepted_checks<T: OrdT, C: ConstraintBase<T>>(c: &C, s: Seq<Asn<T>>)
    ensures
        forall|k: int|
            0 <= k < keep_accepted(c, s).len() ==> check_spec(c, #[trigger] keep_accepted(c, s)[k])
                == Truth::True,
    decreases s.len(),
{
    if s.len() > 0 {
        lemma_keep_accepted_checks(c, s.drop_last());
    }
}

/// Every tuple of a constraint's relation passes `check_assignment`.
pub proof fn lemma_rel_tuples_accepted<T: OrdT, C: ConstraintBase<T>>(c: &C, vars: Seq<ExVar<T>>)
    ensures
        forall|k: int|
            0 <= k < rel_spec(c, vars).len() ==> check_spec(c, #[trigger] rel_spec(c, vars)[k])
                == Truth::True,
{
    lemma_keep_accepted_checks(c, all_tuples(c, vars));
}

/// A support is valid and allowed.
pub proof fn lemma_support_valid_allowed<T: OrdT, C: ConstraintBase<T>>(
    c: &C,
    vars: Seq<ExVar<T>>,
    w: (Seq<char>, T),
)
    ensures
        support_spec(c, vars, w) == Truth::True ==> valid_spec(c, vars, w) == Truth::True
            && allowed_spec(c, vars, w) == Truth::True,
{
}

/// Support and conflict are each other's negation wherever neither is
/// `Unknown`.
pub proof fn lemma_support_not_conflict<T: OrdT, C: ConstraintBase<T>>(
    c: &C,
    vars: Seq<ExVar<T>>,
    w: (Seq<char>, T),
)
    ensures
        support_spec(c, vars, w) != Truth::Unknown && conflict_spec(c, vars, w) != Truth::Unknown
            ==> support_spec(c, vars, w) == not_spec(conflict_spec(c, vars, w)),
{
}

/// Tightness and looseness: the accepted tuples are at most all tuples, so
/// the forbidden share lies in [0, 1] and the two shares add up to the
/// whole.
pub proof fn lemma_tightness_looseness<T: OrdT, C: ConstraintBase<T>>(c: &C, vars: Seq<ExVar<T>>)
    ensures
        0 <= rel_spec(c, vars).len() <= all_tuples(c, vars).len(),
        (all_tuples(c, vars).len() - rel_spec(c, vars).len()) + rel_spec(c, vars).len() == all_tuples(
            c,
            vars,
        ).len(),
{
    lemma_keep_accepted_len(c, all_tuples(c, vars));
}

/// Whether every v-value of `asn` occurs in `t`.
pub fn holds_every<T: OrdT>(t: &Vec<VValue<T>>, asn: &Vec<VValue<T>>) -> (r: bool)
    ensures
        r == holds_all(pairs_of(t@), pairs_of(asn@)),
{
    let mut j: usize = 0;
    while j < asn.len()
        invariant
            j <= asn@.len(),
            forall|m: int| 0 <= m < j ==> pairs_of(t@).contains(#[trigger] pairs_of(asn@)[m]),
        decreases asn@.len() - j,
    {
        let mut found = false;
        let mut m: usize = 0;
        while m < t.len()
            invariant
                j < asn@.len(),
                m <= t@.len(),
                forall|m2: int| 0 <= m2 < j ==> pairs_of(t@).contains(#[trigger] pairs_of(asn@)[m2]),
                found == exists|m2: int| 0 <= m2 < m && #[trigger] pairs_of(t@)[m2] == pairs_of(asn@)[j as int],
            decreases t@.len() - m,
        {
            if t[m].label == asn[j].label && t[m].value.same(&asn[j].value) {
                assert(pairs_of(t@)[m as int] == pairs_of(asn@)[j as int]);
                found = true;
            }
            m += 1;
        }
        if !found {
            assert(!pairs_of(t@).contains(pairs_of(asn@)[j as int]));
            return false;
        }
        j += 1;
    }
    true
}

/// The active values of the first variable labelled `l`.
pub fn active_of_label<T: OrdT>(vars: &Vec<ExVar<T>>, l: &String) -> (r: Vec<T>)
    requires
        store_wf(vars@),
    ensures
        r@ == dom_of(vars@, l@),
{
    let mut i: usize = 0;
    assert(vars@.subrange(0, vars@.len() as int) =~= vars@);
    while i < vars.len()
        invariant
            store_wf(vars@),
            i <= vars@.len(),
            dom_of(vars@, l@) == dom_of(vars@.subrange(i as int, vars@.len() as int), l@),
        decreases vars@.len() - i,
    {
        let ghost rest = vars@.subrange(i as int, vars@.len() as int);
        assert(rest.drop_first() =~= vars@.subrange(i + 1, vars@.len() as int));
        if *vars[i].label() == *l {
            return vars[i].valid_values();
        }
        i += 1;
    }
    Vec::new()
}

/// Whether `v` occurs in `s`.
pub fn contains_value<T: OrdT>(s: &Vec<T>, v: &T) -> (r: bool)
    ensures
        r == s@.contains(*v),
{
    let mut i: usize = 0;
    while i < s.len()
        invariant
            i <= s@.len(),
            forall|j: int| 0 <= j < i ==> s@[j] != *v,
        decreases s@.len() - i,
    {
        if s[i].same(v) {
            return true;
        }
        i += 1;
    }
    false
}

/// A copy of an assignment.
pub fn copy_assignment<T: OrdT>(asn: &Vec<VValue<T>>) -> (r: Vec<VValue<T>>)
    ensures
        pairs_of(r@) == pairs_of(asn@),
{
    let mut r: Vec<VValue<T>> = Vec::new();
    let mut i: usize = 0;
    while i < asn.len()
        invariant
            i <= asn@.len(),
            pairs_of(r@) == pairs_of(asn@).subrange(0, i as int),
        decreases asn@.len() - i,
    {
        let ghost before = r@;
        let w = asn[i].duplicate();
        r.push(w);
        assert(r@ == before.push(asn@[i as int]));
        assert(pairs_of(r@) =~= pairs_of(before).push((asn@[i as int].label@, asn@[i as int].value)));
        assert(pairs_of(r@) =~= pairs_of(asn@).subrange(0, i + 1));
        i += 1;
    }
    assert(pairs_of(asn@).subrange(0, asn@.len() as int) =~= pairs_of(asn@));
    r
}

/// A copy of a sequence of values.
pub fn copy_values_of<T: OrdT>(s: &Vec<T>) -> (r: Vec<T>)
    ensures
        r@ == s@,
{
    crate::walker::copy_vec(s)
}

} // verus!
