use vstd::prelude::*;
use crate::value::OrdT;
use crate::truth::Truth;
use crate::variable::{Asn, VValue, binds, labels_of, pairs_of};
use crate::expr::Eval;
use crate::pred::Pred;
use crate::formula::{
    Formula, eval_formula, formula_eval, formula_scope, formula_vars, lemma_formula_defined, print_formula,
};
use crate::label::{insert_label, lemma_push_to_set, sorted_labels};
use crate::constraint::{ConstraintBase, covers};

verus! {

/// Error of constraint construction.
#[derive(Debug, Clone, Copy, PartialEq, Eq, Structural)]
pub enum ConstraintError {
    /// The formula or a tuple mentions a variable that is not in the scope,
    /// or a tuple does not follow the scope.
    ScopeMismatch,
}

/// A constraint given by a formula over its scope.
#[derive(Debug)]
pub struct Intensional<T, E> {
    scope: Vec<String>,
    formula: Formula<E>,
    value: core::marker::PhantomData<T>,
}

impl<T: OrdT, E: Eval<Output = T>> Intensional<T, E> {
    pub closed spec fn formula_spec(&self) -> Formula<E> {
        self.formula
    }

    /// Every variable of the formula is in the scope.
    pub open spec fn inv(&self) -> bool {
        formula_vars(self.formula_spec()).subset_of(self.scope_spec().to_set())
    }

    /// A constraint over the given scope, canonicalized to ascending label
    /// order without repetitions. Every variable of the formula must be in
    /// the scope.
    pub fn new(scope: Vec<String>, formula: Formula<E>) -> (r: Result<Self, crate::intensional::ConstraintError>)
        ensures
            r.is_ok() == formula_vars(formula).subset_of(labels_of(scope@).to_set()),
            r.is_err() ==> r == Err::<Self, ConstraintError>(ConstraintError::ScopeMismatch),
            r matches Ok(c) ==> {
                &&& c.formula_spec() == formula
                &&& c.inv()
                &&& c.scope_spec().to_set() == labels_of(scope@).to_set()
                &&& sorted_labels(c.scope_spec())
                &&& c.scope_spec().no_duplicates()
            },
    {
        let mut scp: Vec<String> = Vec::new();
        let mut i: usize = 0;
        assert(labels_of(scp@).to_set() =~= labels_of(scope@).subrange(0, 0).to_set());
        while i < scope.len()
            invariant
                i <= scope@.len(),
                sorted_labels(labels_of(scp@)),
                labels_of(scp@).no_duplicates(),
                labels_of(scp@).to_set() == labels_of(scope@).subrange(0, i as int).to_set(),
            decreases scope@.len() - i,
        {
            insert_label(&mut scp, &scope[i]);
            assert(labels_of(scope@).subrange(0, i + 1) =~= labels_of(scope@).subrange(0, i as int).push(scope@[i as int]@));
            proof {
                lemma_push_to_set(labels_of(scope@).subrange(0, i as int), scope@[i as int]@);
            }
            i += 1;
        }
        assert(labels_of(scope@).subrange(0, i as int) =~= labels_of(scope@));
        let mut fv: Vec<String> = Vec::new();
        assert(labels_of(fv@) =~= Seq::<Seq<char>>::empty());
        formula_scope(&formula, &mut fv);
        assert(labels_of(fv@).to_set() =~= formula_vars(formula));
        let mut k: usize = 0;
        while k < fv.len()
            invariant
                k <= fv@.len(),
                labels_of(fv@).to_set() == formula_vars(formula),
                labels_of(scp@).to_set() == labels_of(scope@).to_set(),
                forall|j: int| 0 <= j < k ==> labels_of(scp@).contains(#[trigger] labels_of(fv@)[j]),
            decreases fv@.len() - k,
        {
            if !contains_label(&scp, &fv[k]) {
                assert(labels_of(fv@)[k as int] == fv@[k as int]@);
                assert(labels_of(fv@).contains(fv@[k as int]@));
                assert(!labels_of(scope@).to_set().contains(fv@[k as int]@));
                return Err(ConstraintError::ScopeMismatch);
            }
            k += 1;
        }
        assert forall|l: Seq<char>| formula_vars(formula).contains(l) implies labels_of(scope@).to_set().contains(l) by {
            assert(labels_of(fv@).to_set().contains(l));
            let j = choose|j: int| 0 <= j < labels_of(fv@).len() && labels_of(fv@)[j] == l;
        }
        Ok(Intensional { scope: scp, formula, value: core::marker::PhantomData })
    }

    /// A constraint whose scope is the variables of the formula, in
    /// ascending label order.
    pub fn from_formula(formula: Formula<E>) -> (r: Self)
        ensures
            r.formula_spec() == formula,
            r.inv(),
            r.scope_spec().to_set() == formula_vars(formula),
            sorted_labels(r.scope_spec()),
            r.scope_spec().no_duplicates(),
    {
        let mut scp: Vec<String> = Vec::new();
        assert(labels_of(scp@) =~= Seq::<Seq<char>>::empty());
        formula_scope(&formula, &mut scp);
        assert(labels_of(scp@).to_set() =~= formula_vars(formula));
        Intensional { scope: scp, formula, value: core::marker::PhantomData }
    }

    /// The constraint of a single predicate.
    pub fn from_pred(pred: Pred<E>) -> (r: Self)
        ensures
            r.formula_spec() == Formula::Atom(pred),
            r.inv(),
            r.scope_spec().to_set() == formula_vars(Formula::Atom(pred)),
            sorted_labels(r.scope_spec()),
            r.scope_spec().no_duplicates(),
    {
        Self::from_formula(Formula::atom(pred))
    }

}

/// On an assignment that covers the scope the formula is `True` or
/// `False`, never `Unknown`: `apply` decides it.
pub proof fn lemma_covered_decided<T: OrdT, E: Eval<Output = T>>(c: &Intensional<T, E>, asn: Asn<T>)
    requires
        c.inv(),
        covers(asn, c.scope_spec()),
    ensures
        formula_eval(c.formula_spec(), asn) != Truth::Unknown,
{
    assert forall|l: Seq<char>| formula_vars(c.formula_spec()).contains(l) implies binds(asn, l) by {
        assert(c.scope_spec().to_set().contains(l));
        let i = choose|i: int| 0 <= i < c.scope_spec().len() && c.scope_spec()[i] == l;
    }
    lemma_formula_defined(c.formula_spec(), asn);
}

/// Whether `l` is one of `s`.
pub fn contains_label(s: &Vec<String>, l: &String) -> (r: bool)
    ensures
        r == labels_of(s@).contains(l@),
{
    let mut i: usize = 0;
    while i < s.len()
        invariant
            i <= s@.len(),
            forall|j: int| 0 <= j < i ==> (#[trigger] labels_of(s@)[j]) != l@,
        decreases s@.len() - i,
    {
        if s[i] == *l {
            assert(labels_of(s@)[i as int] == l@);
            return true;
        }
        i += 1;
    }
    false
}

impl<T: OrdT, E: Eval<Output = T>> ConstraintBase<T> for Intensional<T, E> {
    closed spec fn scope_spec(&self) -> Seq<Seq<char>> {
        labels_of(self.scope@)
    }

    open spec fn sat(&self, asn: Asn<T>) -> bool {
        formula_eval(self.formula_spec(), asn) == Truth::True
    }

    fn scp(&self) -> (r: &Vec<String>) {
        &self.scope
    }

    fn apply(&self, asn: &Vec<VValue<T>>) -> (r: bool) {
        eval_formula(&self.formula, asn) == Truth::True
    }

    /// The formula, printed.
    fn print(&self) -> String {
        print_formula(&self.formula)
    }
}

} // verus!
