use vstd::prelude::*;
use crate::value::OrdT;
use crate::truth::{Truth, from_bool};
use crate::variable::{VValue, labels_of, pairs_of};
use crate::expr::{Eval, all_bound, join_printed, lemma_all_bound_union};
use crate::label::sorted_labels;

verus! {

/// A binary relational predicate over two expressions.
#[derive(Debug)]
pub enum Pred<E> {
    Eq(E, E),
    Neq(E, E),
    Lt(E, E),
    Le(E, E),
    Gt(E, E),
    Ge(E, E),
}

/// The relation a predicate applies to two values.
pub open spec fn pred_holds<E: Eval>(p: Pred<E>, x: E::Output, y: E::Output) -> bool {
    match p {
        Pred::Eq(_, _) => x == y,
        Pred::Neq(_, _) => x != y,
        Pred::Lt(_, _) => x.lt_spec(&y),
        Pred::Le(_, _) => x.lt_spec(&y) || x == y,
        Pred::Gt(_, _) => y.lt_spec(&x),
        Pred::Ge(_, _) => y.lt_spec(&x) || x == y,
    }
}

pub open spec fn pred_sides<E>(p: Pred<E>) -> (E, E) {
    match p {
        Pred::Eq(a, b) => (a, b),
        Pred::Neq(a, b) => (a, b),
        Pred::Lt(a, b) => (a, b),
        Pred::Le(a, b) => (a, b),
        Pred::Gt(a, b) => (a, b),
        Pred::Ge(a, b) => (a, b),
    }
}

/// Three-valued evaluation: `Unknown` unless both sides evaluate.
pub open spec fn pred_eval<E: Eval>(p: Pred<E>, asn: Seq<(Seq<char>, E::Output)>) -> Truth {
    match (pred_sides(p).0.eval_spec(asn), pred_sides(p).1.eval_spec(asn)) {
        (Some(x), Some(y)) => from_bool(pred_holds(p, x, y)),
        _ => Truth::Unknown,
    }
}

pub open spec fn pred_vars<E: Eval>(p: Pred<E>) -> Set<Seq<char>> {
    pred_sides(p).0.vars_spec() + pred_sides(p).1.vars_spec()
}

/// A predicate is `Unknown` exactly when one of its variables is unbound.
pub proof fn lemma_pred_defined<E: Eval>(p: Pred<E>, asn: Seq<(Seq<char>, E::Output)>)
    ensures
        pred_eval(p, asn) != Truth::Unknown <==> all_bound(asn, pred_vars(p)),
{
    pred_sides(p).0.lemma_eval_defined(asn);
    pred_sides(p).1.lemma_eval_defined(asn);
    lemma_all_bound_union(asn, pred_sides(p).0.vars_spec(), pred_sides(p).1.vars_spec());
}

impl<E: Eval> Pred<E> {
    pub fn eq(a: E, b: E) -> (r: Self)
        ensures
            r == Pred::Eq(a, b),
    {
        Pred::Eq(a, b)
    }

    pub fn neq(a: E, b: E) -> (r: Self)
        ensures
            r == Pred::Neq(a, b),
    {
        Pred::Neq(a, b)
    }

    pub fn lt(a: E, b: E) -> (r: Self)
        ensures
            r == Pred::Lt(a, b),
    {
        Pred::Lt(a, b)
    }

    pub fn le(a: E, b: E) -> (r: Self)
        ensures
            r == Pred::Le(a, b),
    {
        Pred::Le(a, b)
    }

    pub fn gt(a: E, b: E) -> (r: Self)
        ensures
            r == Pred::Gt(a, b),
    {
        Pred::Gt(a, b)
    }

    pub fn ge(a: E, b: E) -> (r: Self)
        ensures
            r == Pred::Ge(a, b),
    {
        Pred::Ge(a, b)
    }

    fn sides(&self) -> (r: (&E, &E))
        ensures
            (*r.0, *r.1) == pred_sides(*self),
    {
        match self {
            Pred::Eq(x, y) | Pred::Neq(x, y) | Pred::Lt(x, y) | Pred::Le(x, y) | Pred::Gt(x, y)
            | Pred::Ge(x, y) => (x, y),
        }
    }

    pub fn eval(&self, asn: &Vec<VValue<E::Output>>) -> (r: Truth)
        ensures
            r == pred_eval(*self, pairs_of(asn@)),
    {
        let (a, b) = self.sides();
        match (a.eval(asn), b.eval(asn)) {
            (Some(x), Some(y)) => {
                let ok = match self {
                    Pred::Eq(_, _) => x.same(&y),
                    Pred::Neq(_, _) => !x.same(&y),
                    Pred::Lt(_, _) => x.less(&y),
                    Pred::Le(_, _) => x.less(&y) || x.same(&y),
                    Pred::Gt(_, _) => y.less(&x),
                    Pred::Ge(_, _) => y.less(&x) || x.same(&y),
                };
                Truth::from_bool(ok)
            },
            _ => Truth::Unknown,
        }
    }
}

/// A printed form of the predicate.
pub fn print_predicate<E: Eval>(p: &Pred<E>) -> String {
    let op = match p {
        Pred::Eq(_, _) => " == ",
        Pred::Neq(_, _) => " <> ",
        Pred::Lt(_, _) => " < ",
        Pred::Le(_, _) => " <= ",
        Pred::Gt(_, _) => " > ",
        Pred::Ge(_, _) => " >= ",
    };
    let (a, b) = p.sides();
    join_printed(a.print(), op, b.print())
}

/// Adds the labels of the predicate's variables to a sorted list of
/// distinct labels.
pub fn pred_scope<E: Eval>(p: &Pred<E>, acc: &mut Vec<String>)
    requires
        sorted_labels(labels_of(old(acc)@)),
        labels_of(old(acc)@).no_duplicates(),
    ensures
        sorted_labels(labels_of(final(acc)@)),
        labels_of(final(acc)@).no_duplicates(),
        labels_of(final(acc)@).to_set() == labels_of(old(acc)@).to_set() + pred_vars(*p),
{
    let ghost s0 = labels_of(acc@).to_set();
    let (a, b) = p.sides();
    a.collect_vars(acc);
    b.collect_vars(acc);
    assert(s0 + a.vars_spec() + b.vars_spec() =~= s0 + pred_vars(*p));
}

} // verus!
