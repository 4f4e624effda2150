use vstd::prelude::*;
use vstd::string::StringExecFns;
use crate::truth::{Truth, and_spec, not_spec, or_spec};
use crate::variable::{VValue, labels_of, pairs_of};
use crate::expr::{Eval, all_bound, join_printed, lemma_all_bound_union};
use crate::pred::{Pred, lemma_pred_defined, pred_eval, pred_scope, pred_vars, print_predicate};
use crate::label::sorted_labels;

verus! {

/// A boolean combination of predicates.
#[derive(Debug)]
pub enum Formula<E> {
    Atom(Pred<E>),
    Not(Box<Formula<E>>),
    And(Vec<Formula<E>>),
    Or(Vec<Formula<E>>),
}

impl<E: Eval> Formula<E> {
    pub fn atom(p: Pred<E>) -> (r: Self)
        ensures
            r == Formula::Atom(p),
    {
        Formula::Atom(p)
    }

    pub fn not(f: Formula<E>) -> (r: Self)
        ensures
            r == Formula::Not(Box::new(f)),
    {
        Formula::Not(Box::new(f))
    }

    pub fn and(fs: Vec<Formula<E>>) -> (r: Self)
        ensures
            r == Formula::And(fs),
    {
        Formula::And(fs)
    }

    pub fn or(fs: Vec<Formula<E>>) -> (r: Self)
        ensures
            r == Formula::Or(fs),
    {
        Formula::Or(fs)
    }
}

/// Three-valued evaluation. An empty conjunction is `True`, an empty
/// disjunction `False`.
pub open spec fn formula_eval<E: Eval>(f: Formula<E>, asn: Seq<(Seq<char>, E::Output)>) -> Truth
    decreases f, 0int,
{
    match f {
        Formula::Atom(p) => pred_eval(p, asn),
        Formula::Not(g) => not_spec(formula_eval(*g, asn)),
        Formula::And(fs) => and_fold(fs, asn, fs.len() as int),
        Formula::Or(fs) => or_fold(fs, asn, fs.len() as int),
    }
}

/// Conjunction of the first `n` formulas.
pub open spec fn and_fold<E: Eval>(fs: Vec<Formula<E>>, asn: Seq<(Seq<char>, E::Output)>, n: int) -> Truth
    decreases fs, n,
{
    if n <= 0 || n > fs.len() {
        Truth::True
    } else {
        and_spec(and_fold(fs, asn, n - 1), formula_eval(fs[n - 1], asn))
    }
}

/// Disjunction of the first `n` formulas.
pub open spec fn or_fold<E: Eval>(fs: Vec<Formula<E>>, asn: Seq<(Seq<char>, E::Output)>, n: int) -> Truth
    decreases fs, n,
{
    if n <= 0 || n > fs.len() {
        Truth::False
    } else {
        or_spec(or_fold(fs, asn, n - 1), formula_eval(fs[n - 1], asn))
    }
}

/// The labels of the variables a formula mentions.
pub open spec fn formula_vars<E: Eval>(f: Formula<E>) -> Set<Seq<char>>
    decreases f, 0int,
{
    match f {
        Formula::Atom(p) => pred_vars(p),
        Formula::Not(g) => formula_vars(*g),
        Formula::And(fs) => vars_fold(fs, fs.len() as int),
        Formula::Or(fs) => vars_fold(fs, fs.len() as int),
    }
}

pub open spec fn vars_fold<E: Eval>(fs: Vec<Formula<E>>, n: int) -> Set<Seq<char>>
    decreases fs, n,
{
    if n <= 0 || n > fs.len() {
        Set::empty()
    } else {
        vars_fold(fs, n - 1) + formula_vars(fs[n - 1])
    }
}

/// A formula whose variables are all bound is not `Unknown`.
pub proof fn lemma_formula_defined<E: Eval>(f: Formula<E>, asn: Seq<(Seq<char>, E::Output)>)
    requires
        all_bound(asn, formula_vars(f)),
    ensures
        formula_eval(f, asn) != Truth::Unknown,
    decreases f, 0int,
{
    match f {
        Formula::Atom(p) => lemma_pred_defined(p, asn),
        Formula::Not(g) => lemma_formula_defined(*g, asn),
        Formula::And(fs) => lemma_fold_defined(fs, asn, fs.len() as int),
        Formula::Or(fs) => lemma_fold_defined(fs, asn, fs.len() as int),
    }
}

proof fn lemma_fold_defined<E: Eval>(fs: Vec<Formula<E>>, asn: Seq<(Seq<char>, E::Output)>, n: int)
    requires
        all_bound(asn, vars_fold(fs, n)),
    ensures
        and_fold(fs, asn, n) != Truth::Unknown,
        or_fold(fs, asn, n) != Truth::Unknown,
    decreases fs, n,
{
    if 0 < n <= fs.len() {
        lemma_all_bound_union(asn, vars_fold(fs, n - 1), formula_vars(fs[n - 1]));
        lemma_fold_defined(fs, asn, n - 1);
        lemma_formula_defined(fs[n - 1], asn);
    }
}

pub fn eval_formula<E: Eval>(f: &Formula<E>, asn: &Vec<VValue<E::Output>>) -> (r: Truth)
    ensures
        r == formula_eval(*f, pairs_of(asn@)),
    decreases f,
{
    match f {
        Formula::Atom(p) => p.eval(asn),
        Formula::Not(g) => eval_formula(g, asn).negate(),
        Formula::And(fs) => {
            let mut acc = Truth::True;
            let mut i: usize = 0;
            while i < fs.len()
                invariant
                    i <= fs.len(),
                    acc == and_fold(*fs, pairs_of(asn@), i as int),
                    *f == Formula::And(*fs),
                    formula_vars(*f) == vars_fold(*fs, fs.len() as int),
                decreases fs.len() - i,
            {
                proof {
                    assert(decreases_to!(*fs => fs[i as int]));
                }
                acc = acc.and(eval_formula(&fs[i], asn));
                i += 1;
            }
            acc
        },
        Formula::Or(fs) => {
            let mut acc = Truth::False;
            let mut i: usize = 0;
            while i < fs.len()
                invariant
                    i <= fs.len(),
                    acc == or_fold(*fs, pairs_of(asn@), i as int),
                    *f == Formula::Or(*fs),
                    formula_vars(*f) == vars_fold(*fs, fs.len() as int),
                decreases fs.len() - i,
            {
                proof {
                    assert(decreases_to!(*fs => fs[i as int]));
                }
                acc = acc.or(eval_formula(&fs[i], asn));
                i += 1;
            }
            acc
        },
    }
}

/// A printed form of the formula.
pub fn print_formula<E: Eval>(f: &Formula<E>) -> String
    decreases f,
{
    match f {
        Formula::Atom(p) => print_predicate(p),
        Formula::Not(g) => join_printed(String::new(), "! ", print_formula(g)),
        Formula::And(fs) | Formula::Or(fs) => {
            let sep = match f {
                Formula::And(_) => "&& ",
                _ => "|| ",
            };
            let mut out = String::new();
            let mut i: usize = 0;
            while i < fs.len()
                invariant
                    i <= fs.len(),
                    *f == Formula::And(*fs) || *f == Formula::Or(*fs),
                    formula_vars(*f) == vars_fold(*fs, fs.len() as int),
                decreases fs.len() - i,
            {
                out.append(sep);
                proof {
                    assert(decreases_to!(*fs => fs[i as int]));
                }
                let g = print_formula(&fs[i]);
                out.append(g.as_str());
                i += 1;
            }
            out
        },
    }
}

/// Adds the labels of the formula's variables to a sorted list of
/// distinct labels.
pub fn formula_scope<E: Eval>(f: &Formula<E>, acc: &mut Vec<String>)
    requires
        sorted_labels(labels_of(old(acc)@)),
        labels_of(old(acc)@).no_duplicates(),
    ensures
        sorted_labels(labels_of(final(acc)@)),
        labels_of(final(acc)@).no_duplicates(),
        labels_of(final(acc)@).to_set() == labels_of(old(acc)@).to_set() + formula_vars(*f),
    decreases f,
{
    let ghost s0 = labels_of(acc@).to_set();
    match f {
        Formula::Atom(p) => pred_scope(p, acc),
        Formula::Not(g) => formula_scope(g, acc),
        Formula::And(fs) | Formula::Or(fs) => {
            let mut i: usize = 0;
            while i < fs.len()
                invariant
                    i <= fs.len(),
                    sorted_labels(labels_of(acc@)),
                    labels_of(acc@).no_duplicates(),
                    labels_of(acc@).to_set() == s0 + vars_fold(*fs, i as int),
                    formula_vars(*f) == vars_fold(*fs, fs.len() as int),
                    *f == Formula::And(*fs) || *f == Formula::Or(*fs),
                decreases fs.len() - i,
            {
                formula_scope(&fs[i], acc);
                assert(s0 + vars_fold(*fs, i as int) + formula_vars(fs[i as int]) =~= s0 + vars_fold(*fs, i + 1));
                i += 1;
            }
        },
    }
}

} // verus!
