use vstd::prelude::*;
use vstd::string::StringExecFns;
use crate::value::{ArithT, OrdT};
use crate::variable::{ExVar, VValue, binds, labels_of, lemma_lookup_binds, lookup, pairs_of};
use crate::label::{insert_label, sorted_labels};

verus! {

/// An expression that evaluates to a value under an assignment.
pub trait Eval: Sized {
    type Output: OrdT;

    /// The value under `asn`; `None` when a variable is unbound.
    spec fn eval_spec(&self, asn: Seq<(Seq<char>, Self::Output)>) -> Option<Self::Output>;

    /// The labels of the variables the expression mentions.
    spec fn vars_spec(&self) -> Set<Seq<char>>;

    /// An expression evaluates exactly when all its variables are bound.
    proof fn lemma_eval_defined(&self, asn: Seq<(Seq<char>, Self::Output)>)
        ensures
            self.eval_spec(asn).is_some() <==> all_bound(asn, self.vars_spec()),
    ;

    fn eval(&self, asn: &Vec<VValue<Self::Output>>) -> (r: Option<Self::Output>)
        ensures
            r == self.eval_spec(pairs_of(asn@)),
    ;

    fn print(&self) -> String;

    /// Adds the labels of the expression's variables to a sorted list of
    /// distinct labels.
    fn collect_vars(&self, acc: &mut Vec<String>)
        requires
            sorted_labels(labels_of(old(acc)@)),
            labels_of(old(acc)@).no_duplicates(),
        ensures
            sorted_labels(labels_of(final(acc)@)),
            labels_of(final(acc)@).no_duplicates(),
            labels_of(final(acc)@).to_set() == labels_of(old(acc)@).to_set() + self.vars_spec(),
    ;
}

/// Every label of `ls` is bound in `asn`.
pub open spec fn all_bound<T>(asn: Seq<(Seq<char>, T)>, ls: Set<Seq<char>>) -> bool {
    forall|l: Seq<char>| ls.contains(l) ==> binds(asn, l)
}

/// A base expression: a constant or a variable, by label.
#[derive(Debug, Clone)]
pub enum Expr<T> {
    Const(T),
    Var(String),
}

/// An arithmetic expression over base expressions.
#[derive(Debug)]
pub enum AExpr<T> {
    Base(Expr<T>),
    Add(Box<AExpr<T>>, Box<AExpr<T>>),
    Sub(Box<AExpr<T>>, Box<AExpr<T>>),
    Mul(Box<AExpr<T>>, Box<AExpr<T>>),
}

impl<T: OrdT> Expr<T> {
    pub fn cst(v: T) -> (r: Self)
        ensures
            r == Expr::Const(v),
    {
        Expr::Const(v)
    }

    pub fn var(v: &ExVar<T>) -> (r: Self)
        ensures
            r matches Expr::Var(l) && l@ == v.label_spec(),
    {
        Expr::Var(v.label().clone())
    }
}

impl<T: ArithT> AExpr<T> {
    pub fn cst(v: T) -> (r: Self)
        ensures
            r == AExpr::Base(Expr::Const(v)),
    {
        AExpr::Base(Expr::Const(v))
    }

    pub fn var(v: &ExVar<T>) -> (r: Self)
        ensures
            r matches AExpr::Base(Expr::Var(l)) && l@ == v.label_spec(),
    {
        AExpr::Base(Expr::var(v))
    }

    pub fn add(a: AExpr<T>, b: AExpr<T>) -> (r: Self)
        ensures
            r == AExpr::Add(Box::new(a), Box::new(b)),
    {
        AExpr::Add(Box::new(a), Box::new(b))
    }

    pub fn sub(a: AExpr<T>, b: AExpr<T>) -> (r: Self)
        ensures
            r == AExpr::Sub(Box::new(a), Box::new(b)),
    {
        AExpr::Sub(Box::new(a), Box::new(b))
    }

    pub fn mul(a: AExpr<T>, b: AExpr<T>) -> (r: Self)
        ensures
            r == AExpr::Mul(Box::new(a), Box::new(b)),
    {
        AExpr::Mul(Box::new(a), Box::new(b))
    }
}

pub open spec fn expr_eval<T>(e: Expr<T>, asn: Seq<(Seq<char>, T)>) -> Option<T> {
    match e {
        Expr::Const(a) => Some(a),
        Expr::Var(l) => lookup(asn, l@),
    }
}

pub open spec fn expr_vars<T>(e: Expr<T>) -> Set<Seq<char>> {
    match e {
        Expr::Const(_) => Set::empty(),
        Expr::Var(l) => set![l@],
    }
}

/// Arithmetic evaluation; a missing operand gives `None`.
pub open spec fn aexpr_eval<T: ArithT>(e: AExpr<T>, asn: Seq<(Seq<char>, T)>) -> Option<T>
    decreases e,
{
    match e {
        AExpr::Base(b) => expr_eval(b, asn),
        AExpr::Add(a, b) => match (aexpr_eval(*a, asn), aexpr_eval(*b, asn)) {
            (Some(x), Some(y)) => Some(T::add_spec(x, y)),
            _ => None,
        },
        AExpr::Sub(a, b) => match (aexpr_eval(*a, asn), aexpr_eval(*b, asn)) {
            (Some(x), Some(y)) => Some(T::sub_spec(x, y)),
            _ => None,
        },
        AExpr::Mul(a, b) => match (aexpr_eval(*a, asn), aexpr_eval(*b, asn)) {
            (Some(x), Some(y)) => Some(T::mul_spec(x, y)),
            _ => None,
        },
    }
}

pub open spec fn aexpr_vars<T>(e: AExpr<T>) -> Set<Seq<char>>
    decreases e,
{
    match e {
        AExpr::Base(b) => expr_vars(b),
        AExpr::Add(a, b) => aexpr_vars(*a) + aexpr_vars(*b),
        AExpr::Sub(a, b) => aexpr_vars(*a) + aexpr_vars(*b),
        AExpr::Mul(a, b) => aexpr_vars(*a) + aexpr_vars(*b),
    }
}

impl<T: OrdT> Eval for Expr<T> {
    type Output = T;

    open spec fn eval_spec(&self, asn: Seq<(Seq<char>, T)>) -> Option<T> {
        expr_eval(*self, asn)
    }

    open spec fn vars_spec(&self) -> Set<Seq<char>> {
        expr_vars(*self)
    }

    proof fn lemma_eval_defined(&self, asn: Seq<(Seq<char>, T)>) {
        lemma_expr_defined(*self, asn);
    }

    fn eval(&self, asn: &Vec<VValue<T>>) -> (r: Option<T>) {
        match self {
            Expr::Const(a) => Some(a.duplicate()),
            Expr::Var(l) => crate::variable::find_value(asn, l),
        }
    }

    fn print(&self) -> String {
        match self {
            Expr::Const(a) => a.show(),
            Expr::Var(l) => l.clone(),
        }
    }

    fn collect_vars(&self, acc: &mut Vec<String>) {
        collect_vars_expr(self, acc);
    }
}

fn collect_vars_expr<T: OrdT>(e: &Expr<T>, acc: &mut Vec<String>)
    requires
        sorted_labels(labels_of(old(acc)@)),
        labels_of(old(acc)@).no_duplicates(),
    ensures
        sorted_labels(labels_of(final(acc)@)),
        labels_of(final(acc)@).no_duplicates(),
        labels_of(final(acc)@).to_set() == labels_of(old(acc)@).to_set() + expr_vars(*e),
{
    match e {
        Expr::Const(_) => {
            assert(labels_of(acc@).to_set() + expr_vars(*e) =~= labels_of(acc@).to_set());
        },
        Expr::Var(l) => {
            insert_label(acc, l);
            assert(labels_of(old(acc)@).to_set().insert(l@) =~= labels_of(old(acc)@).to_set()
                + expr_vars(*e));
        },
    }
}

fn eval_arith<T: ArithT>(e: &AExpr<T>, asn: &Vec<VValue<T>>) -> (r: Option<T>)
    ensures
        r == aexpr_eval(*e, pairs_of(asn@)),
    decreases e,
{
    match e {
        AExpr::Base(b) => b.eval(asn),
        AExpr::Add(a, b) => match (eval_arith(a, asn), eval_arith(b, asn)) {
            (Some(x), Some(y)) => Some(x.add_val(&y)),
            _ => None,
        },
        AExpr::Sub(a, b) => match (eval_arith(a, asn), eval_arith(b, asn)) {
            (Some(x), Some(y)) => Some(x.sub_val(&y)),
            _ => None,
        },
        AExpr::Mul(a, b) => match (eval_arith(a, asn), eval_arith(b, asn)) {
            (Some(x), Some(y)) => Some(x.mul_val(&y)),
            _ => None,
        },
    }
}

fn print_arith<T: ArithT>(e: &AExpr<T>) -> String
    decreases e,
{
    match e {
        AExpr::Base(b) => b.print(),
        AExpr::Add(a, b) => join_printed(print_arith(a), " + ", print_arith(b)),
        AExpr::Sub(a, b) => join_printed(print_arith(a), " - ", print_arith(b)),
        AExpr::Mul(a, b) => join_printed(print_arith(a), " * ", print_arith(b)),
    }
}

/// `a`, then `sep`, then `b`.
pub fn join_printed(a: String, sep: &str, b: String) -> (r: String)
    ensures
        r@ == a@ + sep@ + b@,
{
    let mut r = a;
    r.append(sep);
    r.append(b.as_str());
    r
}

fn collect_vars_arith<T: ArithT>(e: &AExpr<T>, acc: &mut Vec<String>)
    requires
        sorted_labels(labels_of(old(acc)@)),
        labels_of(old(acc)@).no_duplicates(),
    ensures
        sorted_labels(labels_of(final(acc)@)),
        labels_of(final(acc)@).no_duplicates(),
        labels_of(final(acc)@).to_set() == labels_of(old(acc)@).to_set() + aexpr_vars(*e),
    decreases e,
{
    let ghost s0 = labels_of(acc@).to_set();
    match e {
        AExpr::Base(b) => {
            collect_vars_expr(b, acc);
        },
        AExpr::Add(a, b) | AExpr::Sub(a, b) | AExpr::Mul(a, b) => {
            collect_vars_arith(a, acc);
            collect_vars_arith(b, acc);
            assert(s0 + aexpr_vars(**a) + aexpr_vars(**b) =~= s0 + aexpr_vars(*e));
        },
    }
}

proof fn lemma_expr_defined<T: OrdT>(e: Expr<T>, asn: Seq<(Seq<char>, T)>)
    ensures
        expr_eval(e, asn).is_some() <==> all_bound(asn, expr_vars(e)),
{
    if let Expr::Var(l) = e {
        lemma_lookup_binds(asn, l@);
        assert(expr_vars(e).contains(l@));
    }
}

/// Every label of `a + b` is bound exactly when those of `a` and of `b` are.
pub proof fn lemma_all_bound_union<T>(asn: Seq<(Seq<char>, T)>, a: Set<Seq<char>>, b: Set<Seq<char>>)
    ensures
        all_bound(asn, a + b) <==> all_bound(asn, a) && all_bound(asn, b),
{
    if all_bound(asn, a + b) {
        assert forall|l: Seq<char>| a.contains(l) implies binds(asn, l) by {
            assert((a + b).contains(l));
        }
        assert forall|l: Seq<char>| b.contains(l) implies binds(asn, l) by {
            assert((a + b).contains(l));
        }
    }
}

proof fn lemma_aexpr_defined<T: ArithT>(e: AExpr<T>, asn: Seq<(Seq<char>, T)>)
    ensures
        aexpr_eval(e, asn).is_some() <==> all_bound(asn, aexpr_vars(e)),
    decreases e,
{
    match e {
        AExpr::Base(b) => {
            lemma_expr_defined(b, asn);
        },
        AExpr::Add(a, b) | AExpr::Sub(a, b) | AExpr::Mul(a, b) => {
            lemma_aexpr_defined(*a, asn);
            lemma_aexpr_defined(*b, asn);
            lemma_all_bound_union(asn, aexpr_vars(*a), aexpr_vars(*b));
            assert(aexpr_vars(e) == aexpr_vars(*a) + aexpr_vars(*b));
        },
    }
}

impl<T: ArithT> Eval for AExpr<T> {
    type Output = T;

    open spec fn eval_spec(&self, asn: Seq<(Seq<char>, T)>) -> Option<T> {
        aexpr_eval(*self, asn)
    }

    open spec fn vars_spec(&self) -> Set<Seq<char>> {
        aexpr_vars(*self)
    }

    proof fn lemma_eval_defined(&self, asn: Seq<(Seq<char>, T)>) {
        lemma_aexpr_defined(*self, asn);
    }

    fn eval(&self, asn: &Vec<VValue<T>>) -> (r: Option<T>) {
        eval_arith(self, asn)
    }

    fn print(&self) -> String {
        print_arith(self)
    }

    fn collect_vars(&self, acc: &mut Vec<String>) {
        collect_vars_arith(self, acc);
    }
}

} // verus!
