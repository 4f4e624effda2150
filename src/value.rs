use vstd::prelude::*;

verus! {

/// A value that can be copied into an equal one.
pub trait Duplicate: Sized {
    fn duplicate(&self) -> (r: Self)
        ensures
            r == *self,
    ;
}

/// A value type of a problem: totally ordered, comparable for equality,
/// duplicable and printable.
pub trait OrdT: Duplicate {
    /// The strict order on values.
    spec fn lt_spec(&self, other: &Self) -> bool;

    proof fn lemma_lt_irreflexive(a: &Self)
        ensures
            !a.lt_spec(a),
    ;

    proof fn lemma_lt_transitive(a: &Self, b: &Self, c: &Self)
        requires
            a.lt_spec(b),
            b.lt_spec(c),
        ensures
            a.lt_spec(c),
    ;

    proof fn lemma_lt_total(a: &Self, b: &Self)
        ensures
            a == b || a.lt_spec(b) || b.lt_spec(a),
    ;

    fn same(&self, other: &Self) -> (r: bool)
        ensures
            r == (*self == *other),
    ;

    fn less(&self, other: &Self) -> (r: bool)
        ensures
            r == self.lt_spec(other),
    ;

    /// A printable form of the value.
    fn show(&self) -> String;
}

/// A value type with wrapping addition, subtraction and multiplication.
pub trait ArithT: OrdT {
    spec fn add_spec(a: Self, b: Self) -> Self;

    spec fn sub_spec(a: Self, b: Self) -> Self;

    spec fn mul_spec(a: Self, b: Self) -> Self;

    fn add_val(&self, other: &Self) -> (r: Self)
        ensures
            r == Self::add_spec(*self, *other),
    ;

    fn sub_val(&self, other: &Self) -> (r: Self)
        ensures
            r == Self::sub_spec(*self, *other),
    ;

    fn mul_val(&self, other: &Self) -> (r: Self)
        ensures
            r == Self::mul_spec(*self, *other),
    ;
}

impl Duplicate for i32 {
    fn duplicate(&self) -> (r: Self) {
        *self
    }
}

impl OrdT for i32 {
    open spec fn lt_spec(&self, other: &Self) -> bool {
        *self < *other
    }

    proof fn lemma_lt_irreflexive(a: &Self) {
    }

    proof fn lemma_lt_transitive(a: &Self, b: &Self, c: &Self) {
    }

    proof fn lemma_lt_total(a: &Self, b: &Self) {
    }

    fn same(&self, other: &Self) -> (r: bool) {
        *self == *other
    }

    fn less(&self, other: &Self) -> (r: bool) {
        *self < *other
    }

    fn show(&self) -> String {
        self.to_string()
    }
}

impl ArithT for i32 {
    open spec fn add_spec(a: Self, b: Self) -> Self {
        a.wrapping_add(b)
    }

    open spec fn sub_spec(a: Self, b: Self) -> Self {
        a.wrapping_sub(b)
    }

    open spec fn mul_spec(a: Self, b: Self) -> Self {
        a.wrapping_mul(b)
    }

    fn add_val(&self, other: &Self) -> (r: Self) {
        self.wrapping_add(*other)
    }

    fn sub_val(&self, other: &Self) -> (r: Self) {
        self.wrapping_sub(*other)
    }

    fn mul_val(&self, other: &Self) -> (r: Self) {
        self.wrapping_mul(*other)
    }
}

impl Duplicate for i64 {
    fn duplicate(&self) -> (r: Self) {
        *self
    }
}

impl OrdT for i64 {
    open spec fn lt_spec(&self, other: &Self) -> bool {
        *self < *other
    }

    proof fn lemma_lt_irreflexive(a: &Self) {
    }

    proof fn lemma_lt_transitive(a: &Self, b: &Self, c: &Self) {
    }

    proof fn lemma_lt_total(a: &Self, b: &Self) {
    }

    fn same(&self, other: &Self) -> (r: bool) {
        *self == *other
    }

    fn less(&self, other: &Self) -> (r: bool) {
        *self < *other
    }

    fn show(&self) -> String {
        self.to_string()
    }
}

impl ArithT for i64 {
    open spec fn add_spec(a: Self, b: Self) -> Self {
        a.wrapping_add(b)
    }

    open spec fn sub_spec(a: Self, b: Self) -> Self {
        a.wrapping_sub(b)
    }

    open spec fn mul_spec(a: Self, b: Self) -> Self {
        a.wrapping_mul(b)
    }

    fn add_val(&self, other: &Self) -> (r: Self) {
        self.wrapping_add(*other)
    }

    fn sub_val(&self, other: &Self) -> (r: Self) {
        self.wrapping_sub(*other)
    }

    fn mul_val(&self, other: &Self) -> (r: Self) {
        self.wrapping_mul(*other)
    }
}

} // verus!
