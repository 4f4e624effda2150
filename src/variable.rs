use vstd::prelude::*;
use vstd::string::StringExecFns;
use crate::value::{Duplicate, OrdT};
use crate::domain::TrailState;
use crate::setdom::{Domain, SetDom};

verus! {

/// A v-value: a variable label paired with a value.
#[derive(Debug, Hash)]
pub struct VValue<T> {
    pub label: String,
    pub value: T,
}

impl<T: OrdT> PartialEq for VValue<T> {
    fn eq(&self, other: &Self) -> (r: bool) {
        self.label == other.label && self.value.same(&other.value)
    }
}

impl<T: OrdT> vstd::std_specs::cmp::PartialEqSpecImpl for VValue<T> {
    open spec fn obeys_eq_spec() -> bool {
        true
    }

    open spec fn eq_spec(&self, other: &Self) -> bool {
        self.label@ == other.label@ && self.value == other.value
    }
}

impl<T: OrdT> Eq for VValue<T> {
}

impl<T: OrdT> Clone for VValue<T> {
    fn clone(&self) -> (r: Self) {
        self.duplicate()
    }
}

impl<T: OrdT> Duplicate for VValue<T> {
    fn duplicate(&self) -> (r: Self) {
        VValue { label: self.label.clone(), value: self.value.duplicate() }
    }
}

/// Builds the v-value `(label, value)`.
pub fn vv<T>(label: String, value: T) -> (r: VValue<T>)
    ensures
        r.label@ == label@,
        r.value == value,
{
    VValue { label, value }
}

/// The model of an assignment: its (label, value) pairs, in order.
pub type Asn<T> = Seq<(Seq<char>, T)>;

/// The value that the first pair labelled `l` gives, if any.
pub open spec fn lookup<T>(asn: Asn<T>, l: Seq<char>) -> Option<T>
    decreases asn.len(),
{
    if asn.len() == 0 {
        None
    } else if asn[0].0 == l {
        Some(asn[0].1)
    } else {
        lookup(asn.drop_first(), l)
    }
}

/// Some pair of `asn` is labelled `l`.
pub open spec fn binds<T>(asn: Asn<T>, l: Seq<char>) -> bool {
    exists|i: int| 0 <= i < asn.len() && (#[trigger] asn[i]).0 == l
}

pub proof fn lemma_lookup_binds<T>(asn: Asn<T>, l: Seq<char>)
    ensures
        lookup(asn, l).is_some() <==> binds(asn, l),
    decreases asn.len(),
{
    if asn.len() > 0 {
        lemma_lookup_binds(asn.drop_first(), l);
        if binds(asn, l) && asn[0].0 != l {
            let i = choose|i: int| 0 <= i < asn.len() && (#[trigger] asn[i]).0 == l;
            assert(asn.drop_first()[i - 1].0 == l);
        }
        if binds(asn.drop_first(), l) {
            let i = choose|i: int| 0 <= i < asn.len() - 1 && (#[trigger] asn.drop_first()[i]).0 == l;
            assert(asn[i + 1].0 == l);
        }
    }
}

/// The value bound to `l` in `asn`.
pub fn find_value<T: OrdT>(asn: &Vec<VValue<T>>, l: &String) -> (r: Option<T>)
    ensures
        r == lookup(pairs_of(asn@), l@),
{
    let ghost p = pairs_of(asn@);
    let mut i: usize = 0;
    assert(p.subrange(0, p.len() as int) =~= p);
    while i < asn.len()
        invariant
            i <= asn@.len(),
            p == pairs_of(asn@),
            lookup(p, l@) == lookup(p.subrange(i as int, p.len() as int), l@),
        decreases asn@.len() - i,
    {
        let ghost rest = p.subrange(i as int, p.len() as int);
        assert(rest.drop_first() =~= p.subrange(i + 1, p.len() as int));
        if asn[i].label == *l {
            return Some(asn[i].value.duplicate());
        }
        i += 1;
    }
    None
}

/// Whether some v-value of `asn` is labelled `l`.
pub fn is_bound<T: OrdT>(asn: &Vec<VValue<T>>, l: &String) -> (r: bool)
    ensures
        r == binds(pairs_of(asn@), l@),
{
    let mut i: usize = 0;
    while i < asn.len()
        invariant
            i <= asn@.len(),
            forall|j: int| 0 <= j < i ==> (#[trigger] asn@[j]).label@ != l@,
        decreases asn@.len() - i,
    {
        if asn[i].label == *l {
            assert(pairs_of(asn@)[i as int].0 == l@);
            return true;
        }
        i += 1;
    }
    assert forall|j: int| 0 <= j < asn@.len() implies (#[trigger] pairs_of(asn@)[j]).0 != l@ by {
        assert(pairs_of(asn@)[j].0 == asn@[j].label@);
    }
    false
}

/// The assignment pairing each label of `labels` with the value at the
/// same position of `values`, up to the shorter of the two.
pub open spec fn zip_assignment<T>(labels: Seq<Seq<char>>, values: Seq<T>) -> Seq<(Seq<char>, T)> {
    Seq::new(
        if labels.len() < values.len() {
            labels.len()
        } else {
            values.len()
        },
        |i: int| (labels[i], values[i]),
    )
}

/// The label/value pairs of an assignment.
pub open spec fn pairs_of<T>(asn: Seq<VValue<T>>) -> Seq<(Seq<char>, T)> {
    asn.map_values(|w: VValue<T>| (w.label@, w.value))
}

/// The views of a sequence of strings.
pub open spec fn labels_of(v: Seq<String>) -> Seq<Seq<char>> {
    v.map_values(|s: String| s@)
}

/// Pairs each label with the value at the same position.
pub fn make_assignment<T: OrdT>(scope: &Vec<String>, values: Vec<T>) -> (r: Vec<VValue<T>>)
    ensures
        pairs_of(r@) == zip_assignment(labels_of(scope@), values@),
{
    let n = if scope.len() < values.len() {
        scope.len()
    } else {
        values.len()
    };
    let mut r: Vec<VValue<T>> = Vec::new();
    let mut i: usize = 0;
    while i < n
        invariant
            i <= n,
            n <= scope@.len(),
            n <= values@.len(),
            n == if scope@.len() < values@.len() {
                scope@.len()
            } else {
                values@.len()
            },
            pairs_of(r@) == zip_assignment(labels_of(scope@), values@).subrange(0, i as int),
        decreases n - i,
    {
        let ghost before = r@;
        r.push(VValue { label: scope[i].clone(), value: values[i].duplicate() });
        assert(pairs_of(r@) =~= pairs_of(before).push((scope@[i as int]@, values@[i as int])));
        i += 1;
        assert(pairs_of(r@) =~= zip_assignment(labels_of(scope@), values@).subrange(0, i as int));
    }
    assert(zip_assignment(labels_of(scope@), values@).subrange(0, n as int) =~= zip_assignment(
        labels_of(scope@),
        values@,
    ));
    r
}

/// A variable: a label and the trailed domain of its values.
#[derive(Debug)]
pub struct ExVar<T> {
    label: String,
    dom: SetDom<T>,
}

impl<T: OrdT> ExVar<T> {
    pub closed spec fn label_spec(&self) -> Seq<char> {
        self.label@
    }

    pub closed spec fn dom_spec(&self) -> SetDom<T> {
        self.dom
    }

    pub open spec fn wf(&self) -> bool {
        self.dom_spec().wf()
    }

    /// The active values of the variable's domain.
    pub open spec fn active(&self) -> Seq<T> {
        self.dom_spec().active()
    }

    pub fn new(label: String, dom: SetDom<T>) -> (r: ExVar<T>)
        ensures
            r.label_spec() == label@,
            r.dom_spec() == dom,
    {
        ExVar { label, dom }
    }

    /// The value of the variable when exactly one value is active.
    pub fn value(&self) -> (r: Option<T>)
        requires
            self.wf(),
        ensures
            r == (if self.active().len() == 1 {
                Some(self.active()[0])
            } else {
                None
            }),
    {
        if self.dom.size() == 1 {
            let a = self.dom.active_values();
            Some(a[0].duplicate())
        } else {
            None
        }
    }

    pub fn valid_values(&self) -> (r: Vec<T>)
        requires
            self.wf(),
        ensures
            r@ == self.active(),
    {
        self.dom.active_values()
    }

    pub fn valid_size(&self) -> (r: usize)
        requires
            self.wf(),
        ensures
            r == self.active().len(),
    {
        self.dom.size()
    }

    pub fn label(&self) -> (r: &String)
        ensures
            r@ == self.label_spec(),
    {
        &self.label
    }

    pub fn dom(&self) -> (r: &SetDom<T>)
        ensures
            *r == self.dom_spec(),
    {
        &self.dom
    }

    pub fn dom_mut(&mut self) -> (r: &mut SetDom<T>)
        ensures
            *r == old(self).dom_spec(),
            final(self).dom_spec() == *final(r),
            final(self).label_spec() == old(self).label_spec(),
    {
        &mut self.dom
    }
}

impl<T: OrdT> PartialEq for ExVar<T> {
    fn eq(&self, other: &Self) -> (r: bool) {
        self.label == other.label
    }
}

impl<T: OrdT> vstd::std_specs::cmp::PartialEqSpecImpl for ExVar<T> {
    open spec fn obeys_eq_spec() -> bool {
        true
    }

    /// Variables are equal when their labels are.
    open spec fn eq_spec(&self, other: &Self) -> bool {
        self.label_spec() == other.label_spec()
    }
}

impl<T: OrdT> Eq for ExVar<T> {
}

/// `n` variables labelled `base_name` followed by 1, 2, ..., `n`, each
/// with its own copy of `dom`.
pub fn generate_variables<T: OrdT>(base_name: &str, n: usize, dom: &SetDom<T>) -> (r: Vec<ExVar<T>>)
    requires
        dom.wf(),
        n < usize::MAX,
    ensures
        r@.len() == n,
        forall|i: int| 0 <= i < n ==> (#[trigger] r@[i]).wf() && r@[i].dom_spec()@ == dom@,
{
    let mut vars: Vec<ExVar<T>> = Vec::new();
    let mut i: usize = 1;
    while i <= n
        invariant
            1 <= i <= n + 1,
            n < usize::MAX,
            dom.wf(),
            vars@.len() == i - 1,
            forall|j: int| 0 <= j < vars@.len() ==> (#[trigger] vars@[j]).wf() && vars@[j].dom_spec()@ == dom@,
        decreases n + 1 - i,
    {
        let mut label = String::from_str(base_name);
        let digits = i.to_string();
        label.append(digits.as_str());
        vars.push(ExVar::new(label, dom.snapshot()));
        i += 1;
    }
    vars
}

} // verus!
