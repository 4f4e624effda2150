use vstd::prelude::*;
use crate::value::OrdT;
use crate::variable::{Asn, VValue, find_value, labels_of, lookup, pairs_of};
use crate::constraint::ConstraintBase;
use crate::intensional::ConstraintError;

verus! {

/// The tuple `t`, laid out along `scope`, gives every scope variable the
/// value that `asn` gives it.
pub open spec fn tuple_matches<T>(asn: Asn<T>, scope: Seq<Seq<char>>, t: Asn<T>) -> bool {
    &&& t.len() == scope.len()
    &&& forall|j: int| 0 <= j < scope.len() ==> lookup(asn, #[trigger] scope[j]) == Some(t[j].1)
}

/// A constraint given by the list of its allowed tuples.
#[derive(Debug)]
pub struct ExtConstraint<T> {
    scope: Vec<String>,
    allowed: Vec<Vec<VValue<T>>>,
}

impl<T: OrdT> ExtConstraint<T> {
    /// The allowed tuples.
    pub closed spec fn allowed_spec(&self) -> Seq<Asn<T>> {
        self.allowed@.map_values(|t: Vec<VValue<T>>| pairs_of(t@))
    }

    /// A constraint over `scp` allowing the tuples of `rel`. Each tuple
    /// must list the scope's labels, in scope order.
    pub fn new(scp: Vec<String>, rel: Vec<Vec<VValue<T>>>) -> (r: Result<Self, ConstraintError>)
        ensures
            r.is_ok() == (forall|k: int|
                0 <= k < rel@.len() ==> (#[trigger] rel@[k])@.map_values(|w: VValue<T>| w.label@)
                    == labels_of(scp@)),
            r.is_err() ==> r == Err::<Self, ConstraintError>(ConstraintError::ScopeMismatch),
            r matches Ok(c) ==> c.scope_spec() == labels_of(scp@) && c.allowed_spec() == rel@.map_values(
                |t: Vec<VValue<T>>| pairs_of(t@),
            ),
    {
        let mut k: usize = 0;
        while k < rel.len()
            invariant
                k <= rel@.len(),
                forall|i: int|
                    0 <= i < k ==> (#[trigger] rel@[i])@.map_values(|w: VValue<T>| w.label@)
                        == labels_of(scp@),
            decreases rel@.len() - k,
        {
            let t = &rel[k];
            if t.len() != scp.len() {
                assert(t@.map_values(|w: VValue<T>| w.label@).len() != labels_of(scp@).len());
                return Err(ConstraintError::ScopeMismatch);
            }
            let mut j: usize = 0;
            while j < t.len()
                invariant
                    j <= t@.len(),
                    t@.len() == scp@.len(),
                    k < rel@.len(),
                    t@ == rel@[k as int]@,
                    forall|i: int|
                        0 <= i < k ==> (#[trigger] rel@[i])@.map_values(|w: VValue<T>| w.label@)
                            == labels_of(scp@),
                    forall|i: int| 0 <= i < j ==> (#[trigger] t@[i]).label@ == scp@[i]@,
                decreases t@.len() - j,
            {
                if t[j].label != scp[j] {
                    assert(t@.map_values(|w: VValue<T>| w.label@)[j as int] != labels_of(scp@)[j as int]);
                    assert(rel@[k as int]@.map_values(|w: VValue<T>| w.label@) != labels_of(scp@));
                    return Err(ConstraintError::ScopeMismatch);
                }
                j += 1;
            }
            assert(t@.map_values(|w: VValue<T>| w.label@) =~= labels_of(scp@));
            k += 1;
        }
        Ok(ExtConstraint { scope: scp, allowed: rel })
    }

    /// The allowed tuples as given.
    pub fn allowed(&self) -> (r: &Vec<Vec<VValue<T>>>)
        ensures
            r@.map_values(|t: Vec<VValue<T>>| pairs_of(t@)) == self.allowed_spec(),
    {
        &self.allowed
    }
}

/// Whether `asn` gives the scope variables the values of tuple `t`.
fn matches_tuple<T: OrdT>(asn: &Vec<VValue<T>>, scope: &Vec<String>, t: &Vec<VValue<T>>) -> (r: bool)
    ensures
        r == tuple_matches(pairs_of(asn@), labels_of(scope@), pairs_of(t@)),
{
    if t.len() != scope.len() {
        return false;
    }
    let mut j: usize = 0;
    while j < scope.len()
        invariant
            j <= scope@.len(),
            t@.len() == scope@.len(),
            forall|i: int|
                0 <= i < j ==> lookup(pairs_of(asn@), #[trigger] labels_of(scope@)[i]) == Some(
                    pairs_of(t@)[i].1,
                ),
        decreases scope@.len() - j,
    {
        let found = find_value(asn, &scope[j]);
        let ok = match found {
            Some(v) => v.same(&t[j].value),
            None => false,
        };
        if !ok {
            assert(labels_of(scope@)[j as int] == scope@[j as int]@);
            assert(pairs_of(t@)[j as int].1 == t@[j as int].value);
            return false;
        }
        j += 1;
    }
    true
}

impl<T: OrdT> ConstraintBase<T> for ExtConstraint<T> {
    closed spec fn scope_spec(&self) -> Seq<Seq<char>> {
        labels_of(self.scope@)
    }

    /// Some allowed tuple agrees with the assignment on the scope.
    open spec fn sat(&self, asn: Asn<T>) -> bool {
        exists|k: int|
            0 <= k < self.allowed_spec().len() && tuple_matches(
                asn,
                self.scope_spec(),
                #[trigger] self.allowed_spec()[k],
            )
    }

    fn scp(&self) -> (r: &Vec<String>) {
        &self.scope
    }

    /// The allowed tuples, printed.
    fn print(&self) -> String {
        crate::display::print_tuples(&self.allowed)
    }

    fn apply(&self, asn: &Vec<VValue<T>>) -> (r: bool) {
        let mut k: usize = 0;
        while k < self.allowed.len()
            invariant
                k <= self.allowed@.len(),
                forall|i: int|
                    0 <= i < k ==> !tuple_matches(
                        pairs_of(asn@),
                        self.scope_spec(),
                        #[trigger] self.allowed_spec()[i],
                    ),
            decreases self.allowed@.len() - k,
        {
            if matches_tuple(asn, &self.scope, &self.allowed[k]) {
                assert(self.allowed_spec()[k as int] == pairs_of(self.allowed@[k as int]@));
                return true;
            }
            assert(self.allowed_spec()[k as int] == pairs_of(self.allowed@[k as int]@));
            k += 1;
        }
        false
    }
}

} // verus!
