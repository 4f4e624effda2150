use vstd::prelude::*;
use vstd::string::StringExecFns;
use crate::value::OrdT;
use crate::setdom::{Domain, ExDom, SetDom};
use crate::variable::{ExVar, VValue};
use crate::constraint::ConstraintBase;
use crate::csp::Csp;
use crate::gac::Arc;

verus! {

/// The values as `{a,b,}`.
pub fn print_values<T: OrdT>(vals: &Vec<T>) -> String {
    let mut s = String::from_str("{");
    let mut i: usize = 0;
    while i < vals.len()
        decreases vals@.len() - i,
    {
        let v = vals[i].show();
        s.append(v.as_str());
        s.append(",");
        i += 1;
    }
    s.append("}");
    s
}

/// The values as `[a, b]`.
pub fn print_list<T: OrdT>(vals: &Vec<T>) -> String {
    let mut s = String::from_str("[");
    let mut i: usize = 0;
    while i < vals.len()
        decreases vals@.len() - i,
    {
        if i > 0 {
            s.append(", ");
        }
        let v = vals[i].show();
        s.append(v.as_str());
        i += 1;
    }
    s.append("]");
    s
}

impl<T: OrdT> SetDom<T> {
    /// The catalog, printed `{a,b,}`.
    pub fn print(&self) -> String {
        print_values(self.iter_all())
    }
}

impl<T: OrdT> ExDom<T> {
    /// The values, printed `{a,b,}`.
    pub fn print(&self) -> String {
        print_values(self.get())
    }
}

impl<T: OrdT> VValue<T> {
    /// The v-value, printed `(label, value)`.
    pub fn print(&self) -> String {
        let mut s = String::from_str("(");
        s.append(self.label.as_str());
        s.append(", ");
        let v = self.value.show();
        s.append(v.as_str());
        s.append(")");
        s
    }
}

impl<T: OrdT> ExVar<T> {
    /// The variable, printed `label : [active values]`.
    pub fn print(&self) -> String
        requires
            self.wf(),
    {
        let mut s = self.label().clone();
        s.append(" : ");
        let vals = self.valid_values();
        let l = print_list(&vals);
        s.append(l.as_str());
        s
    }
}

/// Allowed tuples, printed one per line as `  [(x, a)(y, b)],`, in braces.
pub fn print_tuples<T: OrdT>(tuples: &Vec<Vec<VValue<T>>>) -> String {
    let mut s = String::from_str("{");
    let mut i: usize = 0;
    while i < tuples.len()
        decreases tuples@.len() - i,
    {
        s.append("  [");
        let t = &tuples[i];
        let mut j: usize = 0;
        while j < t.len()
            decreases t@.len() - j,
        {
            let w = t[j].print();
            s.append(w.as_str());
            j += 1;
        }
        s.append("],\n");
        i += 1;
    }
    s.append("}");
    s
}

impl<T: OrdT, C: ConstraintBase<T>> Csp<T, C> {
    /// The problem, printed with one variable and one constraint per line.
    pub fn print(&self) -> String
        requires
            self.wf(),
    {
        let mut s = String::from_str("csp {\n   variable {\n");
        let vs = self.vars();
        let mut i: usize = 0;
        while i < vs.len()
            invariant
                vs@ == self.vars_spec(),
                self.wf(),
            decreases vs@.len() - i,
        {
            s.append("        ");
            let v = vs[i].print();
            s.append(v.as_str());
            s.append("\n");
            i += 1;
        }
        s.append("   }\n   constraint {\n");
        let cs = self.constraints();
        let mut k: usize = 0;
        while k < cs.len()
            decreases cs@.len() - k,
        {
            s.append("      ");
            let c = cs[k].print();
            s.append(c.as_str());
            s.append("\n");
            k += 1;
        }
        s.append("   }\n}");
        s
    }
}

impl Arc {
    /// The arc, printed `(constraint, variable)`.
    pub fn print(&self) -> String {
        let mut s = String::from_str("(");
        let c = self.constraint.to_string();
        s.append(c.as_str());
        s.append(", ");
        s.append(self.variable.as_str());
        s.append(")");
        s
    }
}

} // verus!
