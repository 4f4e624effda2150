use vstd::prelude::*;
use crate::value::OrdT;
use crate::truth::Truth;
use crate::variable::{Asn, ExVar, VValue, binds, labels_of, pairs_of, vv};
use crate::setdom::Domain;
use crate::constraint::{
    Constraint, ConstraintBase, covers, dom_of, doms_of, extensions, has_accepted_extension,
    store_wf, support_asn_spec, unbound, valid_spec,
};
use crate::csp::{Csp, find_var, lemma_total_size_update, total_size, var_labels};
use crate::intensional::contains_label;

verus! {

/// An arc: variable `variable` of the scope of constraint number
/// `constraint`, whose values may have lost their supports.
#[derive(Debug)]
pub struct Arc {
    pub constraint: usize,
    pub variable: String,
}

/// Value `a` of variable `x` has a support in `c` under the domains of `vars`.
pub open spec fn supported<T: OrdT, C: ConstraintBase<T>>(
    c: C,
    vars: Seq<ExVar<T>>,
    x: Seq<char>,
    a: T,
) -> bool {
    support_asn_spec(&c, vars, seq![(x, a)]) == Truth::True
}

/// Every active value of `x` has a support in `c`.
pub open spec fn arc_ok<T: OrdT, C: ConstraintBase<T>>(c: C, vars: Seq<ExVar<T>>, x: Seq<char>) -> bool {
    forall|a: T| dom_of(vars, x).contains(a) ==> supported(c, vars, x, a)
}

/// The arc `(ci, x)` is in the queue.
pub open spec fn queued(q: Seq<Arc>, ci: int, x: Seq<char>) -> bool {
    exists|k: int| 0 <= k < q.len() && (#[trigger] q[k]).constraint == ci && q[k].variable@ == x
}

/// Generalized arc consistency, past variables aside: every active value
/// of every other variable has a support in every constraint on it.
pub open spec fn gac<T: OrdT, C: ConstraintBase<T>>(
    vars: Seq<ExVar<T>>,
    cs: Seq<C>,
    past: Seq<Seq<char>>,
) -> bool {
    forall|ci: int, x: Seq<char>|
        0 <= ci < cs.len() && #[trigger] cs[ci].scope_spec().contains(x) && !past.contains(x)
            ==> arc_ok(cs[ci], vars, x)
}

/// Every arc that is not consistent is waiting in the queue.
pub open spec fn queue_inv<T: OrdT, C: ConstraintBase<T>>(
    vars: Seq<ExVar<T>>,
    cs: Seq<C>,
    past: Seq<Seq<char>>,
    q: Seq<Arc>,
) -> bool {
    forall|ci: int, x: Seq<char>|
        0 <= ci < cs.len() && #[trigger] cs[ci].scope_spec().contains(x) && !past.contains(x)
            ==> arc_ok(cs[ci], vars, x) || queued(q, ci, x)
}

/// The arc `(ci, x)` is seeded by `events`: another variable of the scope
/// is an event.
pub open spec fn seeded<T: OrdT, C: ConstraintBase<T>>(c: C, x: Seq<char>, events: Seq<Seq<char>>) -> bool {
    exists|j: int|
        0 <= j < c.scope_spec().len() && (#[trigger] c.scope_spec()[j]) != x && events.contains(
            c.scope_spec()[j],
        )
}

/// Every arc that the events do not seed is consistent to begin with.
pub open spec fn seeds_suffice<T: OrdT, C: ConstraintBase<T>>(
    vars: Seq<ExVar<T>>,
    cs: Seq<C>,
    past: Seq<Seq<char>>,
    events: Seq<Seq<char>>,
) -> bool {
    forall|ci: int, x: Seq<char>|
        0 <= ci < cs.len() && #[trigger] cs[ci].scope_spec().contains(x) && !past.contains(x)
            ==> arc_ok(cs[ci], vars, x) || seeded(cs[ci], x, events)
}

/// With distinct labels, the domain of a label is that of its variable.
pub proof fn lemma_dom_of_index<T: OrdT>(vars: Seq<ExVar<T>>, i: int)
    requires
        0 <= i < vars.len(),
        var_labels(vars).no_duplicates(),
    ensures
        dom_of(vars, vars[i].label_spec()) == vars[i].active(),
    decreases vars.len(),
{
    if i > 0 {
        assert(var_labels(vars)[0] != var_labels(vars)[i]);
        let rest = vars.drop_first();
        assert(var_labels(rest) =~= var_labels(vars).drop_first());
        assert(rest[i - 1] == vars[i]);
        lemma_dom_of_index(rest, i - 1);
    }
}

/// Changing the domain of variable `i` leaves the domains of the other
/// labels as they are.
pub proof fn lemma_dom_of_update<T: OrdT>(vars: Seq<ExVar<T>>, i: int, x: ExVar<T>, l: Seq<char>)
    requires
        0 <= i < vars.len(),
        x.label_spec() == vars[i].label_spec(),
        l != x.label_spec(),
    ensures
        dom_of(vars.update(i, x), l) == dom_of(vars, l),
    decreases vars.len(),
{
    let u = vars.update(i, x);
    if i == 0 {
        assert(u.drop_first() =~= vars.drop_first());
    } else {
        assert(u.drop_first() =~= vars.drop_first().update(i - 1, x));
        if vars[0].label_spec() != l {
            lemma_dom_of_update(vars.drop_first(), i - 1, x, l);
        }
    }
}

/// The unbound labels are scope labels that `asn` does not bind.
pub proof fn lemma_unbound<T>(scope: Seq<Seq<char>>, asn: Asn<T>)
    ensures
        forall|k: int|
            0 <= k < unbound(scope, asn).len() ==> scope.contains(#[trigger] unbound(scope, asn)[k])
                && !binds(asn, unbound(scope, asn)[k]),
    decreases scope.len(),
{
    if scope.len() > 0 {
        let rest = scope.drop_last();
        lemma_unbound(rest, asn);
        let u = unbound(scope, asn);
        assert forall|k: int| 0 <= k < u.len() implies scope.contains(#[trigger] u[k]) && !binds(asn, u[k]) by {
            if k < unbound(rest, asn).len() {
                assert(u[k] == unbound(rest, asn)[k]);
                let m = choose|m: int| 0 <= m < rest.len() && rest[m] == u[k];
                assert(scope[m] == u[k]);
            } else {
                assert(u[k] == scope.last());
                assert(scope[scope.len() - 1] == u[k]);
            }
        }
    }
}

/// The extensions of `asn` do not depend on the domain of a label that is
/// not among the unbound ones.
pub proof fn lemma_extensions_frame<T: OrdT>(
    vars: Seq<ExVar<T>>,
    i: int,
    x: ExVar<T>,
    scope: Seq<Seq<char>>,
    asn: Asn<T>,
)
    requires
        0 <= i < vars.len(),
        x.label_spec() == vars[i].label_spec(),
        !unbound(scope, asn).contains(x.label_spec()),
    ensures
        extensions(vars.update(i, x), scope, asn) == extensions(vars, scope, asn),
{
    let missing = unbound(scope, asn);
    assert forall|k: int| 0 <= k < missing.len() implies #[trigger] doms_of(vars.update(i, x), missing)[k]
        == doms_of(vars, missing)[k] by {
        assert(missing[k] != x.label_spec());
        lemma_dom_of_update(vars, i, x, missing[k]);
    }
    assert(doms_of(vars.update(i, x), missing) =~= doms_of(vars, missing));
}

/// Shrinking the domain of `x` keeps the support status of a value of
/// `x` that stays, and of any value of a variable of a constraint that
/// does not involve `x`.
pub proof fn lemma_support_frame<T: OrdT, C: ConstraintBase<T>>(
    c: C,
    vars: Seq<ExVar<T>>,
    i: int,
    x: ExVar<T>,
    y: Seq<char>,
    a: T,
)
    requires
        0 <= i < vars.len(),
        x.label_spec() == vars[i].label_spec(),
        y == x.label_spec() ==> dom_of(vars.update(i, x), y).contains(a) && dom_of(vars, y).contains(a),
        y != x.label_spec() ==> !c.scope_spec().contains(x.label_spec()),
    ensures
        supported(c, vars.update(i, x), y, a) == supported(c, vars, y, a),
{
    let asn = seq![(y, a)];
    let u = vars.update(i, x);
    lemma_unbound(c.scope_spec(), asn);
    if unbound(c.scope_spec(), asn).contains(x.label_spec()) {
        let k = choose|k: int| 0 <= k < unbound(c.scope_spec(), asn).len() && unbound(c.scope_spec(), asn)[k] == x.label_spec();
        if y == x.label_spec() {
            assert(asn[0].0 == y);
            assert(binds(asn, y));
        }
    }
    lemma_extensions_frame(vars, i, x, c.scope_spec(), asn);
    if y != x.label_spec() {
        lemma_dom_of_update(vars, i, x, y);
    }
    assert(valid_spec(&c, u, asn[0]) == valid_spec(&c, vars, asn[0]));
    assert((exists|j: int| 0 <= j < asn.len() && valid_spec(&c, u, #[trigger] asn[j]) == Truth::False)
        == (exists|j: int| 0 <= j < asn.len() && valid_spec(&c, vars, #[trigger] asn[j]) == Truth::False));
}

/// Whether value `a` of the variable labelled `x` has a support in `c`.
pub fn seek_support<T: OrdT, C: ConstraintBase<T>>(c: &C, vars: &Vec<ExVar<T>>, x: &String, a: &T) -> (r: bool)
    requires
        store_wf(vars@),
    ensures
        r == supported(*c, vars@, x@, *a),
{
    let asn = vec![vv(x.clone(), a.duplicate())];
    assert(pairs_of(asn@) =~= seq![(x@, *a)]);
    c.is_support_asn(vars, &asn) == Truth::True
}

/// Removes from the domain of variable `xi` the values without a support
/// in constraint `ci`, at the current level; tells whether any went.
pub fn revise<T: OrdT, C: ConstraintBase<T>>(csp: &mut Csp<T, C>, ci: usize, xi: usize) -> (changed: bool)
    requires
        old(csp).wf(),
        ci < old(csp).cons_spec().len(),
        xi < old(csp).vars_spec().len(),
    ensures
        final(csp).wf(),
        final(csp).cons_spec() == old(csp).cons_spec(),
        final(csp).past_spec() == old(csp).past_spec(),
        final(csp).vars_spec().len() == old(csp).vars_spec().len(),
        forall|j: int| 0 <= j < old(csp).vars_spec().len() && j != xi ==> #[trigger] final(csp).vars_spec()[j] == old(csp).vars_spec()[j],
        final(csp).vars_spec()[xi as int].label_spec() == old(csp).vars_spec()[xi as int].label_spec(),
        forall|a: T| #[trigger] final(csp).vars_spec()[xi as int].active().contains(a) <==> old(csp).vars_spec()[xi as int].active().contains(a)
            && supported(old(csp).cons_spec()[ci as int], old(csp).vars_spec(), old(csp).vars_spec()[xi as int].label_spec(), a),
        changed == (final(csp).vars_spec()[xi as int].active().len() < old(csp).vars_spec()[xi as int].active().len()),
        !changed ==> final(csp).vars_spec() == old(csp).vars_spec(),
{
    let ghost v0 = csp.vars_spec();
    let ghost c0 = csp.cons_spec()[ci as int];
    let x = csp.vars()[xi].label().clone();
    let d = csp.vars()[xi].valid_values();
    let mut unsupported: Vec<T> = Vec::new();
    let mut k: usize = 0;
    while k < d.len()
        invariant
            k <= d@.len(),
            csp.wf(),
            csp.vars_spec() == v0,
            xi < v0.len(),
            d@ == v0[xi as int].active(),
            ci < csp.cons_spec().len(),
            c0 == csp.cons_spec()[ci as int],
            x@ == v0[xi as int].label_spec(),
            forall|a: T| unsupported@.contains(a) <==> d@.subrange(0, k as int).contains(a) && !supported(c0, v0, x@, a),
        decreases d@.len() - k,
    {
        let ghost u0 = unsupported@;
        let ghost sub = d@.subrange(0, k + 1);
        assert(sub =~= d@.subrange(0, k as int).push(d@[k as int]));
        if !seek_support(&csp.constraints()[ci], csp.vars(), &x, &d[k]) {
            unsupported.push(d[k].duplicate());
        }
        proof {
            assert forall|a: T| unsupported@.contains(a) <==> sub.contains(a) && !supported(c0, v0, x@, a) by {
                if sub.contains(a) && !d@.subrange(0, k as int).contains(a) {
                    let m = choose|m: int| 0 <= m < sub.len() && sub[m] == a;
                    if m < k {
                        assert(d@.subrange(0, k as int)[m] == a);
                    }
                }
                if d@.subrange(0, k as int).contains(a) {
                    let m = choose|m: int| 0 <= m < k && d@.subrange(0, k as int)[m] == a;
                    assert(sub[m] == a);
                }
                if a == d@[k as int] {
                    assert(sub[k as int] == a);
                }
                if unsupported@.contains(a) && !u0.contains(a) {
                    let m = choose|m: int| 0 <= m < unsupported@.len() && unsupported@[m] == a;
                    assert(m == u0.len());
                }
                if u0.contains(a) {
                    let m = choose|m: int| 0 <= m < u0.len() && u0[m] == a;
                    assert(unsupported@[m] == a);
                }
                if a == d@[k as int] && !supported(c0, v0, x@, a) {
                    assert(unsupported@[u0.len() as int] == a);
                }
            }
        }
        k += 1;
    }
    assert(d@.subrange(0, d@.len() as int) =~= d@);
    if unsupported.len() == 0 {
        proof {
            assert forall|a: T| #[trigger] csp.vars_spec()[xi as int].active().contains(a) implies supported(c0, v0, x@, a) by {
                if !supported(c0, v0, x@, a) {
                    assert(unsupported@.contains(a));
                }
            }
        }
        return false;
    }
    let lvl = csp.level();
    assert(csp.vars_spec() == v0);
    csp.remove_values(xi, &unsupported, lvl);
    proof {
        assert forall|a: T| #[trigger] csp.vars_spec()[xi as int].active().contains(a) <==> v0[xi as int].active().contains(a)
            && supported(c0, v0, x@, a) by {
            assert(csp.vars_spec()[xi as int].active().contains(a) <==> v0[xi as int].active().contains(a) && !unsupported@.contains(a));
            if v0[xi as int].active().contains(a) {
                assert(d@.contains(a));
                assert(d@.subrange(0, d@.len() as int).contains(a));
            }
        }
        let a = unsupported@[0];
        assert(unsupported@.contains(a));
        assert(v0[xi as int].active().contains(a) && unsupported@.contains(a));
    }
    true
}

/// Enforces generalized arc consistency at the current level. The queue
/// starts with the arcs `(c, x)`, `x` not past, where another variable of
/// the scope of `c` is among `events`; arcs are revised first in, first
/// out. When revising `(c, x)` removes values, every arc `(c', x')` with `x`
/// in the scope of `c'`, `x' != x` and `x'` not past is queued again
/// (`c' == c` included). Returns `false` as soon as a domain is wiped out.
pub fn enforce_gac<T: OrdT, C: ConstraintBase<T>>(csp: &mut Csp<T, C>, events: &Vec<String>) -> (r: bool)
    requires
        old(csp).wf(),
    ensures
        final(csp).wf(),
        final(csp).cons_spec() == old(csp).cons_spec(),
        final(csp).past_spec() == old(csp).past_spec(),
        final(csp).vars_spec().len() == old(csp).vars_spec().len(),
        forall|i: int| 0 <= i < final(csp).vars_spec().len() ==> (#[trigger] final(csp).vars_spec()[i]).label_spec()
            == old(csp).vars_spec()[i].label_spec(),
        forall|i: int, a: T|
            0 <= i < final(csp).vars_spec().len() && #[trigger] final(csp).vars_spec()[i].active().contains(a)
                ==> old(csp).vars_spec()[i].active().contains(a),
        !r ==> exists|i: int|
            0 <= i < final(csp).vars_spec().len() && (#[trigger] final(csp).vars_spec()[i]).active().len() == 0
                && old(csp).vars_spec()[i].active().len() > 0,
        r ==> forall|i: int|
            0 <= i < final(csp).vars_spec().len() && (#[trigger] old(csp).vars_spec()[i]).active().len() > 0
                ==> final(csp).vars_spec()[i].active().len() > 0,
        r && seeds_suffice(old(csp).vars_spec(), old(csp).cons_spec(), old(csp).past_spec(), labels_of(events@))
            ==> gac(final(csp).vars_spec(), final(csp).cons_spec(), final(csp).past_spec()),
{
    let ghost v0 = csp.vars_spec();
    let ghost cs = csp.cons_spec();
    let ghost past = csp.past_spec();
    let ghost ev = labels_of(events@);
    let mut queue: Vec<Arc> = Vec::new();
    let ne = csp.constraints().len();
    let mut ci: usize = 0;
    while ci < ne
        invariant
            v0 == old(csp).vars_spec(),
            ev == labels_of(events@),
            cs == old(csp).cons_spec(),
            past == old(csp).past_spec(),
            csp.wf(),
            csp.vars_spec() == v0,
            csp.cons_spec() == cs,
            csp.past_spec() == past,
            ne == cs.len(),
            ci <= ne,
            forall|k: int| 0 <= k < queue@.len() ==> (#[trigger] queue@[k]).constraint < ne,
            forall|c: int, x: Seq<char>|
                0 <= c < ci && #[trigger] cs[c].scope_spec().contains(x) && !past.contains(x)
                    && seeded(cs[c], x, ev) ==> queued(queue@, c, x),
        decreases ne - ci,
    {
        let s = csp.constraints()[ci].scp();
        let mut j: usize = 0;
        while j < s.len()
            invariant
                ev == labels_of(events@),
                csp.wf(),
                csp.vars_spec() == v0,
                csp.cons_spec() == cs,
                csp.past_spec() == past,
                ne == cs.len(),
                ci < ne,
                j <= s@.len(),
                labels_of(s@) == cs[ci as int].scope_spec(),
                forall|k: int| 0 <= k < queue@.len() ==> (#[trigger] queue@[k]).constraint < ne,
                forall|c: int, x: Seq<char>|
                    0 <= c < ci && #[trigger] cs[c].scope_spec().contains(x) && !past.contains(x)
                        && seeded(cs[c], x, ev) ==> queued(queue@, c, x),
                forall|m: int|
                    0 <= m < j && !past.contains(labels_of(s@)[m]) && seeded(cs[ci as int], #[trigger] labels_of(s@)[m], ev)
                        ==> queued(queue@, ci as int, labels_of(s@)[m]),
            decreases s@.len() - j,
        {
            let ghost q0 = queue@;
            let xs = &s[j];
            let in_past = contains_label(csp.past(), xs);
            let other = has_other_event(s, j, events);
            proof {
                assert(labels_of(s@)[j as int] == xs@);
                if seeded(cs[ci as int], xs@, ev) {
                    let w = choose|w: int|
                        0 <= w < cs[ci as int].scope_spec().len() && (#[trigger] cs[ci as int].scope_spec()[w]) != xs@
                            && ev.contains(cs[ci as int].scope_spec()[w]);
                    assert(labels_of(s@)[w] != s@[j as int]@ && labels_of(events@).contains(labels_of(s@)[w]));
                }
            }
            if !in_past && other {
                queue.push(Arc { constraint: ci, variable: xs.clone() });
                proof {
                    assert(queue@[q0.len() as int].constraint == ci);
                    assert forall|c: int, x: Seq<char>|
                        0 <= c < ci && #[trigger] cs[c].scope_spec().contains(x) && !past.contains(x)
                            && seeded(cs[c], x, ev) implies queued(queue@, c, x) by {
                        let k = choose|k: int| 0 <= k < q0.len() && (#[trigger] q0[k]).constraint == c && q0[k].variable@ == x;
                        assert(queue@[k] == q0[k]);
                    }
                    assert forall|m: int|
                        0 <= m < j + 1 && !past.contains(labels_of(s@)[m]) && seeded(cs[ci as int], #[trigger] labels_of(s@)[m], ev)
                            implies queued(queue@, ci as int, labels_of(s@)[m]) by {
                        if m < j {
                            let k = choose|k: int| 0 <= k < q0.len() && (#[trigger] q0[k]).constraint == ci && q0[k].variable@ == labels_of(s@)[m];
                            assert(queue@[k] == q0[k]);
                        } else {
                            assert(queue@[q0.len() as int].variable@ == labels_of(s@)[m]);
                        }
                    }
                }
            } else {
                proof {
                    assert(labels_of(s@)[j as int] == xs@);
                }
            }
            j += 1;
        }
        proof {
            assert forall|c: int, x: Seq<char>|
                0 <= c < ci + 1 && #[trigger] cs[c].scope_spec().contains(x) && !past.contains(x)
                    && seeded(cs[c], x, ev) implies queued(queue@, c, x) by {
                if c == ci {
                    let m = choose|m: int| 0 <= m < labels_of(s@).len() && labels_of(s@)[m] == x;
                }
            }
        }
        ci += 1;
    }
    loop
        invariant
            v0 == old(csp).vars_spec(),
            ev == labels_of(events@),
            cs == old(csp).cons_spec(),
            past == old(csp).past_spec(),
            csp.wf(),
            csp.cons_spec() == cs,
            csp.past_spec() == past,
            ne == cs.len(),
            csp.vars_spec().len() == v0.len(),
            forall|i: int| 0 <= i < v0.len() ==> (#[trigger] csp.vars_spec()[i]).label_spec() == v0[i].label_spec(),
            forall|i: int, a: T|
                0 <= i < v0.len() && #[trigger] csp.vars_spec()[i].active().contains(a) ==> v0[i].active().contains(a),
            forall|i: int|
                0 <= i < v0.len() && (#[trigger] v0[i]).active().len() > 0 ==> csp.vars_spec()[i].active().len() > 0,
            forall|k: int| 0 <= k < queue@.len() ==> (#[trigger] queue@[k]).constraint < ne,
            seeds_suffice(v0, cs, past, ev) ==> queue_inv(csp.vars_spec(), cs, past, queue@),
        ensures
            csp.wf(),
            csp.cons_spec() == cs,
            csp.past_spec() == past,
            csp.vars_spec().len() == v0.len(),
            forall|i: int| 0 <= i < v0.len() ==> (#[trigger] csp.vars_spec()[i]).label_spec() == v0[i].label_spec(),
            forall|i: int, a: T|
                0 <= i < v0.len() && #[trigger] csp.vars_spec()[i].active().contains(a) ==> v0[i].active().contains(a),
            forall|i: int|
                0 <= i < v0.len() && (#[trigger] v0[i]).active().len() > 0 ==> csp.vars_spec()[i].active().len() > 0,
            seeds_suffice(v0, cs, past, ev) ==> gac(csp.vars_spec(), cs, past),
        decreases total_size(csp.vars_spec()), queue@.len(),
    {
        if queue.len() == 0 {
            break;
        }
        let ghost vb = csp.vars_spec();
        let ghost qb = queue@;
        let arc = queue.remove(0);
        let ghost q1 = queue@;
        let ghost ci0 = arc.constraint as int;
        let ghost x0 = arc.variable@;
        assert(q1 =~= qb.drop_first());
        assert(qb[0] == arc);
        proof {
            assert forall|k: int| 0 <= k < q1.len() implies (#[trigger] q1[k]).constraint < ne by {
                assert(q1[k] == qb[k + 1]);
            }
        }
        let xi = match find_var(csp.vars(), &arc.variable) {
            Some(i) => i,
            None => {
                proof {
                    if seeds_suffice(v0, cs, past, ev) {
                        assert forall|c: int, x: Seq<char>|
                            0 <= c < cs.len() && #[trigger] cs[c].scope_spec().contains(x) && !past.contains(x)
                                implies arc_ok(cs[c], vb, x) || queued(q1, c, x) by {
                            if !arc_ok(cs[c], vb, x) {
                                let k = choose|k: int| 0 <= k < qb.len() && (#[trigger] qb[k]).constraint == c && qb[k].variable@ == x;
                                if k == 0 {
                                    let m = choose|m: int| 0 <= m < cs[c].scope_spec().len() && cs[c].scope_spec()[m] == x;
                                    assert(var_labels(vb).contains(cs[c].scope_spec()[m]));
                                } else {
                                    assert(q1[k - 1] == qb[k]);
                                }
                            }
                        }
                    }
                }
                continue;
            },
        };
        proof {
            lemma_dom_of_index(vb, xi as int);
        }
        let changed = revise(csp, arc.constraint, xi);
        let ghost va = csp.vars_spec();
        proof {
            assert(va =~= vb.update(xi as int, va[xi as int]));
            lemma_dom_of_index(va, xi as int);
            assert(var_labels(va) =~= var_labels(vb));
        }
        if !changed {
            proof {
                if seeds_suffice(v0, cs, past, ev) {
                    assert forall|c: int, x: Seq<char>|
                        0 <= c < cs.len() && #[trigger] cs[c].scope_spec().contains(x) && !past.contains(x)
                            implies arc_ok(cs[c], va, x) || queued(q1, c, x) by {
                        if !arc_ok(cs[c], vb, x) {
                            let k = choose|k: int| 0 <= k < qb.len() && (#[trigger] qb[k]).constraint == c && qb[k].variable@ == x;
                            if k == 0 {
                                assert forall|a: T| dom_of(va, x).contains(a) implies supported(cs[c], va, x, a) by {
                                    assert(va[xi as int].active().contains(a));
                                }
                            } else {
                                assert(q1[k - 1] == qb[k]);
                            }
                        }
                    }
                }
            }
            continue;
        }
        if csp.vars()[xi].dom().is_empty() {
            proof {
                let a = vb[xi as int].active()[0];
                assert(vb[xi as int].active().contains(a));
                assert(v0[xi as int].active().contains(a));
            }
            return false;
        }
        proof {
            lemma_total_size_update(vb, xi as int, va[xi as int]);
        }
        let ne2 = csp.constraints().len();
        let mut c2: usize = 0;
        while c2 < ne2
            invariant
                csp.wf(),
                csp.cons_spec() == cs,
                csp.past_spec() == past,
                csp.vars_spec() == va,
                ne2 == cs.len(),
                ne == cs.len(),
                c2 <= ne2,
                arc.variable@ == x0,
                queue@.len() >= q1.len(),
                queue@.subrange(0, q1.len() as int) == q1,
                forall|k: int| 0 <= k < queue@.len() ==> (#[trigger] queue@[k]).constraint < ne,
                forall|c: int, x: Seq<char>|
                    0 <= c < c2 && cs[c].scope_spec().contains(x0) && #[trigger] cs[c].scope_spec().contains(x)
                        && x != x0 && !past.contains(x) ==> queued(queue@, c, x),
            decreases ne2 - c2,
        {
            if csp.constraints()[c2].in_scope(&arc.variable) {
                let s2 = csp.constraints()[c2].scp();
                let mut j2: usize = 0;
                while j2 < s2.len()
                    invariant
                        csp.wf(),
                        csp.cons_spec() == cs,
                        csp.past_spec() == past,
                        csp.vars_spec() == va,
                        ne2 == cs.len(),
                        ne == cs.len(),
                        c2 < ne2,
                        j2 <= s2@.len(),
                        labels_of(s2@) == cs[c2 as int].scope_spec(),
                        arc.variable@ == x0,
                        queue@.len() >= q1.len(),
                        queue@.subrange(0, q1.len() as int) == q1,
                        forall|k: int| 0 <= k < queue@.len() ==> (#[trigger] queue@[k]).constraint < ne,
                        forall|c: int, x: Seq<char>|
                            0 <= c < c2 && cs[c].scope_spec().contains(x0) && #[trigger] cs[c].scope_spec().contains(x)
                                && x != x0 && !past.contains(x) ==> queued(queue@, c, x),
                        forall|m: int|
                            0 <= m < j2 && (#[trigger] labels_of(s2@)[m]) != x0 && !past.contains(labels_of(s2@)[m])
                                ==> queued(queue@, c2 as int, labels_of(s2@)[m]),
                    decreases s2@.len() - j2,
                {
                    let ghost qq = queue@;
                    assert(labels_of(s2@)[j2 as int] == s2@[j2 as int]@);
                    if !(s2[j2] == arc.variable) && !contains_label(csp.past(), &s2[j2]) {
                        queue.push(Arc { constraint: c2, variable: s2[j2].clone() });
                        proof {
                            assert(queue@.subrange(0, q1.len() as int) =~= qq.subrange(0, q1.len() as int));
                            assert(queue@[qq.len() as int].constraint == c2);
                            assert forall|c: int, x: Seq<char>|
                                0 <= c < c2 && cs[c].scope_spec().contains(x0) && #[trigger] cs[c].scope_spec().contains(x)
                                    && x != x0 && !past.contains(x) implies queued(queue@, c, x) by {
                                let k = choose|k: int| 0 <= k < qq.len() && (#[trigger] qq[k]).constraint == c && qq[k].variable@ == x;
                                assert(queue@[k] == qq[k]);
                            }
                            assert forall|m: int|
                                0 <= m < j2 + 1 && (#[trigger] labels_of(s2@)[m]) != x0 && !past.contains(labels_of(s2@)[m])
                                    implies queued(queue@, c2 as int, labels_of(s2@)[m]) by {
                                if m < j2 {
                                    let k = choose|k: int| 0 <= k < qq.len() && (#[trigger] qq[k]).constraint == c2 && qq[k].variable@ == labels_of(s2@)[m];
                                    assert(queue@[k] == qq[k]);
                                } else {
                                    assert(queue@[qq.len() as int].variable@ == labels_of(s2@)[m]);
                                }
                            }
                        }
                    }
                    j2 += 1;
                }
                proof {
                    assert forall|c: int, x: Seq<char>|
                        0 <= c < c2 + 1 && cs[c].scope_spec().contains(x0) && #[trigger] cs[c].scope_spec().contains(x)
                            && x != x0 && !past.contains(x) implies queued(queue@, c, x) by {
                        if c == c2 {
                            let m = choose|m: int| 0 <= m < labels_of(s2@).len() && labels_of(s2@)[m] == x;
                        }
                    }
                }
            }
            c2 += 1;
        }
        proof {
            let qn = queue@;
            if seeds_suffice(v0, cs, past, ev) {
                assert forall|c: int, x: Seq<char>|
                    0 <= c < cs.len() && #[trigger] cs[c].scope_spec().contains(x) && !past.contains(x)
                        implies arc_ok(cs[c], va, x) || queued(qn, c, x) by {
                    let cc = cs[c];
                    if x == x0 {
                        if c == ci0 {
                            assert forall|a: T| dom_of(va, x).contains(a) implies supported(cc, va, x, a) by {
                                assert(va[xi as int].active().contains(a));
                                lemma_support_frame(cc, vb, xi as int, va[xi as int], x, a);
                            }
                        } else if arc_ok(cc, vb, x) {
                            assert forall|a: T| dom_of(va, x).contains(a) implies supported(cc, va, x, a) by {
                                assert(va[xi as int].active().contains(a));
                                lemma_support_frame(cc, vb, xi as int, va[xi as int], x, a);
                            }
                        } else {
                            let k = choose|k: int| 0 <= k < qb.len() && (#[trigger] qb[k]).constraint == c && qb[k].variable@ == x;
                            assert(k != 0);
                            assert(qn[k - 1] == q1[k - 1]);
                            assert(q1[k - 1] == qb[k]);
                        }
                    } else if cc.scope_spec().contains(x0) {
                    } else if arc_ok(cc, vb, x) {
                        lemma_dom_of_update(vb, xi as int, va[xi as int], x);
                        assert forall|a: T| dom_of(va, x).contains(a) implies supported(cc, va, x, a) by {
                            lemma_support_frame(cc, vb, xi as int, va[xi as int], x, a);
                        }
                    } else {
                        let k = choose|k: int| 0 <= k < qb.len() && (#[trigger] qb[k]).constraint == c && qb[k].variable@ == x;
                        assert(k != 0);
                        assert(qn[k - 1] == q1[k - 1]);
                        assert(q1[k - 1] == qb[k]);
                    }
                }
            }
        }
    }
    true
}

/// Whether a label of `s` other than the one at `j` is among `events`.
fn has_other_event(s: &Vec<String>, j: usize, events: &Vec<String>) -> (r: bool)
    requires
        j < s@.len(),
    ensures
        r == exists|m: int|
            0 <= m < s@.len() && (#[trigger] labels_of(s@)[m]) != s@[j as int]@ && labels_of(events@).contains(
                labels_of(s@)[m],
            ),
{
    let mut m: usize = 0;
    while m < s.len()
        invariant
            j < s@.len(),
            m <= s@.len(),
            forall|k: int|
                0 <= k < m ==> !((#[trigger] labels_of(s@)[k]) != s@[j as int]@ && labels_of(events@).contains(
                    labels_of(s@)[k],
                )),
        decreases s@.len() - m,
    {
        if !(s[m] == s[j]) && contains_label(events, &s[m]) {
            assert(labels_of(s@)[m as int] == s@[m as int]@);
            return true;
        }
        assert(labels_of(s@)[m as int] == s@[m as int]@);
        m += 1;
    }
    false
}

} // verus!
