use vstd::prelude::*;
use petgraph::graph::UnGraph;
use crate::value::{Duplicate, OrdT};
use vstd::string::StringExecFns;
use crate::variable::{ExVar, VValue, labels_of, pairs_of};
use crate::constraint::{Constraint, ConstraintBase, concat_labels, rel_spec, store_wf};
use crate::csp::{Csp, find_var, var_labels};
use crate::intensional::contains_label;
use crate::graph::{add_edge, add_node, graph_edges, graph_nodes, new_graph};

verus! {

/// The index of the first variable labelled `l`; the number of variables
/// when there is none.
pub open spec fn var_index<T: OrdT>(vars: Seq<ExVar<T>>, l: Seq<char>) -> nat
    decreases vars.len(),
{
    if vars.len() == 0 || vars[0].label_spec() == l {
        0
    } else {
        1 + var_index(vars.drop_first(), l)
    }
}

/// The label of a constraint: `"c_"` followed by its scope labels.
pub open spec fn constraint_label<T: OrdT, C: ConstraintBase<T>>(c: C) -> Seq<char> {
    seq!['c', '_'] + concat_labels(c.scope_spec())
}

pub type Edges = Seq<(nat, nat, Seq<char>)>;

/// Edges from scope position `p` to positions `p + 1 .. q`, labelled `w`.
pub open spec fn row_edges<T: OrdT>(vars: Seq<ExVar<T>>, s: Seq<Seq<char>>, p: int, q: int, w: Seq<char>) -> Edges
    decreases q - p,
{
    if q <= p + 1 {
        seq![]
    } else {
        row_edges(vars, s, p, q - 1, w).push((var_index(vars, s[p]), var_index(vars, s[q - 1]), w))
    }
}

/// Edges between every two positions of the scope below `n`.
pub open spec fn scope_edges<T: OrdT>(vars: Seq<ExVar<T>>, s: Seq<Seq<char>>, n: int, w: Seq<char>) -> Edges
    decreases n,
{
    if n <= 0 {
        seq![]
    } else {
        scope_edges(vars, s, n - 1, w) + row_edges(vars, s, n - 1, s.len() as int, w)
    }
}

/// The primal edges of the first `n` constraints: one per pair of scope
/// variables, labelled with the constraint's label.
pub open spec fn primal_edges<T: OrdT, C: ConstraintBase<T>>(vars: Seq<ExVar<T>>, cs: Seq<C>, n: int) -> Edges
    decreases n,
{
    if n <= 0 {
        seq![]
    } else {
        primal_edges(vars, cs, n - 1) + scope_edges(
            vars,
            cs[n - 1].scope_spec(),
            cs[n - 1].scope_spec().len() as int,
            constraint_label(cs[n - 1]),
        )
    }
}

proof fn lemma_row_len<T: OrdT>(vars: Seq<ExVar<T>>, s: Seq<Seq<char>>, p: int, q: int, r: int, w: Seq<char>)
    requires
        q <= r,
    ensures
        row_edges(vars, s, p, q, w).len() <= row_edges(vars, s, p, r, w).len(),
    decreases r - q,
{
    if q < r {
        lemma_row_len(vars, s, p, q, r - 1, w);
    }
}

proof fn lemma_scope_len<T: OrdT>(vars: Seq<ExVar<T>>, s: Seq<Seq<char>>, n: int, m: int, w: Seq<char>)
    requires
        n <= m,
    ensures
        scope_edges(vars, s, n, w).len() <= scope_edges(vars, s, m, w).len(),
    decreases m - n,
{
    if n < m {
        lemma_scope_len(vars, s, n, m - 1, w);
    }
}

proof fn lemma_primal_len<T: OrdT, C: ConstraintBase<T>>(vars: Seq<ExVar<T>>, cs: Seq<C>, n: int, m: int)
    requires
        n <= m,
    ensures
        primal_edges(vars, cs, n).len() <= primal_edges(vars, cs, m).len(),
    decreases m - n,
{
    if n < m {
        lemma_primal_len(vars, cs, n, m - 1);
    }
}

proof fn lemma_micro_nodes_len<T: OrdT>(vars: Seq<ExVar<T>>, i: int)
    requires
        0 <= i <= vars.len(),
    ensures
        micro_nodes(vars.subrange(0, i)).len() <= micro_nodes(vars).len(),
    decreases vars.len() - i,
{
    if i < vars.len() {
        lemma_micro_nodes_len(vars, i + 1);
        assert(vars.subrange(0, i + 1).drop_last() =~= vars.subrange(0, i));
    } else {
        assert(vars.subrange(0, i) =~= vars);
    }
}

/// With distinct labels, the first variable labelled like variable `i` is
/// variable `i`.
pub proof fn lemma_var_index<T: OrdT>(vars: Seq<ExVar<T>>, i: int)
    requires
        0 <= i < vars.len(),
        var_labels(vars).no_duplicates(),
    ensures
        var_index(vars, vars[i].label_spec()) == i,
    decreases vars.len(),
{
    if i > 0 {
        assert(var_labels(vars)[0] != var_labels(vars)[i]);
        let rest = vars.drop_first();
        assert(var_labels(rest) =~= var_labels(vars).drop_first());
        assert(rest[i - 1] == vars[i]);
        lemma_var_index(rest, i - 1);
    }
}

/// The v-values of the active domains, variable by variable in store order.
pub open spec fn micro_nodes<T: OrdT>(vars: Seq<ExVar<T>>) -> Seq<(Seq<char>, T)>
    decreases vars.len(),
{
    if vars.len() == 0 {
        seq![]
    } else {
        micro_nodes(vars.drop_last()) + vars.last().active().map_values(
            |a: T| (vars.last().label_spec(), a),
        )
    }
}

/// The index of the first occurrence of `x` in `s`; the length of `s` when
/// there is none.
pub open spec fn pos_of<A>(s: Seq<A>, x: A) -> nat
    decreases s.len(),
{
    if s.len() == 0 || s[0] == x {
        0
    } else {
        1 + pos_of(s.drop_first(), x)
    }
}

/// Clique edges from position `p` of tuple `t` to positions `p + 1 .. q`,
/// between v-values that are nodes.
pub open spec fn tuple_row<T>(nodes: Seq<(Seq<char>, T)>, t: Seq<(Seq<char>, T)>, p: int, q: int, w: Seq<char>) -> Edges
    decreases q - p,
{
    if q <= p + 1 {
        seq![]
    } else {
        let a = pos_of(nodes, t[p]);
        let b = pos_of(nodes, t[q - 1]);
        if a < nodes.len() && b < nodes.len() {
            tuple_row(nodes, t, p, q - 1, w).push((a, b, w))
        } else {
            tuple_row(nodes, t, p, q - 1, w)
        }
    }
}

/// The clique over the positions of tuple `t` below `n`.
pub open spec fn tuple_clique<T>(nodes: Seq<(Seq<char>, T)>, t: Seq<(Seq<char>, T)>, n: int, w: Seq<char>) -> Edges
    decreases n,
{
    if n <= 0 {
        seq![]
    } else {
        tuple_clique(nodes, t, n - 1, w) + tuple_row(nodes, t, n - 1, t.len() as int, w)
    }
}

/// The cliques of the first `k` tuples.
pub open spec fn rel_cliques<T>(nodes: Seq<(Seq<char>, T)>, rel: Seq<Seq<(Seq<char>, T)>>, k: int, w: Seq<char>) -> Edges
    decreases k,
{
    if k <= 0 {
        seq![]
    } else {
        rel_cliques(nodes, rel, k - 1, w) + tuple_clique(nodes, rel[k - 1], rel[k - 1].len() as int, w)
    }
}

/// The micro-structure edges of the first `n` constraints: a clique over
/// each supporting tuple, labelled with the constraint's label.
pub open spec fn micro_edges<T: OrdT, C: ConstraintBase<T>>(vars: Seq<ExVar<T>>, cs: Seq<C>, n: int) -> Edges
    decreases n,
{
    if n <= 0 {
        seq![]
    } else {
        micro_edges(vars, cs, n - 1) + rel_cliques(
            micro_nodes(vars),
            rel_spec(&cs[n - 1], vars),
            rel_spec(&cs[n - 1], vars).len() as int,
            constraint_label(cs[n - 1]),
        )
    }
}

proof fn lemma_tuple_row_len<T>(nodes: Seq<(Seq<char>, T)>, t: Seq<(Seq<char>, T)>, p: int, q: int, r: int, w: Seq<char>)
    requires
        q <= r,
    ensures
        tuple_row(nodes, t, p, q, w).len() <= tuple_row(nodes, t, p, r, w).len(),
    decreases r - q,
{
    if q < r {
        lemma_tuple_row_len(nodes, t, p, q, r - 1, w);
    }
}

proof fn lemma_tuple_clique_len<T>(nodes: Seq<(Seq<char>, T)>, t: Seq<(Seq<char>, T)>, n: int, m: int, w: Seq<char>)
    requires
        n <= m,
    ensures
        tuple_clique(nodes, t, n, w).len() <= tuple_clique(nodes, t, m, w).len(),
    decreases m - n,
{
    if n < m {
        lemma_tuple_clique_len(nodes, t, n, m - 1, w);
    }
}

proof fn lemma_rel_cliques_len<T>(nodes: Seq<(Seq<char>, T)>, rel: Seq<Seq<(Seq<char>, T)>>, k: int, m: int, w: Seq<char>)
    requires
        k <= m,
    ensures
        rel_cliques(nodes, rel, k, w).len() <= rel_cliques(nodes, rel, m, w).len(),
    decreases m - k,
{
    if k < m {
        lemma_rel_cliques_len(nodes, rel, k, m - 1, w);
    }
}

proof fn lemma_micro_len<T: OrdT, C: ConstraintBase<T>>(vars: Seq<ExVar<T>>, cs: Seq<C>, n: int, m: int)
    requires
        n <= m,
    ensures
        micro_edges(vars, cs, n).len() <= micro_edges(vars, cs, m).len(),
    decreases m - n,
{
    if n < m {
        lemma_micro_len(vars, cs, n, m - 1);
    }
}

/// The index of the first v-value of `nodes` equal to `w`.
pub fn position_of<T: OrdT>(nodes: &Vec<VValue<T>>, w: &VValue<T>) -> (r: usize)
    ensures
        r == pos_of(pairs_of(nodes@), (w.label@, w.value)),
{
    let ghost ps = pairs_of(nodes@);
    let mut i: usize = 0;
    assert(ps.subrange(0, ps.len() as int) =~= ps);
    while i < nodes.len()
        invariant
            i <= nodes@.len(),
            ps == pairs_of(nodes@),
            pos_of(ps, (w.label@, w.value)) == i + pos_of(ps.subrange(i as int, ps.len() as int), (w.label@, w.value)),
        decreases nodes@.len() - i,
    {
        let ghost rest = ps.subrange(i as int, ps.len() as int);
        assert(rest.drop_first() =~= ps.subrange(i + 1, ps.len() as int));
        if nodes[i].label == w.label && nodes[i].value.same(&w.value) {
            assert(rest[0] == (w.label@, w.value));
            return i;
        }
        i += 1;
    }
    i
}

/// The labels of `a` that also occur in `b`, in the order of `a`.
pub open spec fn shared_labels(a: Seq<Seq<char>>, b: Seq<Seq<char>>) -> Seq<Seq<char>>
    decreases a.len(),
{
    if a.len() == 0 {
        seq![]
    } else if b.contains(a.last()) {
        shared_labels(a.drop_last(), b).push(a.last())
    } else {
        shared_labels(a.drop_last(), b)
    }
}

/// Labels joined with `", "`.
pub open spec fn join_labels(ls: Seq<Seq<char>>) -> Seq<char>
    decreases ls.len(),
{
    if ls.len() == 0 {
        seq![]
    } else if ls.len() == 1 {
        ls[0]
    } else {
        join_labels(ls.drop_last()) + seq![',', ' '] + ls.last()
    }
}

/// Dual edges from constraint `i` to constraints `i + 1 .. j` whose scopes
/// share a variable, labelled with the shared labels.
pub open spec fn dual_row<T: OrdT, C: ConstraintBase<T>>(cs: Seq<C>, i: int, j: int) -> Edges
    decreases j - i,
{
    if j <= i + 1 {
        seq![]
    } else {
        let sh = shared_labels(cs[i].scope_spec(), cs[j - 1].scope_spec());
        if sh.len() > 0 {
            dual_row(cs, i, j - 1).push((i as nat, (j - 1) as nat, join_labels(sh)))
        } else {
            dual_row(cs, i, j - 1)
        }
    }
}

/// The dual edges from the first `n` constraints.
pub open spec fn dual_edges<T: OrdT, C: ConstraintBase<T>>(cs: Seq<C>, n: int) -> Edges
    decreases n,
{
    if n <= 0 {
        seq![]
    } else {
        dual_edges(cs, n - 1) + dual_row(cs, n - 1, cs.len() as int)
    }
}

proof fn lemma_dual_row_len<T: OrdT, C: ConstraintBase<T>>(cs: Seq<C>, i: int, j: int, k: int)
    requires
        j <= k,
    ensures
        dual_row(cs, i, j).len() <= dual_row(cs, i, k).len(),
    decreases k - j,
{
    if j < k {
        lemma_dual_row_len(cs, i, j, k - 1);
    }
}

proof fn lemma_dual_len<T: OrdT, C: ConstraintBase<T>>(cs: Seq<C>, n: int, m: int)
    requires
        n <= m,
    ensures
        dual_edges(cs, n).len() <= dual_edges(cs, m).len(),
    decreases m - n,
{
    if n < m {
        lemma_dual_len(cs, n, m - 1);
    }
}

/// The labels of `a` that occur in `b`, in the order of `a`.
pub fn shared_of(a: &Vec<String>, b: &Vec<String>) -> (r: Vec<String>)
    ensures
        labels_of(r@) == shared_labels(labels_of(a@), labels_of(b@)),
{
    let mut r: Vec<String> = Vec::new();
    let mut k: usize = 0;
    while k < a.len()
        invariant
            k <= a@.len(),
            labels_of(r@) == shared_labels(labels_of(a@).subrange(0, k as int), labels_of(b@)),
        decreases a@.len() - k,
    {
        assert(labels_of(a@).subrange(0, k + 1).drop_last() =~= labels_of(a@).subrange(0, k as int));
        let ghost r0 = r@;
        if contains_label(b, &a[k]) {
            r.push(a[k].clone());
            assert(labels_of(r@) =~= labels_of(r0).push(a@[k as int]@));
        }
        k += 1;
    }
    assert(labels_of(a@).subrange(0, k as int) =~= labels_of(a@));
    r
}

/// The labels joined with `", "`.
pub fn join_with_commas(ls: &Vec<String>) -> (r: String)
    ensures
        r@ == join_labels(labels_of(ls@)),
{
    let mut r = String::new();
    let mut k: usize = 0;
    while k < ls.len()
        invariant
            k <= ls@.len(),
            r@ == join_labels(labels_of(ls@).subrange(0, k as int)),
        decreases ls@.len() - k,
    {
        assert(labels_of(ls@).subrange(0, k + 1).drop_last() =~= labels_of(ls@).subrange(0, k as int));
        if k > 0 {
            r.append(", ");
            proof {
                reveal_strlit(", ");
            }
        }
        r.append(ls[k].as_str());
        proof {
            if k == 0 {
                assert(r@ =~= labels_of(ls@).subrange(0, 1)[0]);
            } else {
                assert(r@ =~= join_labels(labels_of(ls@).subrange(0, k as int)) + seq![',', ' '] + ls@[k as int]@);
            }
        }
        k += 1;
    }
    assert(labels_of(ls@).subrange(0, k as int) =~= labels_of(ls@));
    r
}

impl<T: OrdT, C: ConstraintBase<T>> Csp<T, C> {
    /// The index of the variable labelled `l`, which must be one of them.
    fn index_of_label(&self, l: &String) -> (r: usize)
        requires
            self.wf(),
            var_labels(self.vars_spec()).contains(l@),
        ensures
            r == var_index(self.vars_spec(), l@),
            r < self.vars_spec().len(),
    {
        match find_var(self.vars(), l) {
            Some(i) => {
                proof {
                    lemma_var_index(self.vars_spec(), i as int);
                }
                i
            },
            None => {
                assert(false);
                0
            },
        }
    }

    /// The primal graph: one node per variable, labelled with its label,
    /// and for every constraint an edge between every two variables of its
    /// scope, labelled with the constraint's label.
    pub fn primal_graph(&self) -> (g: UnGraph<String, String>)
        requires
            self.wf(),
            self.vars_spec().len() < u32::MAX,
            primal_edges(self.vars_spec(), self.cons_spec(), self.cons_spec().len() as int).len()
                < u32::MAX,
        ensures
            graph_nodes(g) == var_labels(self.vars_spec()),
            graph_edges(g) == primal_edges(self.vars_spec(), self.cons_spec(), self.cons_spec().len() as int),
    {
        let ghost vars = self.vars_spec();
        let ghost cs = self.cons_spec();
        let ghost total = primal_edges(vars, cs, cs.len() as int);
        let mut g = new_graph();
        let vs = self.vars();
        let mut i: usize = 0;
        while i < vs.len()
            invariant
                vs@ == vars,
                i <= vars.len(),
                vars.len() < u32::MAX,
                graph_nodes(g) == var_labels(vars).subrange(0, i as int),
                graph_edges(g) == Seq::<(nat, nat, Seq<char>)>::empty(),
            decreases vars.len() - i,
        {
            add_node(&mut g, vs[i].label().clone());
            i += 1;
            assert(graph_nodes(g) =~= var_labels(vars).subrange(0, i as int));
        }
        assert(var_labels(vars).subrange(0, i as int) =~= var_labels(vars));
        let cons = self.constraints();
        let mut ci: usize = 0;
        while ci < cons.len()
            invariant
                self.wf(),
                vars == self.vars_spec(),
                cs == self.cons_spec(),
                cons@ == cs,
                total == primal_edges(vars, cs, cs.len() as int),
                total.len() < u32::MAX,
                ci <= cs.len(),
                graph_nodes(g) == var_labels(vars),
                graph_edges(g) == primal_edges(vars, cs, ci as int),
            decreases cs.len() - ci,
        {
            let c = &cons[ci];
            let w = c.label();
            let s = c.scp();
            let ghost sc = cs[ci as int].scope_spec();
            let ghost base = primal_edges(vars, cs, ci as int);
            let mut p: usize = 0;
            while p < s.len()
                invariant
                    self.wf(),
                    vars == self.vars_spec(),
                    cs == self.cons_spec(),
                    total == primal_edges(vars, cs, cs.len() as int),
                    total.len() < u32::MAX,
                    ci < cs.len(),
                    labels_of(s@) == sc,
                    sc == cs[ci as int].scope_spec(),
                    w@ == constraint_label(cs[ci as int]),
                    base == primal_edges(vars, cs, ci as int),
                    p <= sc.len(),
                    graph_nodes(g) == var_labels(vars),
                    graph_edges(g) == base + scope_edges(vars, sc, p as int, w@),
                decreases sc.len() - p,
            {
                let mut q: usize = p + 1;
                while q < s.len()
                    invariant
                        self.wf(),
                        vars == self.vars_spec(),
                        cs == self.cons_spec(),
                        total == primal_edges(vars, cs, cs.len() as int),
                        total.len() < u32::MAX,
                        ci < cs.len(),
                        labels_of(s@) == sc,
                        sc == cs[ci as int].scope_spec(),
                        w@ == constraint_label(cs[ci as int]),
                        base == primal_edges(vars, cs, ci as int),
                        p < sc.len(),
                        p + 1 <= q <= sc.len(),
                        graph_nodes(g) == var_labels(vars),
                        graph_edges(g) == base + scope_edges(vars, sc, p as int, w@) + row_edges(
                            vars,
                            sc,
                            p as int,
                            q as int,
                            w@,
                        ),
                    decreases sc.len() - q,
                {
                    proof {
                        assert(sc[p as int] == s@[p as int]@);
                        assert(sc[q as int] == s@[q as int]@);
                        assert(var_labels(vars).contains(sc[p as int]));
                        assert(var_labels(vars).contains(sc[q as int]));
                        lemma_row_len(vars, sc, p as int, q + 1, sc.len() as int, w@);
                        lemma_scope_len(vars, sc, p + 1, sc.len() as int, w@);
                        lemma_primal_len(vars, cs, ci + 1, cs.len() as int);
                    }
                    let a = self.index_of_label(&s[p]);
                    let b = self.index_of_label(&s[q]);
                    add_edge(&mut g, a, b, w.clone());
                    proof {
                        assert(graph_edges(g) =~= base + scope_edges(vars, sc, p as int, w@) + row_edges(
                            vars,
                            sc,
                            p as int,
                            q + 1,
                            w@,
                        ));
                    }
                    q += 1;
                }
                proof {
                    assert(base + scope_edges(vars, sc, p as int, w@) + row_edges(vars, sc, p as int, sc.len() as int, w@)
                        =~= base + scope_edges(vars, sc, p + 1, w@));
                }
                p += 1;
            }
            ci += 1;
        }
        g
    }

    /// The dual graph: one node per constraint, labelled with the
    /// constraint's label, and an edge between every two constraints whose
    /// scopes share a variable, labelled with the shared labels.
    pub fn dual_graph(&self) -> (g: UnGraph<String, String>)
        requires
            self.cons_spec().len() < u32::MAX,
            dual_edges(self.cons_spec(), self.cons_spec().len() as int).len() < u32::MAX,
        ensures
            graph_nodes(g) == self.cons_spec().map_values(|c: C| constraint_label(c)),
            graph_edges(g) == dual_edges(self.cons_spec(), self.cons_spec().len() as int),
    {
        let ghost cs = self.cons_spec();
        let ghost total = dual_edges(cs, cs.len() as int);
        let mut g = new_graph();
        let cons = self.constraints();
        let n = cons.len();
        let mut i: usize = 0;
        while i < n
            invariant
                cons@ == cs,
                n == cs.len(),
                i <= n,
                n < u32::MAX,
                graph_nodes(g) == cs.map_values(|c: C| constraint_label(c)).subrange(0, i as int),
                graph_edges(g) == Seq::<(nat, nat, Seq<char>)>::empty(),
            decreases n - i,
        {
            add_node(&mut g, cons[i].label());
            i += 1;
            assert(graph_nodes(g) =~= cs.map_values(|c: C| constraint_label(c)).subrange(0, i as int));
        }
        assert(cs.map_values(|c: C| constraint_label(c)).subrange(0, n as int) =~= cs.map_values(|c: C| constraint_label(c)));
        let mut i: usize = 0;
        while i < n
            invariant
                cons@ == cs,
                n == cs.len(),
                i <= n,
                total == dual_edges(cs, cs.len() as int),
                total.len() < u32::MAX,
                graph_nodes(g) == cs.map_values(|c: C| constraint_label(c)),
                graph_edges(g) == dual_edges(cs, i as int),
            decreases n - i,
        {
            let si = cons[i].scp();
            let ghost base = dual_edges(cs, i as int);
            let mut j: usize = i + 1;
            while j < n
                invariant
                    cons@ == cs,
                    n == cs.len(),
                    i < n,
                    i + 1 <= j <= n,
                    labels_of(si@) == cs[i as int].scope_spec(),
                    total == dual_edges(cs, cs.len() as int),
                    total.len() < u32::MAX,
                    base == dual_edges(cs, i as int),
                    graph_nodes(g) == cs.map_values(|c: C| constraint_label(c)),
                    graph_edges(g) == base + dual_row(cs, i as int, j as int),
                decreases n - j,
            {
                let sh = shared_of(si, cons[j].scp());
                if sh.len() > 0 {
                    proof {
                        lemma_dual_row_len(cs, i as int, j + 1, n as int);
                        lemma_dual_len(cs, i + 1, n as int);
                    }
                    let w = join_with_commas(&sh);
                    add_edge(&mut g, i, j, w);
                    assert(graph_edges(g) =~= base + dual_row(cs, i as int, j + 1));
                } else {
                    assert(dual_row(cs, i as int, j + 1) == dual_row(cs, i as int, j as int));
                }
                j += 1;
            }
            i += 1;
        }
        g
    }


    /// The micro-structure: one node per v-value of an active domain,
    /// printed `(label, value)`, and for every supporting tuple of every
    /// constraint a clique over its v-values, each edge labelled with the
    /// constraint's label.
    pub fn micro_structure(&self) -> (g: UnGraph<String, String>)
        requires
            self.wf(),
            micro_nodes(self.vars_spec()).len() < u32::MAX,
            micro_edges(self.vars_spec(), self.cons_spec(), self.cons_spec().len() as int).len() < u32::MAX,
        ensures
            graph_nodes(g).len() == micro_nodes(self.vars_spec()).len(),
            graph_edges(g) == micro_edges(self.vars_spec(), self.cons_spec(), self.cons_spec().len() as int),
    {
        let ghost vars = self.vars_spec();
        let ghost cs = self.cons_spec();
        let ghost total = micro_edges(vars, cs, cs.len() as int);
        let mut g = new_graph();
        let vs = self.vars();
        let mut nodes: Vec<VValue<T>> = Vec::new();
        let mut i: usize = 0;
        while i < vs.len()
            invariant
                vs@ == vars,
                store_wf(vars),
                i <= vars.len(),
                micro_nodes(vars).len() < u32::MAX,
                pairs_of(nodes@) == micro_nodes(vars.subrange(0, i as int)),
                graph_nodes(g).len() == nodes@.len(),
                graph_edges(g) == Seq::<(nat, nat, Seq<char>)>::empty(),
            decreases vars.len() - i,
        {
            let vals = vs[i].valid_values();
            let ghost n0 = nodes@;
            proof {
                assert(vars.subrange(0, i + 1).drop_last() =~= vars.subrange(0, i as int));
                lemma_micro_nodes_len(vars, i + 1);
            }
            let mut k: usize = 0;
            while k < vals.len()
                invariant
                    vs@ == vars,
                    i < vars.len(),
                    k <= vals@.len(),
                    vals@ == vars[i as int].active(),
                    micro_nodes(vars.subrange(0, i + 1)).len() <= micro_nodes(vars).len(),
                    micro_nodes(vars).len() < u32::MAX,
                    micro_nodes(vars.subrange(0, i + 1)) == micro_nodes(vars.subrange(0, i as int))
                        + vars[i as int].active().map_values(|a: T| (vars[i as int].label_spec(), a)),
                    pairs_of(n0) == micro_nodes(vars.subrange(0, i as int)),
                    pairs_of(nodes@) == pairs_of(n0) + vals@.subrange(0, k as int).map_values(
                        |a: T| (vars[i as int].label_spec(), a),
                    ),
                    graph_nodes(g).len() == nodes@.len(),
                    graph_edges(g) == Seq::<(nat, nat, Seq<char>)>::empty(),
                decreases vals@.len() - k,
            {
                let w = VValue { label: vs[i].label().clone(), value: vals[k].duplicate() };
                let text = w.print();
                let ghost nb = nodes@;
                proof {
                    assert(pairs_of(nb).len() == nb.len());
                    assert(vals@.subrange(0, k as int).map_values(|a: T| (vars[i as int].label_spec(), a)).len() == k);
                    assert(pairs_of(n0).len() == n0.len());
                    assert(micro_nodes(vars.subrange(0, i + 1)).len() == micro_nodes(vars.subrange(0, i as int)).len() + vals@.len());
                }
                nodes.push(w);
                add_node(&mut g, text);
                assert(pairs_of(nodes@) =~= pairs_of(nb).push((vars[i as int].label_spec(), vals@[k as int])));
                k += 1;
                assert(pairs_of(nodes@) =~= pairs_of(n0) + vals@.subrange(0, k as int).map_values(
                    |a: T| (vars[i as int].label_spec(), a),
                ));
            }
            assert(vals@.subrange(0, k as int) =~= vals@);
            i += 1;
        }
        assert(vars.subrange(0, i as int) =~= vars);
        let cons = self.constraints();
        let mut ci: usize = 0;
        while ci < cons.len()
            invariant
                self.wf(),
                vars == self.vars_spec(),
                vs@ == vars,
                cs == self.cons_spec(),
                cons@ == cs,
                total == micro_edges(vars, cs, cs.len() as int),
                total.len() < u32::MAX,
                ci <= cs.len(),
                pairs_of(nodes@) == micro_nodes(vars),
                graph_nodes(g).len() == nodes@.len(),
                graph_edges(g) == micro_edges(vars, cs, ci as int),
            decreases cs.len() - ci,
        {
            let c = &cons[ci];
            let w = c.label();
            let rel = c.rel(vs);
            let ghost rs = rel_spec(&cs[ci as int], vars);
            let ghost base = micro_edges(vars, cs, ci as int);
            let ghost nd = micro_nodes(vars);
            let mut k: usize = 0;
            while k < rel.len()
                invariant
                    self.wf(),
                    vars == self.vars_spec(),
                    cs == self.cons_spec(),
                    total == micro_edges(vars, cs, cs.len() as int),
                    total.len() < u32::MAX,
                    ci < cs.len(),
                    rs == rel_spec(&cs[ci as int], vars),
                    rel@.len() == rs.len(),
                    forall|j: int| 0 <= j < rel@.len() ==> pairs_of(#[trigger] rel@[j]@) == rs[j],
                    w@ == constraint_label(cs[ci as int]),
                    base == micro_edges(vars, cs, ci as int),
                    nd == micro_nodes(vars),
                    pairs_of(nodes@) == nd,
                    k <= rel@.len(),
                    graph_nodes(g).len() == nodes@.len(),
                    graph_edges(g) == base + rel_cliques(nd, rs, k as int, w@),
                decreases rel@.len() - k,
            {
                let t = &rel[k];
                let ghost tp = rs[k as int];
                assert(pairs_of(t@) == tp);
                let ghost before_t = graph_edges(g);
                let mut p: usize = 0;
                while p < t.len()
                    invariant
                        total.len() < u32::MAX,
                        total == micro_edges(vars, cs, cs.len() as int),
                        ci < cs.len(),
                        k < rs.len(),
                        rs == rel_spec(&cs[ci as int], vars),
                        pairs_of(t@) == tp,
                        tp == rs[k as int],
                        w@ == constraint_label(cs[ci as int]),
                        base == micro_edges(vars, cs, ci as int),
                        nd == micro_nodes(vars),
                        pairs_of(nodes@) == nd,
                        p <= t@.len(),
                        graph_nodes(g).len() == nodes@.len(),
                        before_t == base + rel_cliques(nd, rs, k as int, w@),
                        graph_edges(g) == before_t + tuple_clique(nd, tp, p as int, w@),
                    decreases t@.len() - p,
                {
                    let a = position_of(&nodes, &t[p]);
                    assert(pairs_of(t@)[p as int] == (t@[p as int].label@, t@[p as int].value));
                    let mut q: usize = p + 1;
                    while q < t.len()
                        invariant
                            total.len() < u32::MAX,
                            total == micro_edges(vars, cs, cs.len() as int),
                            ci < cs.len(),
                            k < rs.len(),
                            rs == rel_spec(&cs[ci as int], vars),
                            pairs_of(t@) == tp,
                            tp == rs[k as int],
                            w@ == constraint_label(cs[ci as int]),
                            base == micro_edges(vars, cs, ci as int),
                            nd == micro_nodes(vars),
                            pairs_of(nodes@) == nd,
                            p < t@.len(),
                            p + 1 <= q <= t@.len(),
                            a == pos_of(nd, tp[p as int]),
                            graph_nodes(g).len() == nodes@.len(),
                            before_t == base + rel_cliques(nd, rs, k as int, w@),
                            graph_edges(g) == before_t + tuple_clique(nd, tp, p as int, w@) + tuple_row(
                                nd,
                                tp,
                                p as int,
                                q as int,
                                w@,
                            ),
                        decreases t@.len() - q,
                    {
                        let b = position_of(&nodes, &t[q]);
                        assert(pairs_of(t@)[q as int] == (t@[q as int].label@, t@[q as int].value));
                        if a < nodes.len() && b < nodes.len() {
                            proof {
                                lemma_tuple_row_len(nd, tp, p as int, q + 1, tp.len() as int, w@);
                                lemma_tuple_clique_len(nd, tp, p + 1, tp.len() as int, w@);
                                lemma_rel_cliques_len(nd, rs, k + 1, rs.len() as int, w@);
                                lemma_micro_len(vars, cs, ci + 1, cs.len() as int);
                                assert(tuple_clique(nd, tp, p + 1, w@) == tuple_clique(nd, tp, p as int, w@)
                                    + tuple_row(nd, tp, p as int, tp.len() as int, w@));
                                assert(rel_cliques(nd, rs, k + 1, w@) == rel_cliques(nd, rs, k as int, w@)
                                    + tuple_clique(nd, tp, tp.len() as int, w@));
                            }
                            add_edge(&mut g, a, b, w.clone());
                        }
                        assert(graph_edges(g) =~= before_t + tuple_clique(nd, tp, p as int, w@) + tuple_row(
                            nd,
                            tp,
                            p as int,
                            q + 1,
                            w@,
                        ));
                        q += 1;
                    }
                    assert(before_t + tuple_clique(nd, tp, p as int, w@) + tuple_row(nd, tp, p as int, tp.len() as int, w@)
                        =~= before_t + tuple_clique(nd, tp, p + 1, w@));
                    p += 1;
                }
                assert(graph_edges(g) =~= base + rel_cliques(nd, rs, k + 1, w@));
                k += 1;
            }
            ci += 1;
        }
        g
    }

}

} // verus!
