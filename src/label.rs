use vstd::prelude::*;
use vstd::string::StrSliceExecFns;
use crate::variable::labels_of;

verus! {

/// Lexicographic order on labels, by character code.
pub open spec fn label_lt(a: Seq<char>, b: Seq<char>) -> bool
    decreases a.len(),
{
    if a.len() == 0 {
        b.len() > 0
    } else if b.len() == 0 {
        false
    } else if a[0] != b[0] {
        (a[0] as int) < (b[0] as int)
    } else {
        label_lt(a.drop_first(), b.drop_first())
    }
}

pub proof fn lemma_label_lt_total(a: Seq<char>, b: Seq<char>)
    ensures
        a == b || label_lt(a, b) || label_lt(b, a),
    decreases a.len(),
{
    if a.len() == 0 && b.len() == 0 {
        assert(a =~= b);
    } else if a.len() > 0 && b.len() > 0 && a[0] == b[0] {
        lemma_label_lt_total(a.drop_first(), b.drop_first());
        if a.drop_first() == b.drop_first() {
            assert(a.drop_first().len() == b.drop_first().len());
            assert(a.len() == b.len());
            assert forall|i: int| 0 <= i < a.len() implies a[i] == b[i] by {
                if i > 0 {
                    assert(a[i] == a.drop_first()[i - 1]);
                    assert(b[i] == b.drop_first()[i - 1]);
                }
            }
            assert(a =~= b);
        }
    } else if a.len() > 0 && b.len() > 0 {
        assert((a[0] as int) != (b[0] as int));
    }
}

pub proof fn lemma_label_lt_irreflexive(a: Seq<char>)
    ensures
        !label_lt(a, a),
    decreases a.len(),
{
    if a.len() > 0 {
        lemma_label_lt_irreflexive(a.drop_first());
    }
}

pub proof fn lemma_push_to_set<A>(s: Seq<A>, x: A)
    ensures
        s.push(x).to_set() == s.to_set().insert(x),
{
    assert forall|y: A| s.push(x).contains(y) <==> s.to_set().insert(x).contains(y) by {
        if s.push(x).contains(y) {
            let k = choose|k: int| 0 <= k < s.push(x).len() && s.push(x)[k] == y;
            if k < s.len() {
                assert(s[k] == y);
            }
        }
        if s.contains(y) {
            let k = choose|k: int| 0 <= k < s.len() && s[k] == y;
            assert(s.push(x)[k] == y);
        }
        if y == x {
            assert(s.push(x)[s.len() as int] == y);
        }
    }
    assert(s.push(x).to_set() =~= s.to_set().insert(x));
}

/// Each label is below the next one.
pub open spec fn sorted_labels(s: Seq<Seq<char>>) -> bool {
    forall|i: int| 0 <= i < s.len() - 1 ==> label_lt(#[trigger] s[i], s[i + 1])
}

/// Whether `a` comes before `b` in label order.
pub fn label_less(a: &String, b: &String) -> (r: bool)
    ensures
        r == label_lt(a@, b@),
{
    let sa = a.as_str();
    let sb = b.as_str();
    let na = sa.unicode_len();
    let nb = sb.unicode_len();
    let mut i: usize = 0;
    assert(a@.subrange(0, na as int) =~= a@);
    assert(b@.subrange(0, nb as int) =~= b@);
    while i < na && i < nb
        invariant
            i <= na,
            i <= nb,
            na == a@.len(),
            nb == b@.len(),
            sa@ == a@,
            sb@ == b@,
            label_lt(a@, b@) == label_lt(a@.subrange(i as int, na as int), b@.subrange(i as int, nb as int)),
        decreases na - i,
    {
        let ca = sa.get_char(i);
        let cb = sb.get_char(i);
        let ghost ra = a@.subrange(i as int, na as int);
        let ghost rb = b@.subrange(i as int, nb as int);
        assert(ra[0] == ca && rb[0] == cb);
        if ca != cb {
            return (ca as u32) < (cb as u32);
        }
        assert(ra.drop_first() =~= a@.subrange(i + 1, na as int));
        assert(rb.drop_first() =~= b@.subrange(i + 1, nb as int));
        i += 1;
    }
    i < nb
}

/// Inserts `l` into a sorted list of distinct labels, unless present.
pub fn insert_label(acc: &mut Vec<String>, l: &String)
    requires
        sorted_labels(labels_of(old(acc)@)),
        labels_of(old(acc)@).no_duplicates(),
    ensures
        sorted_labels(labels_of(final(acc)@)),
        labels_of(final(acc)@).no_duplicates(),
        labels_of(final(acc)@).to_set() == labels_of(old(acc)@).to_set().insert(l@),
{
    let ghost s0 = labels_of(acc@);
    let mut p: usize = 0;
    while p < acc.len()
        invariant
            p <= acc@.len(),
            labels_of(acc@) == s0,
            forall|j: int| 0 <= j < p ==> label_lt(#[trigger] s0[j], l@),
        ensures
            p <= acc@.len(),
            labels_of(acc@) == s0,
            forall|j: int| 0 <= j < p ==> label_lt(#[trigger] s0[j], l@),
            p < acc@.len() ==> !label_lt(s0[p as int], l@),
        decreases acc@.len() - p,
    {
        if !label_less(&acc[p], l) {
            break;
        }
        p += 1;
    }
    if p < acc.len() && acc[p] == *l {
        assert(s0[p as int] == l@);
        assert(s0.to_set().insert(l@) =~= s0.to_set());
        return ;
    }
    proof {
        if p < acc@.len() {
            lemma_label_lt_total(s0[p as int], l@);
        }
    }
    acc.insert(p, l.clone());
    proof {
        let s1 = labels_of(acc@);
        assert(s1 =~= s0.insert(p as int, l@));
        assert forall|i: int| 0 <= i < s1.len() - 1 implies label_lt(#[trigger] s1[i], s1[i + 1]) by {
            if i + 1 < p {
                assert(s1[i] == s0[i] && s1[i + 1] == s0[i + 1]);
            } else if i + 1 == p {
                assert(s1[i] == s0[i]);
            } else if i == p {
            } else {
                assert(s1[i] == s0[i - 1] && s1[i + 1] == s0[i]);
            }
        }
        assert forall|i: int, j: int| 0 <= i < j < s1.len() implies s1[i] != s1[j] by {
            if j == p {
                if s1[i] == l@ {
                    lemma_label_lt_irreflexive(l@);
                }
            } else if i == p {
                if s1[j] == l@ {
                    assert(s0.contains(l@));
                    let k = choose|k: int| 0 <= k < s0.len() && s0[k] == l@;
                    if k < p {
                        lemma_label_lt_irreflexive(l@);
                    } else {
                        assert(k == p || k > p);
                        assert(false) by {
                            lemma_not_contains_after(s0, l@, p as int);
                        }
                    }
                }
            }
        }
        assert forall|x: Seq<char>| s1.contains(x) <==> s0.to_set().insert(l@).contains(x) by {
            if s1.contains(x) {
                let k = choose|k: int| 0 <= k < s1.len() && s1[k] == x;
                if k < p {
                    assert(s0[k] == x);
                } else if k > p {
                    assert(s0[k - 1] == x);
                }
            }
            if s0.contains(x) {
                let k = choose|k: int| 0 <= k < s0.len() && s0[k] == x;
                if k < p {
                    assert(s1[k] == x);
                } else {
                    assert(s1[k + 1] == x);
                }
            }
            if x == l@ {
                assert(s1[p as int] == x);
            }
        }
        assert(s1.to_set() =~= s0.to_set().insert(l@));
    }
}

/// In a sorted list, nothing at or after a position whose label is above
/// `l` equals `l`.
proof fn lemma_not_contains_after(s: Seq<Seq<char>>, l: Seq<char>, p: int)
    requires
        sorted_labels(s),
        0 <= p < s.len(),
        label_lt(l, s[p]),
    ensures
        forall|k: int| p <= k < s.len() ==> s[k] != l,
{
    assert forall|k: int| p <= k < s.len() implies s[k] != l by {
        lemma_sorted_above(s, l, p, k);
        if s[k] == l {
            lemma_label_lt_irreflexive(l);
        }
    }
}

proof fn lemma_sorted_above(s: Seq<Seq<char>>, l: Seq<char>, p: int, k: int)
    requires
        sorted_labels(s),
        0 <= p <= k < s.len(),
        label_lt(l, s[p]),
    ensures
        label_lt(l, s[k]),
    decreases k - p,
{
    if k > p {
        lemma_sorted_above(s, l, p, k - 1);
        lemma_label_lt_transitive(l, s[k - 1], s[k]);
    }
}

pub proof fn lemma_label_lt_transitive(a: Seq<char>, b: Seq<char>, c: Seq<char>)
    requires
        label_lt(a, b),
        label_lt(b, c),
    ensures
        label_lt(a, c),
    decreases a.len(),
{
    if a.len() > 0 && b.len() > 0 && c.len() > 0 && a[0] == b[0] && b[0] == c[0] {
        lemma_label_lt_transitive(a.drop_first(), b.drop_first(), c.drop_first());
    }
}

} // verus!
