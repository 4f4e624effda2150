use vstd::prelude::*;
use crate::value::Duplicate;

verus! {

/// The views of a sequence of vectors.
pub open spec fn seqs_of<U>(v: Seq<Vec<U>>) -> Seq<Seq<U>> {
    v.map_values(|x: Vec<U>| x@)
}

/// Every extension of `prefix` by one element of each column, in odometer
/// order: the last column advances fastest.
pub open spec fn completions<U>(prefix: Seq<U>, cols: Seq<Seq<U>>) -> Seq<Seq<U>>
    decreases cols.len(), 1int, 0int,
{
    if cols.len() == 0 {
        seq![prefix]
    } else {
        completions_upto(prefix, cols, cols[0].len() as int)
    }
}

/// The completions of `prefix` whose first added element is one of the
/// first `j` elements of the first column.
pub open spec fn completions_upto<U>(prefix: Seq<U>, cols: Seq<Seq<U>>, j: int) -> Seq<Seq<U>>
    decreases cols.len(), 0int, j,
{
    if cols.len() == 0 || j <= 0 {
        seq![]
    } else {
        completions_upto(prefix, cols, j - 1) + completions(
            prefix.push(cols[0][j - 1]),
            cols.drop_first(),
        )
    }
}

/// The Cartesian product of the columns, in odometer order. The product of
/// no columns holds exactly the empty tuple.
pub open spec fn product<U>(cols: Seq<Seq<U>>) -> Seq<Seq<U>> {
    completions(seq![], cols)
}

pub fn copy_vec<U: Duplicate>(s: &Vec<U>) -> (r: Vec<U>)
    ensures
        r@ == s@,
{
    let mut r: Vec<U> = Vec::new();
    let mut i: usize = 0;
    while i < s.len()
        invariant
            i <= s.len(),
            r@ == s@.subrange(0, i as int),
        decreases s.len() - i,
    {
        r.push(s[i].duplicate());
        i += 1;
        assert(r@ =~= s@.subrange(0, i as int));
    }
    assert(r@ =~= s@);
    r
}

/// Appends to `out` every completion of `prefix` over the columns from `k` on.
pub fn extend_into<U: Duplicate>(
    cols: &Vec<Vec<U>>,
    k: usize,
    prefix: &mut Vec<U>,
    out: &mut Vec<Vec<U>>,
)
    requires
        k <= cols@.len(),
    ensures
        final(prefix)@ == old(prefix)@,
        seqs_of(final(out)@) == seqs_of(old(out)@) + completions(
            old(prefix)@,
            seqs_of(cols@).subrange(k as int, cols@.len() as int),
        ),
    decreases cols@.len() - k,
{
    let ghost rest = seqs_of(cols@).subrange(k as int, cols@.len() as int);
    let ghost out0 = seqs_of(out@);
    let ghost start = prefix@;
    if k == cols.len() {
        let t = copy_vec(prefix);
        let ghost before = out@;
        out.push(t);
        assert(seqs_of(out@) =~= seqs_of(before).push(t@));
        assert(rest.len() == 0);
        return ;
    }
    assert(rest[0] == cols@[k as int]@);
    assert(rest.drop_first() =~= seqs_of(cols@).subrange(k + 1, cols@.len() as int));
    let n = cols.len();
    let mut j: usize = 0;
    while j < cols[k].len()
        invariant
            n == cols@.len(),
            k < cols@.len(),
            j <= cols@[k as int]@.len(),
            prefix@ == start,
            rest == seqs_of(cols@).subrange(k as int, cols@.len() as int),
            rest[0] == cols@[k as int]@,
            rest.drop_first() == seqs_of(cols@).subrange(k + 1, cols@.len() as int),
            seqs_of(out@) == out0 + completions_upto(start, rest, j as int),
        decreases cols@[k as int]@.len() - j,
    {
        let ghost mid = seqs_of(out@);
        prefix.push(cols[k][j].duplicate());
        extend_into(cols, k + 1, prefix, out);
        prefix.pop();
        assert(prefix@ =~= start);
        assert(completions_upto(start, rest, j + 1) == completions_upto(start, rest, j as int) + completions(
            start.push(rest[0][j as int]),
            rest.drop_first(),
        ));
        assert(seqs_of(out@) =~= out0 + completions_upto(start, rest, j + 1));
        j += 1;
    }
}

/// Every tuple of the Cartesian product of `cols`, in odometer order.
pub fn product_of<U: Duplicate>(cols: &Vec<Vec<U>>) -> (r: Vec<Vec<U>>)
    ensures
        seqs_of(r@) == product(seqs_of(cols@)),
{
    let mut out: Vec<Vec<U>> = Vec::new();
    let mut prefix: Vec<U> = Vec::new();
    extend_into(cols, 0, &mut prefix, &mut out);
    assert(seqs_of(cols@).subrange(0, cols@.len() as int) =~= seqs_of(cols@));
    assert(seqs_of(Seq::<Vec<U>>::empty()) =~= Seq::<Seq<U>>::empty());
    assert(prefix@ =~= Seq::<U>::empty());
    assert(seqs_of(out@) =~= product(seqs_of(cols@)));
    out
}

/// The odometer successor of `idx` for columns of lengths `lens`: the last
/// index advances fastest; `None` once every index has wrapped around.
pub open spec fn advance(lens: Seq<nat>, idx: Seq<usize>) -> Option<Seq<usize>>
    decreases idx.len(),
{
    if idx.len() == 0 || lens.len() != idx.len() {
        None
    } else if idx.last() + 1 < lens.last() {
        Some(idx.drop_last().push((idx.last() + 1) as usize))
    } else {
        match advance(lens.drop_last(), idx.drop_last()) {
            Some(p) => Some(p.push(0usize)),
            None => None,
        }
    }
}

/// The lengths of the columns.
pub open spec fn lens_of<T>(cols: Seq<Seq<T>>) -> Seq<nat> {
    cols.map_values(|c: Seq<T>| c.len())
}

/// The tuple that the indices select.
pub open spec fn tuple_at<T>(cols: Seq<Seq<T>>, idx: Seq<usize>) -> Seq<T> {
    Seq::new(cols.len(), |i: int| cols[i][idx[i] as int])
}

/// `n` zeros.
pub open spec fn zeros(n: nat) -> Seq<usize> {
    Seq::new(n, |i: int| 0usize)
}

/// A walker over the Cartesian product of finite sequences, in odometer
/// order.
pub struct CartesianWalker<T> {
    domains: Vec<Vec<T>>,
    indices: Vec<usize>,
    done: bool,
}

impl<T: Duplicate> CartesianWalker<T> {
    pub closed spec fn domains(&self) -> Seq<Seq<T>> {
        seqs_of(self.domains@)
    }

    /// The indices of the next tuple.
    pub closed spec fn indices(&self) -> Seq<usize> {
        self.indices@
    }

    /// Whether the walk is over.
    pub closed spec fn done(&self) -> bool {
        self.done
    }

    pub open spec fn wf(&self) -> bool {
        &&& self.indices().len() == self.domains().len()
        &&& !self.done() ==> forall|i: int|
            0 <= i < self.domains().len() ==> (#[trigger] self.indices()[i]) < self.domains()[i].len()
    }

    /// A walker at the first tuple; one with an empty factor has none.
    pub fn new(domains: Vec<Vec<T>>) -> (r: Self)
        ensures
            r.wf(),
            r.domains() == seqs_of(domains@),
            r.indices() == zeros(domains@.len()),
            r.done() == exists|i: int| 0 <= i < domains@.len() && (#[trigger] domains@[i]@).len() == 0,
    {
        let k = domains.len();
        let mut indices: Vec<usize> = Vec::new();
        let mut done = false;
        let mut i: usize = 0;
        while i < k
            invariant
                k == domains@.len(),
                i <= k,
                indices@ == zeros(i as nat),
                done == exists|j: int| 0 <= j < i && (#[trigger] domains@[j]@).len() == 0,
            decreases k - i,
        {
            if domains[i].len() == 0 {
                done = true;
            }
            indices.push(0);
            i += 1;
            assert(indices@ =~= zeros(i as nat));
        }
        CartesianWalker { domains, indices, done }
    }

    /// The tuple at the current indices, after which the walker advances
    /// odometer-style; `None` once the walk is over.
    pub fn next(&mut self) -> (r: Option<Vec<T>>)
        requires
            old(self).wf(),
        ensures
            final(self).wf(),
            final(self).domains() == old(self).domains(),
            old(self).done() ==> r.is_none() && final(self).done(),
            !old(self).done() ==> (r matches Some(t) && t@ == tuple_at(old(self).domains(), old(self).indices())),
            !old(self).done() ==> match advance(lens_of(old(self).domains()), old(self).indices()) {
                Some(p) => !final(self).done() && final(self).indices() == p,
                None => final(self).done(),
            },
    {
        if self.done {
            return None;
        }
        let ghost cols = self.domains();
        let ghost orig = self.indices@;
        let k = self.indices.len();
        let mut tuple: Vec<T> = Vec::new();
        let mut i: usize = 0;
        while i < k
            invariant
                cols == seqs_of(self.domains@),
                cols == old(self).domains(),
                orig == old(self).indices(),
                orig == self.indices@,
                self.wf(),
                !self.done,
                k == self.indices@.len(),
                i <= k,
                tuple@ == tuple_at(cols, orig).subrange(0, i as int),
            decreases k - i,
        {
            assert(cols[i as int] == self.domains@[i as int]@);
            tuple.push(self.domains[i][self.indices[i]].duplicate());
            i += 1;
            assert(tuple@ =~= tuple_at(cols, orig).subrange(0, i as int));
        }
        assert(tuple@ =~= tuple_at(cols, orig));
        let ghost lens = lens_of(cols);
        let mut j: usize = k;
        proof {
            assert(lens.subrange(0, k as int) =~= lens);
            assert(orig.subrange(0, k as int) =~= orig);
            assert(orig.subrange(0, k as int) + zeros(0) =~= orig);
        }
        while j > 0
            invariant
                cols == seqs_of(self.domains@),
                cols == old(self).domains(),
                orig == old(self).indices(),
                !old(self).done(),
                tuple@ == tuple_at(cols, orig),
                lens == lens_of(cols),
                orig.len() == k,
                lens.len() == k,
                !self.done,
                k == self.indices@.len(),
                j <= k,
                forall|m: int| 0 <= m < k ==> (#[trigger] orig[m]) < lens[m],
                self.indices@ == orig.subrange(0, j as int) + zeros((k - j) as nat),
                advance(lens, orig) == match advance(lens.subrange(0, j as int), orig.subrange(0, j as int)) {
                    Some(p) => Some(p + zeros((k - j) as nat)),
                    None => None,
                },
            decreases j,
        {
            let i = j - 1;
            let ghost ls = lens.subrange(0, j as int);
            let ghost os = orig.subrange(0, j as int);
            assert(ls.drop_last() =~= lens.subrange(0, i as int));
            assert(os.drop_last() =~= orig.subrange(0, i as int));
            assert(os.last() == orig[i as int] && ls.last() == lens[i as int]);
            assert(lens[i as int] == self.domains@[i as int]@.len());
            let len_i = self.domains[i].len();
            if self.indices[i] + 1 < len_i {
                self.indices.set(i, self.indices[i] + 1);
                proof {
                    assert(self.indices@ =~= os.drop_last().push((os.last() + 1) as usize) + zeros((k - j) as nat));
                    assert forall|m: int| 0 <= m < k implies (#[trigger] self.indices@[m]) < cols[m].len() by {
                        assert(lens[m] == cols[m].len());
                        if m > i {
                            assert(self.indices@[m] == 0);
                            assert(orig[m] < lens[m]);
                        } else if m < i {
                            assert(self.indices@[m] == orig[m]);
                        } else {
                            assert(self.indices@[m] == orig[m] + 1);
                        }
                    }
                }
                return Some(tuple);
            }
            self.indices.set(i, 0);
            proof {
                assert(self.indices@ =~= orig.subrange(0, i as int) + zeros((k - i) as nat));
                match advance(ls.drop_last(), os.drop_last()) {
                    Some(p) => {
                        assert(p.push(0usize) + zeros((k - j) as nat) =~= p + zeros((k - i) as nat));
                    },
                    None => {},
                }
            }
            j = i;
        }
        proof {
            assert(lens.subrange(0, 0) =~= Seq::<nat>::empty());
            assert(orig.subrange(0, 0) =~= Seq::<usize>::empty());
        }
        self.done = true;
        Some(tuple)
    }

    /// All tuples of the product, in odometer order.
    pub fn collect_all(&self) -> (r: Vec<Vec<T>>)
        ensures
            seqs_of(r@) == product(self.domains()),
    {
        product_of(&self.domains)
    }
}

} // verus!
