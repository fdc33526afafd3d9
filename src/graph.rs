use vstd::prelude::*;
use crate::basis::SparseBasis;
use crate::weights::{
    weight_of, nonneg, fits_u64, key_index, insert_weight, merge, scaled,
    lemma_key_index, lemma_weight_append, lemma_weight_nonneg, lemma_prefix_weight,
    lemma_merge, lemma_weight_unique, lemma_weight_scaled,
};

verus! {

/// Edge weights are exact nonnegative integers.
pub type EdgeWeight = u64;

/// Mathematical form of a sparse vector: (basis, weight) entries.
pub open spec fn entries_view(s: Seq<(SparseBasis, u64)>) -> Seq<(Seq<u32>, int)> {
    s.map_values(|e: (SparseBasis, u64)| (e.0@, e.1 as int))
}

/// A sparse, possibly unnormalised distribution over bases.
#[derive(Clone, Debug)]
pub struct SparseVector {
    pub entries: Vec<(SparseBasis, EdgeWeight)>,
}

impl SparseVector {
    pub open spec fn view(&self) -> Seq<(Seq<u32>, int)> {
        entries_view(self.entries@)
    }

    /// Every basis in the vector is in canonical form.
    pub open spec fn wf(&self) -> bool {
        forall|i: int| 0 <= i < self.entries@.len() ==> (#[trigger] self.entries@[i]).0.wf()
    }

    /// The empty vector.
    pub fn new() -> (r: SparseVector)
        ensures
            r.wf(),
            r@ == Seq::<(Seq<u32>, int)>::empty(),
    {
        let r = SparseVector { entries: Vec::new() };
        assert(r@ =~= Seq::<(Seq<u32>, int)>::empty());
        r
    }

    /// Whether every basis in the vector is in canonical form.
    pub fn is_wf(&self) -> (r: bool)
        ensures
            r == self.wf(),
    {
        let mut i: usize = 0;
        while i < self.entries.len()
            invariant
                i <= self.entries@.len(),
                forall|k: int| 0 <= k < i ==> (#[trigger] self.entries@[k]).0.wf(),
            decreases self.entries.len() - i,
        {
            if !self.entries[i].0.is_wf() {
                return false;
            }
            i = i + 1;
        }
        true
    }

    /// A copy of the vector.
    pub fn duplicate(&self) -> (r: SparseVector)
        requires
            self.wf(),
        ensures
            r.wf(),
            r@ == self@,
    {
        let mut entries: Vec<(SparseBasis, u64)> = Vec::new();
        let mut i: usize = 0;
        while i < self.entries.len()
            invariant
                self.wf(),
                i <= self.entries@.len(),
                entries@.len() == i,
                forall|k: int|
                    0 <= k < i ==> (#[trigger] entries@[k]).0@ == self.entries@[k].0@
                        && entries@[k].1 == self.entries@[k].1,
            decreases self.entries.len() - i,
        {
            let e = &self.entries[i];
            entries.push((e.0.duplicate(), e.1));
            i = i + 1;
        }
        let r = SparseVector { entries };
        assert(r@ =~= self@);
        assert forall|k: int| 0 <= k < r.entries@.len() implies (#[trigger] r.entries@[k]).0.wf() by {
            assert(self.entries@[k].0.wf());
        }
        r
    }

    /// The vector with weight `w` on `b` alone.
    pub fn singleton(b: SparseBasis, w: u64) -> (r: SparseVector)
        requires
            b.wf(),
        ensures
            r.wf(),
            r@ == seq![(b@, w as int)],
    {
        let mut entries: Vec<(SparseBasis, u64)> = Vec::new();
        entries.push((b, w));
        let r = SparseVector { entries };
        assert(r@ =~= seq![(b@, w as int)]);
        r
    }
}

/// Mathematical form of a sparse graph: (source basis, outbound vector) entries.
pub type GraphView = Seq<(Seq<u32>, Seq<(Seq<u32>, int)>)>;

/// A linear operator over sparse vectors: each source basis maps to an outbound
/// distribution. A basis with no entry has an empty outbound vector.
#[derive(Clone, Debug)]
pub struct SparseGraph {
    pub edges: Vec<(SparseBasis, SparseVector)>,
}

/// The transition graph that traversal walks.
pub type GeneroGraph = SparseGraph;

pub open spec fn graph_nonneg(g: GraphView) -> bool {
    forall|i: int| 0 <= i < g.len() ==> nonneg(#[trigger] g[i].1)
}

/// The weighted bases reached in one step from `src` with weight `w`: every
/// outbound vector of an entry for `src`, scaled by `w`, in entry order.
pub open spec fn image(g: GraphView, src: Seq<u32>, w: int) -> Seq<(Seq<u32>, int)>
    decreases g.len(),
{
    if g.len() == 0 {
        Seq::empty()
    } else {
        image(g.drop_last(), src, w) + if g.last().0 == src {
            scaled(w, g.last().1)
        } else {
            Seq::empty()
        }
    }
}

/// The sparse matrix-vector product of `g` and `v`, before like bases are merged.
pub open spec fn apply_vec(g: GraphView, v: Seq<(Seq<u32>, int)>) -> Seq<(Seq<u32>, int)>
    decreases v.len(),
{
    if v.len() == 0 {
        Seq::empty()
    } else {
        apply_vec(g, v.drop_last()) + image(g, v.last().0, v.last().1)
    }
}

/// `c1·v1 + c2·v2` as a list of weighted bases.
pub open spec fn combine(
    c1: int,
    v1: Seq<(Seq<u32>, int)>,
    c2: int,
    v2: Seq<(Seq<u32>, int)>,
) -> Seq<(Seq<u32>, int)> {
    scaled(c1, v1) + scaled(c2, v2)
}

proof fn lemma_image_nonneg(g: GraphView, src: Seq<u32>, w: int)
    requires
        graph_nonneg(g),
        w >= 0,
    ensures
        nonneg(image(g, src, w)),
    decreases g.len(),
{
    if g.len() > 0 {
        let d = g.drop_last();
        assert forall|i: int| 0 <= i < d.len() implies nonneg(#[trigger] d[i].1) by {
            assert(d[i] == g[i]);
        }
        lemma_image_nonneg(d, src, w);
        assert(nonneg(g[g.len() - 1].1));
        lemma_weight_scaled(w, g.last().1, src);
        let a = image(d, src, w);
        let b = if g.last().0 == src {
            scaled(w, g.last().1)
        } else {
            Seq::empty()
        };
        assert forall|i: int| 0 <= i < (a + b).len() implies #[trigger] (a + b)[i].1 >= 0 by {
            if i >= a.len() {
                assert((a + b)[i] == b[i - a.len()]);
            }
        }
    }
}

/// Within one source, a prefix of the graph's entries reaches no more weight than all of them.
proof fn lemma_image_mono(g: GraphView, j: int, src: Seq<u32>, w: int, key: Seq<u32>)
    requires
        graph_nonneg(g),
        w >= 0,
        0 <= j <= g.len(),
    ensures
        weight_of(image(g.subrange(0, j), src, w), key) <= weight_of(image(g, src, w), key),
    decreases g.len(),
{
    if j == g.len() {
        assert(g.subrange(0, j) =~= g);
    } else {
        let d = g.drop_last();
        assert forall|i: int| 0 <= i < d.len() implies nonneg(#[trigger] d[i].1) by {
            assert(d[i] == g[i]);
        }
        lemma_image_mono(d, j, src, w, key);
        assert(d.subrange(0, j) =~= g.subrange(0, j));
        let extra = if g.last().0 == src {
            scaled(w, g.last().1)
        } else {
            Seq::empty()
        };
        lemma_weight_append(image(d, src, w), extra, key);
        assert(nonneg(g[g.len() - 1].1));
        lemma_weight_scaled(w, g.last().1, key);
        lemma_weight_nonneg(extra, key);
    }
}

pub proof fn lemma_apply_nonneg(g: GraphView, v: Seq<(Seq<u32>, int)>)
    requires
        graph_nonneg(g),
        nonneg(v),
    ensures
        nonneg(apply_vec(g, v)),
    decreases v.len(),
{
    if v.len() > 0 {
        let d = v.drop_last();
        assert forall|i: int| 0 <= i < d.len() implies #[trigger] d[i].1 >= 0 by {
            assert(d[i] == v[i]);
        }
        lemma_apply_nonneg(g, d);
        assert(v[v.len() - 1].1 >= 0);
        lemma_image_nonneg(g, v.last().0, v.last().1);
        let a = apply_vec(g, d);
        let b = image(g, v.last().0, v.last().1);
        assert forall|i: int| 0 <= i < (a + b).len() implies #[trigger] (a + b)[i].1 >= 0 by {
            if i >= a.len() {
                assert((a + b)[i] == b[i - a.len()]);
            }
        }
    }
}

/// A prefix of the input reaches no more weight than the whole input.
proof fn lemma_apply_mono(g: GraphView, v: Seq<(Seq<u32>, int)>, i: int, key: Seq<u32>)
    requires
        graph_nonneg(g),
        nonneg(v),
        0 <= i <= v.len(),
    ensures
        weight_of(apply_vec(g, v.subrange(0, i)), key) <= weight_of(apply_vec(g, v), key),
    decreases v.len(),
{
    if i == v.len() {
        assert(v.subrange(0, i) =~= v);
    } else {
        let d = v.drop_last();
        assert forall|t: int| 0 <= t < d.len() implies #[trigger] d[t].1 >= 0 by {
            assert(d[t] == v[t]);
        }
        lemma_apply_mono(g, d, i, key);
        assert(d.subrange(0, i) =~= v.subrange(0, i));
        assert(v[v.len() - 1].1 >= 0);
        lemma_image_nonneg(g, v.last().0, v.last().1);
        lemma_weight_append(apply_vec(g, d), image(g, v.last().0, v.last().1), key);
        lemma_weight_nonneg(image(g, v.last().0, v.last().1), key);
    }
}

proof fn lemma_apply_append(g: GraphView, a: Seq<(Seq<u32>, int)>, b: Seq<(Seq<u32>, int)>)
    ensures
        apply_vec(g, a + b) == apply_vec(g, a) + apply_vec(g, b),
    decreases b.len(),
{
    if b.len() == 0 {
        assert(a + b =~= a);
        assert(apply_vec(g, a) + apply_vec(g, b) =~= apply_vec(g, a));
    } else {
        assert((a + b).drop_last() =~= a + b.drop_last());
        lemma_apply_append(g, a, b.drop_last());
        assert(apply_vec(g, a + b) =~= apply_vec(g, a) + apply_vec(g, b));
    }
}

proof fn lemma_image_scaled(g: GraphView, src: Seq<u32>, c: int, w: int, key: Seq<u32>)
    ensures
        weight_of(image(g, src, c * w), key) == c * weight_of(image(g, src, w), key),
    decreases g.len(),
{
    if g.len() > 0 {
        let d = g.drop_last();
        lemma_image_scaled(d, src, c, w, key);
        let o = g.last().1;
        let e1 = if g.last().0 == src {
            scaled(c * w, o)
        } else {
            Seq::empty()
        };
        let e2 = if g.last().0 == src {
            scaled(w, o)
        } else {
            Seq::empty()
        };
        lemma_weight_append(image(d, src, c * w), e1, key);
        lemma_weight_append(image(d, src, w), e2, key);
        lemma_weight_scaled(c * w, o, key);
        lemma_weight_scaled(w, o, key);
        let x = weight_of(image(d, src, w), key);
        let y = weight_of(o, key);
        assert(c * (x + w * y) == c * x + (c * w) * y) by (nonlinear_arith);
        assert(c * (x + 0) == c * x + 0) by (nonlinear_arith);
    }
}

proof fn lemma_apply_scaled(g: GraphView, c: int, v: Seq<(Seq<u32>, int)>, key: Seq<u32>)
    ensures
        weight_of(apply_vec(g, scaled(c, v)), key) == c * weight_of(apply_vec(g, v), key),
    decreases v.len(),
{
    if v.len() > 0 {
        let d = v.drop_last();
        assert(scaled(c, v).drop_last() =~= scaled(c, d));
        lemma_apply_scaled(g, c, d, key);
        lemma_weight_append(apply_vec(g, scaled(c, d)), image(g, v.last().0, c * v.last().1), key);
        lemma_weight_append(apply_vec(g, d), image(g, v.last().0, v.last().1), key);
        lemma_image_scaled(g, v.last().0, c, v.last().1, key);
        let x = weight_of(apply_vec(g, d), key);
        let y = weight_of(image(g, v.last().0, v.last().1), key);
        assert(c * (x + y) == c * x + c * y) by (nonlinear_arith);
    }
}

/// Applying the operator is linear: the image of `c1·v1 + c2·v2` gives every
/// basis `c1` times its weight in the image of `v1` plus `c2` times its weight
/// in the image of `v2`.
pub proof fn lemma_map_vec_linear(
    g: GraphView,
    c1: int,
    v1: Seq<(Seq<u32>, int)>,
    c2: int,
    v2: Seq<(Seq<u32>, int)>,
)
    ensures
        forall|key: Seq<u32>|
            #[trigger] weight_of(merge(apply_vec(g, combine(c1, v1, c2, v2))), key) == c1
                * weight_of(merge(apply_vec(g, v1)), key) + c2 * weight_of(
                merge(apply_vec(g, v2)),
                key,
            ),
{
    assert forall|key: Seq<u32>|
        #[trigger] weight_of(merge(apply_vec(g, combine(c1, v1, c2, v2))), key) == c1 * weight_of(
            merge(apply_vec(g, v1)),
            key,
        ) + c2 * weight_of(merge(apply_vec(g, v2)), key) by {
        lemma_merge(apply_vec(g, combine(c1, v1, c2, v2)), key);
        lemma_merge(apply_vec(g, v1), key);
        lemma_merge(apply_vec(g, v2), key);
        lemma_apply_append(g, scaled(c1, v1), scaled(c2, v2));
        lemma_weight_append(apply_vec(g, scaled(c1, v1)), apply_vec(g, scaled(c2, v2)), key);
        lemma_apply_scaled(g, c1, v1, key);
        lemma_apply_scaled(g, c2, v2, key);
    }
}

/// Adds weight `x` to basis `key` in `res`, unless the sum would overflow.
fn add_weight(res: &mut Vec<(SparseBasis, u64)>, key: SparseBasis, x: u64) -> (ok: bool)
    requires
        key.wf(),
        forall|i: int| 0 <= i < old(res)@.len() ==> (#[trigger] old(res)@[i]).0.wf(),
    ensures
        forall|i: int| 0 <= i < final(res)@.len() ==> (#[trigger] final(res)@[i]).0.wf(),
        ok ==> entries_view(final(res)@) == insert_weight(
            entries_view(old(res)@),
            (key@, x as int),
        ),
        !ok ==> {
            let s = entries_view(old(res)@);
            &&& final(res)@ == old(res)@
            &&& key_index(s, key@) >= 0
            &&& s[key_index(s, key@)].1 + x > u64::MAX
        },
{
    let ghost s = entries_view(res@);
    let mut i: usize = 0;
    while i < res.len()
        invariant
            i <= res@.len(),
            s == entries_view(res@),
            res@ == old(res)@,
            forall|t: int| 0 <= t < res@.len() ==> (#[trigger] res@[t]).0.wf(),
            forall|j: int| 0 <= j < i ==> (#[trigger] res@[j]).0@ != key@,
        decreases res.len() - i,
    {
        if res[i].0.same_as(&key) {
            proof {
                lemma_key_index(s, key@);
                assert(s[i as int].0 == key@);
                assert forall|j: int| 0 <= j < i implies #[trigger] s[j].0 != key@ by {
                    assert(s[j].0 == res@[j].0@);
                }
            }
            let cur = res[i].1;
            match cur.checked_add(x) {
                Some(sum) => {
                    proof {
                        assert(key_index(s, key@) == i as int);
                    }
                    res.set(i, (key, sum));
                    assert forall|t: int| 0 <= t < res@.len() implies (#[trigger] res@[t]).0.wf() by {
                        if t != i {
                            assert(res@[t] == old(res)@[t]);
                        }
                    }
                    assert(entries_view(res@) =~= s.update(i as int, (key@, s[i as int].1 + x)));
                    return true;
                },
                None => {
                    return false;
                },
            }
        }
        i = i + 1;
    }
    proof {
        lemma_key_index(s, key@);
        if key_index(s, key@) >= 0 {
            assert(res@[key_index(s, key@)].0@ != key@);
        }
    }
    res.push((key, x));
    assert(entries_view(res@) =~= s.push((key@, x as int)));
    assert forall|t: int| 0 <= t < res@.len() implies (#[trigger] res@[t]).0.wf() by {
        if t < res@.len() - 1 {
            assert(res@[t] == old(res)@[t]);
        }
    }
    true
}

impl SparseGraph {
    pub open spec fn view(&self) -> GraphView {
        self.edges@.map_values(|e: (SparseBasis, SparseVector)| (e.0@, e.1@))
    }

    /// Every basis is in canonical form, and each source basis has one entry.
    pub open spec fn wf(&self) -> bool {
        &&& forall|i: int|
            0 <= i < self.edges@.len() ==> (#[trigger] self.edges@[i]).0.wf()
                && self.edges@[i].1.wf()
        &&& forall|i: int, j: int|
            0 <= i < j < self.edges@.len() ==> (#[trigger] self.edges@[i]).0@
                != (#[trigger] self.edges@[j]).0@
    }

    /// Whether the graph is well formed: canonical bases, one entry per source.
    pub fn is_wf(&self) -> (r: bool)
        ensures
            r == self.wf(),
    {
        let n = self.edges.len();
        let mut i: usize = 0;
        while i < n
            invariant
                n == self.edges@.len(),
                i <= n,
                forall|k: int|
                    0 <= k < i ==> (#[trigger] self.edges@[k]).0.wf() && self.edges@[k].1.wf(),
                forall|a: int, b: int|
                    0 <= a < b < n && a < i ==> (#[trigger] self.edges@[a]).0@
                        != (#[trigger] self.edges@[b]).0@,
            decreases n - i,
        {
            if !self.edges[i].0.is_wf() || !self.edges[i].1.is_wf() {
                return false;
            }
            let mut j: usize = i + 1;
            while j < n
                invariant
                    n == self.edges@.len(),
                    i < j <= n,
                    forall|b: int| i < b < j ==> self.edges@[i as int].0@ != (#[trigger] self.edges@[b]).0@,
                decreases n - j,
            {
                if self.edges[i].0.same_as(&self.edges[j].0) {
                    return false;
                }
                j = j + 1;
            }
            i = i + 1;
        }
        true
    }

    /// The graph with no edges.
    pub fn new() -> (r: SparseGraph)
        ensures
            r.wf(),
            r@ == GraphView::empty(),
    {
        let r = SparseGraph { edges: Vec::new() };
        assert(r@ =~= GraphView::empty());
        r
    }

    pub proof fn lemma_view_nonneg(&self)
        ensures
            graph_nonneg(self@),
    {
        assert forall|i: int| 0 <= i < self@.len() implies nonneg(#[trigger] self@[i].1) by {
            let o = self.edges@[i].1;
            assert(self@[i].1 == o@);
            assert forall|t: int| 0 <= t < o@.len() implies #[trigger] o@[t].1 >= 0 by {
                assert(o@[t].1 == o.entries@[t].1 as int);
            }
        }
    }

    /// Applies the operator to `v`: every entry's outbound vector, scaled by the
    /// entry's weight, summed per basis. `None` exactly when some resulting
    /// weight does not fit in a `u64`.
    pub fn map_vec(&self, v: &SparseVector) -> (r: Option<SparseVector>)
        requires
            self.wf(),
            v.wf(),
        ensures
            r is Some <==> fits_u64(apply_vec(self@, v@)),
            r matches Some(o) ==> o.wf() && o@ == merge(apply_vec(self@, v@)),
            v@.len() == 0 ==> (r matches Some(o) && o@.len() == 0),
    {
        let ghost g = self@;
        let ghost vv = v@;
        proof {
            self.lemma_view_nonneg();
            assert forall|t: int| 0 <= t < vv.len() implies #[trigger] vv[t].1 >= 0 by {
                assert(vv[t].1 == v.entries@[t].1 as int);
            }
        }
        let mut res: Vec<(SparseBasis, u64)> = Vec::new();
        assert(entries_view(res@) =~= merge(apply_vec(g, vv.subrange(0, 0))));
        let mut i: usize = 0;
        while i < v.entries.len()
            invariant
                self.wf(),
                v.wf(),
                g == self@,
                vv == v@,
                graph_nonneg(g),
                nonneg(vv),
                i <= vv.len(),
                forall|t: int| 0 <= t < res@.len() ==> (#[trigger] res@[t]).0.wf(),
                entries_view(res@) == merge(apply_vec(g, vv.subrange(0, i as int))),
            decreases v.entries.len() - i,
        {
            let k = &v.entries[i].0;
            let w = v.entries[i].1;
            let ghost p = apply_vec(g, vv.subrange(0, i as int));
            proof {
                assert(vv[i as int] == (k@, w as int));
                assert(vv.subrange(0, i + 1).drop_last() =~= vv.subrange(0, i as int));
                assert(apply_vec(g, vv.subrange(0, i + 1)) == p + image(g, k@, w as int));
                assert(g.subrange(0, 0) =~= GraphView::empty());
                assert(p + image(g.subrange(0, 0), k@, w as int) =~= p);
            }
            let mut j: usize = 0;
            while j < self.edges.len()
                invariant
                    self.wf(),
                    v.wf(),
                    g == self@,
                    vv == v@,
                    graph_nonneg(g),
                    nonneg(vv),
                    i < vv.len(),
                    vv[i as int] == (k@, w as int),
                    p == apply_vec(g, vv.subrange(0, i as int)),
                    j <= g.len(),
                    forall|t: int| 0 <= t < res@.len() ==> (#[trigger] res@[t]).0.wf(),
                    entries_view(res@) == merge(p + image(g.subrange(0, j as int), k@, w as int)),
                decreases self.edges.len() - j,
            {
                let ghost q = p + image(g.subrange(0, j as int), k@, w as int);
                proof {
                    assert(g.subrange(0, j + 1).drop_last() =~= g.subrange(0, j as int));
                    assert(g[j as int] == (self.edges@[j as int].0@, self.edges@[j as int].1@));
                }
                if self.edges[j].0.same_as(k) {
                    let o = &self.edges[j].1;
                    let ghost ov = o@;
                    proof {
                        assert(self.edges@[j as int].0.wf() && o.wf());
                        assert(image(g.subrange(0, j + 1), k@, w as int) == image(
                            g.subrange(0, j as int),
                            k@,
                            w as int,
                        ) + scaled(w as int, ov));
                        assert(q + scaled(w as int, ov.subrange(0, 0)) =~= q);
                    }
                    let mut l: usize = 0;
                    while l < o.entries.len()
                        invariant
                            self.wf(),
                            v.wf(),
                            o.wf(),
                            g == self@,
                            vv == v@,
                            ov == o@,
                            graph_nonneg(g),
                            nonneg(vv),
                            nonneg(ov),
                            i < vv.len(),
                            vv[i as int] == (k@, w as int),
                            p == apply_vec(g, vv.subrange(0, i as int)),
                            j < g.len(),
                            g[j as int] == (k@, ov),
                            q == p + image(g.subrange(0, j as int), k@, w as int),
                            l <= ov.len(),
                            forall|t: int| 0 <= t < res@.len() ==> (#[trigger] res@[t]).0.wf(),
                            entries_view(res@) == merge(
                                q + scaled(w as int, ov.subrange(0, l as int)),
                            ),
                        decreases o.entries.len() - l,
                    {
                        let b = &o.entries[l].0;
                        let x = o.entries[l].1;
                        let ghost cur = q + scaled(w as int, ov.subrange(0, l as int));
                        let ghost next = q + scaled(w as int, ov.subrange(0, l + 1));
                        proof {
                            assert(ov[l as int] == (b@, x as int));
                            assert(next =~= cur.push((b@, w * x)));
                        }
                        let prod = w.checked_mul(x);
                        let ok = match prod {
                            Some(y) => add_weight(&mut res, b.duplicate(), y),
                            None => false,
                        };
                        if !ok {
                            proof {
                                if prod is Some {
                                    let sm = merge(cur);
                                    lemma_merge(cur, b@);
                                    lemma_weight_unique(sm, b@);
                                }
                                self.lemma_overflow(vv, i as int, j as int, l as int, b@, w * x);
                            }
                            return None;
                        }
                        proof {
                            assert(cur.push((b@, w * x)).drop_last() =~= cur);
                            assert(merge(next) == insert_weight(merge(cur), (b@, w * x)));
                        }
                        l = l + 1;
                    }
                    proof {
                        assert(ov.subrange(0, l as int) =~= ov);
                        assert(q + scaled(w as int, ov) =~= p + image(
                            g.subrange(0, j + 1),
                            k@,
                            w as int,
                        ));
                    }
                } else {
                    assert(image(g.subrange(0, j + 1), k@, w as int) =~= image(
                        g.subrange(0, j as int),
                        k@,
                        w as int,
                    ));
                }
                assert(g.subrange(0, j + 1).drop_last() =~= g.subrange(0, j as int));
                j = j + 1;
            }
            proof {
                assert(g.subrange(0, j as int) =~= g);
            }
            i = i + 1;
        }
        proof {
            assert(vv.subrange(0, i as int) =~= vv);
            assert forall|key: Seq<u32>| #[trigger] weight_of(apply_vec(g, vv), key) <= u64::MAX by {
                let s = merge(apply_vec(g, vv));
                lemma_merge(apply_vec(g, vv), key);
                lemma_weight_unique(s, key);
                lemma_key_index(s, key);
                if key_index(s, key) >= 0 {
                    assert(s[key_index(s, key)].1 == res@[key_index(s, key)].1 as int);
                }
            }
        }
        Some(SparseVector { entries: res })
    }

    /// An overflow while adding the `l`-th entry of the `j`-th outbound vector for
    /// the `i`-th input entry means some basis's full weight overflows.
    proof fn lemma_overflow(
        &self,
        vv: Seq<(Seq<u32>, int)>,
        i: int,
        j: int,
        l: int,
        b: Seq<u32>,
        y: int,
    )
        requires
            graph_nonneg(self@),
            nonneg(vv),
            0 <= i < vv.len(),
            0 <= j < self@.len(),
            self@[j].0 == vv[i].0,
            0 <= l < self@[j].1.len(),
            y == vv[i].1 * self@[j].1[l].1,
            self@[j].1[l].0 == b,
            y > u64::MAX || weight_of(
                apply_vec(self@, vv.subrange(0, i)) + image(self@.subrange(0, j), vv[i].0, vv[i].1)
                    + scaled(vv[i].1, self@[j].1.subrange(0, l)),
                b,
            ) + y > u64::MAX,
        ensures
            !fits_u64(apply_vec(self@, vv)),
    {
        let g = self@;
        let k = vv[i].0;
        let w = vv[i].1;
        let o = g[j].1;
        let p = apply_vec(g, vv.subrange(0, i));
        let ij = image(g.subrange(0, j), k, w);
        let cur = p + ij + scaled(w, o.subrange(0, l));
        let next = p + ij + scaled(w, o.subrange(0, l + 1));
        let vi = vv.subrange(0, i);
        let gj = g.subrange(0, j);
        let ol = o.subrange(0, l);
        assert(nonneg(o));
        assert forall|t: int| 0 <= t < vi.len() implies #[trigger] vi[t].1 >= 0 by {
            assert(vi[t] == vv[t]);
        }
        assert forall|t: int| 0 <= t < gj.len() implies nonneg(#[trigger] gj[t].1) by {
            assert(gj[t] == g[t]);
        }
        assert forall|t: int| 0 <= t < ol.len() implies #[trigger] ol[t].1 >= 0 by {
            assert(ol[t] == o[t]);
        }
        assert(w >= 0);
        lemma_apply_nonneg(g, vi);
        lemma_image_nonneg(gj, k, w);
        lemma_weight_scaled(w, ol, b);
        lemma_weight_nonneg(p, b);
        lemma_weight_nonneg(ij, b);
        lemma_weight_nonneg(scaled(w, ol), b);
        lemma_weight_append(p, ij, b);
        lemma_weight_append(p + ij, scaled(w, ol), b);
        assert(next =~= cur.push((b, y)));
        assert(cur.push((b, y)).drop_last() =~= cur);
        assert(weight_of(next, b) == weight_of(cur, b) + y);
        assert(weight_of(next, b) > u64::MAX);
        lemma_weight_append(p + ij, scaled(w, o.subrange(0, l + 1)), b);
        assert(scaled(w, o.subrange(0, l + 1)) =~= scaled(w, o).subrange(0, l + 1));
        lemma_weight_scaled(w, o, b);
        lemma_prefix_weight(scaled(w, o), l + 1, b);
        lemma_weight_append(ij, scaled(w, o), b);
        assert(g.subrange(0, j + 1).drop_last() =~= gj);
        assert(image(g.subrange(0, j + 1), k, w) == ij + scaled(w, o));
        lemma_image_mono(g, j + 1, k, w, b);
        lemma_weight_append(p, image(g, k, w), b);
        assert(vv.subrange(0, i + 1).drop_last() =~= vi);
        assert(apply_vec(g, vv.subrange(0, i + 1)) == p + image(g, k, w));
        lemma_apply_mono(g, vv, i + 1, b);
        assert(weight_of(apply_vec(g, vv), b) > u64::MAX);
    }
}

/// Edges leaving bases that hold node `n`: (source, destination) pairs in graph order.
pub open spec fn outbound(g: GraphView, n: u32) -> Seq<(Seq<u32>, Seq<u32>)>
    decreases g.len(),
{
    if g.len() == 0 {
        Seq::empty()
    } else {
        let src = g.last().0;
        outbound(g.drop_last(), n) + if src.contains(n) {
            g.last().1.map_values(|e: (Seq<u32>, int)| (src, e.0))
        } else {
            Seq::empty()
        }
    }
}

/// Mathematical form of a list of edges.
pub open spec fn edges_view(s: Seq<(SparseBasis, SparseBasis)>) -> Seq<(Seq<u32>, Seq<u32>)> {
    s.map_values(|e: (SparseBasis, SparseBasis)| (e.0@, e.1@))
}

impl SparseGraph {
    /// A source basis picked by `draw`: the key at position `draw` modulo the
    /// number of entries, so a uniform draw picks uniformly over the entries.
    /// `None` for a graph without entries.
    pub fn random_basis(&self, draw: u64) -> (r: Option<SparseBasis>)
        requires
            self.wf(),
        ensures
            r is None <==> self@.len() == 0,
            r matches Some(b) ==> b.wf() && b@ == self@[(draw as int) % (self@.len() as int)].0,
    {
        let n = self.edges.len();
        if n == 0 {
            return None;
        }
        let i = (draw % (n as u64)) as usize;
        assert(self.edges@[i as int].0.wf());
        Some(self.edges[i].0.duplicate())
    }

    /// Every edge whose source basis holds `node`, as (source, destination) pairs.
    pub fn get_outbound_edges(&self, node: u32) -> (r: Vec<(SparseBasis, SparseBasis)>)
        requires
            self.wf(),
        ensures
            edges_view(r@) == outbound(self@, node),
            forall|t: int| 0 <= t < r@.len() ==> (#[trigger] r@[t]).0.wf() && r@[t].1.wf(),
    {
        let ghost g = self@;
        let mut r: Vec<(SparseBasis, SparseBasis)> = Vec::new();
        let mut i: usize = 0;
        assert(g.subrange(0, 0) =~= GraphView::empty());
        assert(edges_view(r@) =~= outbound(g.subrange(0, 0), node));
        while i < self.edges.len()
            invariant
                self.wf(),
                g == self@,
                i <= g.len(),
                edges_view(r@) == outbound(g.subrange(0, i as int), node),
                forall|t: int| 0 <= t < r@.len() ==> (#[trigger] r@[t]).0.wf() && r@[t].1.wf(),
            decreases self.edges.len() - i,
        {
            let src = &self.edges[i].0;
            let ghost before = edges_view(r@);
            proof {
                assert(g.subrange(0, i + 1).drop_last() =~= g.subrange(0, i as int));
                assert(g[i as int] == (src@, self.edges@[i as int].1@));
                assert(self.edges@[i as int].0.wf() && self.edges@[i as int].1.wf());
            }
            if src.contains_node(node) {
                let o = &self.edges[i].1;
                let ghost add = o@.map_values(|e: (Seq<u32>, int)| (src@, e.0));
                let mut t: usize = 0;
                while t < o.entries.len()
                    invariant
                        self.wf(),
                        o.wf(),
                        src.wf(),
                        t <= o@.len(),
                        add == o@.map_values(|e: (Seq<u32>, int)| (src@, e.0)),
                        edges_view(r@) == before + add.subrange(0, t as int),
                        forall|u: int| 0 <= u < r@.len() ==> (#[trigger] r@[u]).0.wf() && r@[u].1.wf(),
                    decreases o.entries.len() - t,
                {
                    let ghost rb = r@;
                    assert(o.entries@[t as int].0.wf());
                    r.push((src.duplicate(), o.entries[t].0.duplicate()));
                    assert(o@[t as int].0 == o.entries@[t as int].0@);
                    assert(add[t as int] == (src@, o.entries@[t as int].0@));
                    assert(edges_view(r@) =~= edges_view(rb).push((src@, o.entries@[t as int].0@)));
                    assert(edges_view(r@) =~= before + add.subrange(0, t + 1));
                    assert forall|u: int| 0 <= u < r@.len() implies (#[trigger] r@[u]).0.wf() && r@[u].1.wf() by {
                        if u < rb.len() {
                            assert(r@[u] == rb[u]);
                        }
                    }
                    t = t + 1;
                }
                assert(add.subrange(0, t as int) =~= add);
            } else {
                assert(edges_view(r@) =~= outbound(g.subrange(0, i + 1), node));
            }
            i = i + 1;
        }
        assert(g.subrange(0, i as int) =~= g);
        r
    }
}

} // verus!
