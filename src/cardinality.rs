use vstd::prelude::*;
use crate::weights::{
    weight_of, total, nonneg, fits_u64, key_index, insert_weight, merge, lemma_key_index,
    lemma_merge, lemma_weight_unique, lemma_prefix_weight, lemma_weight_append,
    lemma_weight_nonneg,
};
use crate::graph::{SparseVector, SparseGraph, GraphView, apply_vec, graph_nonneg, lemma_apply_nonneg};

verus! {

/// Each entry's basis replaced by its size; entries of weight zero count as
/// absent and are left out.
pub open spec fn sizes(v: Seq<(Seq<u32>, int)>) -> Seq<(int, int)>
    decreases v.len(),
{
    if v.len() == 0 {
        Seq::empty()
    } else {
        sizes(v.drop_last()) + if v.last().1 != 0 {
            seq![(v.last().0.len() as int, v.last().1)]
        } else {
            Seq::empty()
        }
    }
}

/// Every weight is positive.
pub open spec fn positive<K>(s: Seq<(K, int)>) -> bool {
    forall|i: int| 0 <= i < s.len() ==> #[trigger] s[i].1 > 0
}

proof fn lemma_sizes_positive(v: Seq<(Seq<u32>, int)>)
    requires
        nonneg(v),
    ensures
        positive(sizes(v)),
        nonneg(sizes(v)),
    decreases v.len(),
{
    if v.len() > 0 {
        let d = v.drop_last();
        assert forall|i: int| 0 <= i < d.len() implies #[trigger] d[i].1 >= 0 by {
            assert(d[i] == v[i]);
        }
        lemma_sizes_positive(d);
        assert(v[v.len() - 1].1 >= 0);
        let a = sizes(d);
        let b = if v.last().1 != 0 {
            seq![(v.last().0.len() as int, v.last().1)]
        } else {
            Seq::empty()
        };
        assert forall|u: int| 0 <= u < (a + b).len() implies #[trigger] (a + b)[u].1 > 0 by {
            if u >= a.len() {
                assert((a + b)[u] == b[u - a.len()]);
            }
        }
    }
}

proof fn lemma_sizes_mono(v: Seq<(Seq<u32>, int)>, i: int, key: int)
    requires
        nonneg(v),
        0 <= i <= v.len(),
    ensures
        weight_of(sizes(v.subrange(0, i)), key) <= weight_of(sizes(v), key),
    decreases v.len(),
{
    if i == v.len() {
        assert(v.subrange(0, i) =~= v);
    } else {
        let d = v.drop_last();
        assert forall|t: int| 0 <= t < d.len() implies #[trigger] d[t].1 >= 0 by {
            assert(d[t] == v[t]);
        }
        lemma_sizes_mono(d, i, key);
        assert(d.subrange(0, i) =~= v.subrange(0, i));
        assert(v[v.len() - 1].1 >= 0);
        let b = if v.last().1 != 0 {
            seq![(v.last().0.len() as int, v.last().1)]
        } else {
            Seq::empty()
        };
        lemma_weight_append(sizes(d), b, key);
        assert(nonneg(b));
        lemma_weight_nonneg(b, key);
    }
}

proof fn lemma_merge_positive<K>(s: Seq<(K, int)>)
    requires
        positive(s),
    ensures
        positive(merge(s)),
    decreases s.len(),
{
    if s.len() > 0 {
        let d = s.drop_last();
        assert forall|i: int| 0 <= i < d.len() implies #[trigger] d[i].1 > 0 by {
            assert(d[i] == s[i]);
        }
        lemma_merge_positive(d);
        lemma_key_index(merge(d), s.last().0);
        assert(s[s.len() - 1].1 > 0);
    }
}

/// Mathematical form of a size distribution.
pub open spec fn size_view(s: Seq<(usize, u64)>) -> Seq<(int, int)> {
    s.map_values(|e: (usize, u64)| (e.0 as int, e.1 as int))
}

/// Summing per size loses no weight: the cardinality of a vector has the
/// same total weight as the vector.
pub proof fn lemma_cardinality_mass(v: Seq<(Seq<u32>, int)>)
    ensures
        total(merge(sizes(v))) == total(v),
{
    lemma_merge(sizes(v), 0);
    lemma_sizes_total(v);
}

proof fn lemma_sizes_total(v: Seq<(Seq<u32>, int)>)
    ensures
        total(sizes(v)) == total(v),
    decreases v.len(),
{
    if v.len() > 0 {
        lemma_sizes_total(v.drop_last());
        let b = if v.last().1 != 0 {
            seq![(v.last().0.len() as int, v.last().1)]
        } else {
            Seq::empty()
        };
        lemma_weight_append(sizes(v.drop_last()), b, 0);
        if v.last().1 != 0 {
            assert(b.drop_last() =~= Seq::<(int, int)>::empty());
            assert(total(Seq::<(int, int)>::empty()) == 0);
        }
        assert(total(b) == v.last().1);
    }
}

proof fn lemma_merge_nonneg<K>(s: Seq<(K, int)>)
    requires
        nonneg(s),
    ensures
        nonneg(merge(s)),
    decreases s.len(),
{
    if s.len() > 0 {
        let d = s.drop_last();
        assert forall|i: int| 0 <= i < d.len() implies #[trigger] d[i].1 >= 0 by {
            assert(d[i] == s[i]);
        }
        lemma_merge_nonneg(d);
        lemma_key_index(merge(d), s.last().0);
        assert(s[s.len() - 1].1 >= 0);
    }
}

/// Adds weight `x` to size `key` in `res`, unless the sum would overflow.
fn add_size_weight(res: &mut Vec<(usize, u64)>, key: usize, x: u64) -> (ok: bool)
    ensures
        ok ==> size_view(final(res)@) == insert_weight(size_view(old(res)@), (key as int, x as int)),
        !ok ==> {
            let s = size_view(old(res)@);
            &&& final(res)@ == old(res)@
            &&& key_index(s, key as int) >= 0
            &&& s[key_index(s, key as int)].1 + x > u64::MAX
        },
{
    let ghost s = size_view(res@);
    let mut i: usize = 0;
    while i < res.len()
        invariant
            i <= res@.len(),
            s == size_view(res@),
            res@ == old(res)@,
            forall|j: int| 0 <= j < i ==> (#[trigger] res@[j]).0 != key,
        decreases res.len() - i,
    {
        if res[i].0 == key {
            proof {
                lemma_key_index(s, key as int);
                assert(s[i as int].0 == key as int);
                assert forall|j: int| 0 <= j < i implies #[trigger] s[j].0 != key as int by {
                    assert(s[j].0 == res@[j].0 as int);
                }
                assert(key_index(s, key as int) == i as int);
            }
            let cur = res[i].1;
            match cur.checked_add(x) {
                Some(sum) => {
                    res.set(i, (key, sum));
                    assert(size_view(res@) =~= s.update(i as int, (key as int, s[i as int].1 + x)));
                    return true;
                },
                None => {
                    return false;
                },
            }
        }
        i = i + 1;
    }
    proof {
        lemma_key_index(s, key as int);
        if key_index(s, key as int) >= 0 {
            assert(res@[key_index(s, key as int)].0 != key);
        }
    }
    res.push((key, x));
    assert(size_view(res@) =~= s.push((key as int, x as int)));
    true
}

impl SparseVector {
    /// The cardinality of the vector: for each basis size present, the summed
    /// weight of the bases of that size, in order of first occurrence.
    /// `None` exactly when some size's weight does not fit in a `u64`.
    pub fn cardinality(&self) -> (r: Option<Vec<(usize, u64)>>)
        ensures
            r is Some <==> fits_u64(sizes(self@)),
            r matches Some(c) ==> size_view(c@) == merge(sizes(self@)) && forall|i: int|
                0 <= i < c@.len() ==> #[trigger] c@[i].1 > 0,
    {
        let ghost v = self@;
        let mut res: Vec<(usize, u64)> = Vec::new();
        let mut i: usize = 0;
        assert(v.subrange(0, 0) =~= Seq::<(Seq<u32>, int)>::empty());
        assert(size_view(res@) =~= merge(sizes(v.subrange(0, 0))));
        proof {
            assert forall|t: int| 0 <= t < v.len() implies #[trigger] v[t].1 >= 0 by {
                assert(v[t].1 == self.entries@[t].1 as int);
            }
        }
        while i < self.entries.len()
            invariant
                v == self@,
                nonneg(v),
                i <= v.len(),
                size_view(res@) == merge(sizes(v.subrange(0, i as int))),
            decreases self.entries.len() - i,
        {
            let k = self.entries[i].0.size();
            let w = self.entries[i].1;
            let ghost cur = sizes(v.subrange(0, i as int));
            proof {
                assert(v[i as int] == (self.entries@[i as int].0@, w as int));
                assert(v.subrange(0, i + 1).drop_last() =~= v.subrange(0, i as int));
                assert(v.subrange(0, i + 1).last() == v[i as int]);
            }
            if w != 0 {
                proof {
                    assert(sizes(v.subrange(0, i + 1)) =~= cur.push((k as int, w as int)));
                    assert(cur.push((k as int, w as int)).drop_last() =~= cur);
                }
                if !add_size_weight(&mut res, k, w) {
                    proof {
                        let m = merge(cur);
                        lemma_merge(cur, k as int);
                        lemma_weight_unique(m, k as int);
                        lemma_sizes_mono(v, i + 1, k as int);
                        assert(weight_of(sizes(v), k as int) > u64::MAX);
                    }
                    return None;
                }
            } else {
                assert(sizes(v.subrange(0, i + 1)) =~= cur);
            }
            i = i + 1;
        }
        proof {
            assert(v.subrange(0, i as int) =~= v);
            let sv = sizes(v);
            assert forall|key: int| #[trigger] weight_of(sv, key) <= u64::MAX by {
                let m = merge(sv);
                lemma_merge(sv, key);
                lemma_weight_unique(m, key);
                lemma_key_index(m, key);
                if key_index(m, key) >= 0 {
                    assert(m[key_index(m, key)].1 == res@[key_index(m, key)].1 as int);
                }
            }
            lemma_sizes_positive(v);
            lemma_merge_positive(sv);
            assert forall|t: int| 0 <= t < res@.len() implies #[trigger] res@[t].1 > 0 by {
                assert(size_view(res@)[t].1 == res@[t].1 as int);
            }
        }
        Some(res)
    }
}

/// Sampled sizes: the summed weight per basis size over all samples, and the
/// number of samples. The estimated probability of a size is its weight
/// divided by `num_samples`.
#[derive(Clone, Debug)]
pub struct CardinalityEstimate {
    pub weights: Vec<(usize, u64)>,
    pub num_samples: usize,
}

/// The one-entry vector on the basis that `draw` picks.
pub open spec fn start_vec(g: GraphView, draw: u64) -> Seq<(Seq<u32>, int)> {
    seq![(g[(draw as int) % (g.len() as int)].0, 1int)]
}

/// The cardinality of one step from the basis that `draw` picks; nothing for
/// a graph without entries.
pub open spec fn sample_sizes(g: GraphView, draw: u64) -> Seq<(int, int)> {
    if g.len() == 0 {
        Seq::empty()
    } else {
        merge(sizes(merge(apply_vec(g, start_vec(g, draw)))))
    }
}

/// One sample's step and cardinality fit in `u64` weights.
pub open spec fn sample_fits(g: GraphView, draw: u64) -> bool {
    g.len() == 0 || (fits_u64(apply_vec(g, start_vec(g, draw))) && fits_u64(
        sizes(merge(apply_vec(g, start_vec(g, draw)))),
    ))
}

/// The cardinalities of all samples, one after another.
pub open spec fn all_sample_sizes(g: GraphView, draws: Seq<u64>) -> Seq<(int, int)>
    decreases draws.len(),
{
    if draws.len() == 0 {
        Seq::empty()
    } else {
        all_sample_sizes(g, draws.drop_last()) + sample_sizes(g, draws.last())
    }
}

proof fn lemma_sample_nonneg(g: GraphView, draw: u64)
    requires
        graph_nonneg(g),
    ensures
        nonneg(sample_sizes(g, draw)),
        positive(sample_sizes(g, draw)),
{
    if g.len() > 0 {
        let sv = start_vec(g, draw);
        lemma_apply_nonneg(g, sv);
        lemma_merge_nonneg(apply_vec(g, sv));
        let m = merge(apply_vec(g, sv));
        lemma_sizes_positive(m);
        lemma_merge_positive(sizes(m));
        lemma_merge_nonneg(sizes(m));
    }
}

proof fn lemma_all_samples_mono(g: GraphView, draws: Seq<u64>, i: int, key: int)
    requires
        graph_nonneg(g),
        0 <= i <= draws.len(),
    ensures
        weight_of(all_sample_sizes(g, draws.subrange(0, i)), key) <= weight_of(
            all_sample_sizes(g, draws),
            key,
        ),
    decreases draws.len(),
{
    if i == draws.len() {
        assert(draws.subrange(0, i) =~= draws);
    } else {
        let d = draws.drop_last();
        lemma_all_samples_mono(g, d, i, key);
        assert(d.subrange(0, i) =~= draws.subrange(0, i));
        lemma_sample_nonneg(g, draws.last());
        lemma_weight_append(all_sample_sizes(g, d), sample_sizes(g, draws.last()), key);
        lemma_weight_nonneg(sample_sizes(g, draws.last()), key);
    }
}

/// Estimates the distribution of sizes after one step of `hg`: for each draw,
/// the start basis that the draw picks is stepped once and the cardinality of
/// the result is accumulated. `None` exactly when some weight along the way
/// does not fit in a `u64`.
pub fn average_cardinality(hg: &SparseGraph, draws: &Vec<u64>) -> (r: Option<CardinalityEstimate>)
    requires
        hg.wf(),
    ensures
        r is Some <==> ((forall|i: int| 0 <= i < draws@.len() ==> sample_fits(hg@, #[trigger] draws@[i]))
            && fits_u64(all_sample_sizes(hg@, draws@))),
        r matches Some(d) ==> d.num_samples == draws@.len() && size_view(d.weights@) == merge(
            all_sample_sizes(hg@, draws@),
        ),
        r matches Some(d) ==> forall|i: int| 0 <= i < d.weights@.len() ==> #[trigger] d.weights@[i].1 > 0,
        draws@.len() == 0 ==> (r matches Some(d) && d.weights@.len() == 0),
{
    let ghost g = hg@;
    proof {
        hg.lemma_view_nonneg();
    }
    let mut acc: Vec<(usize, u64)> = Vec::new();
    let mut i: usize = 0;
    assert(draws@.subrange(0, 0) =~= Seq::<u64>::empty());
    assert(size_view(acc@) =~= merge(all_sample_sizes(g, draws@.subrange(0, 0))));
    while i < draws.len()
        invariant
            hg.wf(),
            g == hg@,
            graph_nonneg(g),
            i <= draws@.len(),
            forall|j: int| 0 <= j < i ==> sample_fits(g, #[trigger] draws@[j]),
            size_view(acc@) == merge(all_sample_sizes(g, draws@.subrange(0, i as int))),
        decreases draws.len() - i,
    {
        let draw = draws[i];
        let ghost prev = all_sample_sizes(g, draws@.subrange(0, i as int));
        proof {
            assert(draws@.subrange(0, i + 1).drop_last() =~= draws@.subrange(0, i as int));
            assert(all_sample_sizes(g, draws@.subrange(0, i + 1)) == prev + sample_sizes(g, draw));
        }
        match hg.random_basis(draw) {
            None => {
                assert(prev + sample_sizes(g, draw) =~= prev);
            },
            Some(b) => {
                let start = SparseVector::singleton(b, 1);
                assert(start@ == start_vec(g, draw));
                let end = match hg.map_vec(&start) {
                    Some(e) => e,
                    None => {
                        assert(!sample_fits(g, draws@[i as int]));
                        return None;
                    },
                };
                let card = match end.cardinality() {
                    Some(c) => c,
                    None => {
                        assert(!sample_fits(g, draws@[i as int]));
                        return None;
                    },
                };
                let ghost sc = size_view(card@);
                assert(sc == sample_sizes(g, draw));
                let mut t: usize = 0;
                assert(prev + sc.subrange(0, 0) =~= prev);
                while t < card.len()
                    invariant
                        hg.wf(),
                        g == hg@,
                        graph_nonneg(g),
                        i < draws@.len(),
                        draw == draws@[i as int],
                        forall|j: int| 0 <= j <= i ==> sample_fits(g, #[trigger] draws@[j]),
                        prev == all_sample_sizes(g, draws@.subrange(0, i as int)),
                        sc == size_view(card@),
                        sc == sample_sizes(g, draw),
                        all_sample_sizes(g, draws@.subrange(0, i + 1)) == prev + sc,
                        t <= card@.len(),
                        size_view(acc@) == merge(prev + sc.subrange(0, t as int)),
                    decreases card.len() - t,
                {
                    let key = card[t].0;
                    let x = card[t].1;
                    let ghost cur = prev + sc.subrange(0, t as int);
                    proof {
                        assert(sc[t as int] == (key as int, x as int));
                        assert(prev + sc.subrange(0, t + 1) =~= cur.push((key as int, x as int)));
                        assert(cur.push((key as int, x as int)).drop_last() =~= cur);
                    }
                    if !add_size_weight(&mut acc, key, x) {
                        proof {
                            let m = merge(cur);
                            lemma_merge(cur, key as int);
                            lemma_weight_unique(m, key as int);
                            let nx = prev + sc.subrange(0, t + 1);
                            assert(weight_of(nx, key as int) > u64::MAX);
                            let full = prev + sc;
                            lemma_sample_nonneg(g, draw);
                            assert(nx =~= full.subrange(0, prev.len() + t + 1));
                            assert(nonneg(full)) by {
                                assert forall|u: int| 0 <= u < full.len() implies #[trigger] full[u].1 >= 0 by {
                                    if u >= prev.len() {
                                        assert(full[u] == sc[u - prev.len()]);
                                    } else {
                                        lemma_all_nonneg(g, draws@.subrange(0, i as int));
                                        assert(full[u] == prev[u]);
                                    }
                                }
                            }
                            lemma_prefix_weight(full, prev.len() + t + 1, key as int);
                            lemma_all_samples_mono(g, draws@, i + 1, key as int);
                            assert(weight_of(all_sample_sizes(g, draws@), key as int) > u64::MAX);
                        }
                        return None;
                    }
                    t = t + 1;
                }
                assert(sc.subrange(0, t as int) =~= sc);
            },
        }
        i = i + 1;
    }
    proof {
        assert(draws@.subrange(0, i as int) =~= draws@);
        let all = all_sample_sizes(g, draws@);
        assert forall|key: int| #[trigger] weight_of(all, key) <= u64::MAX by {
            let m = merge(all);
            lemma_merge(all, key);
            lemma_weight_unique(m, key);
            lemma_key_index(m, key);
            if key_index(m, key) >= 0 {
                assert(m[key_index(m, key)].1 == acc@[key_index(m, key)].1 as int);
            }
        }
    }
    proof {
        lemma_all_nonneg(g, draws@);
        lemma_merge_positive(all_sample_sizes(g, draws@));
        assert forall|t: int| 0 <= t < acc@.len() implies #[trigger] acc@[t].1 > 0 by {
            assert(size_view(acc@)[t].1 == acc@[t].1 as int);
        }
    }
    Some(CardinalityEstimate { weights: acc, num_samples: draws.len() })
}

proof fn lemma_all_nonneg(g: GraphView, draws: Seq<u64>)
    requires
        graph_nonneg(g),
    ensures
        nonneg(all_sample_sizes(g, draws)),
        positive(all_sample_sizes(g, draws)),
    decreases draws.len(),
{
    if draws.len() > 0 {
        lemma_all_nonneg(g, draws.drop_last());
        lemma_sample_nonneg(g, draws.last());
        let a = all_sample_sizes(g, draws.drop_last());
        let b = sample_sizes(g, draws.last());
        assert forall|u: int| 0 <= u < (a + b).len() implies #[trigger] (a + b)[u].1 > 0 by {
            if u >= a.len() {
                assert((a + b)[u] == b[u - a.len()]);
            }
        }
    }
}

/// Summed size times weight over the entries.
pub open spec fn size_moment(s: Seq<(int, int)>) -> int
    decreases s.len(),
{
    if s.len() == 0 {
        0
    } else {
        size_moment(s.drop_last()) + s.last().0 * s.last().1
    }
}

proof fn lemma_moment_prefix(s: Seq<(usize, u64)>, i: int)
    requires
        0 <= i <= s.len(),
    ensures
        size_moment(size_view(s.subrange(0, i))) <= size_moment(size_view(s)),
    decreases s.len() - i,
{
    if i < s.len() {
        lemma_moment_prefix(s, i + 1);
        assert(size_view(s.subrange(0, i + 1)).drop_last() =~= size_view(s.subrange(0, i)));
        let k = s[i].0 as int;
        let w = s[i].1 as int;
        assert(size_view(s.subrange(0, i + 1)).last() == (k, w));
        assert(k * w >= 0) by (nonlinear_arith)
            requires
                k >= 0,
                w >= 0,
        ;
    } else {
        assert(s.subrange(0, i) =~= s);
    }
}

/// The summed size times weight of a size distribution. For weights that
/// are probabilities this is the expected size; for an estimate's weights it
/// is the expected size times the number of samples. The weights are not
/// checked to form a distribution. `None` exactly when the sum exceeds
/// `u128::MAX`.
pub fn expected_cardinality(card: &Vec<(usize, u64)>) -> (r: Option<u128>)
    ensures
        r is Some <==> size_moment(size_view(card@)) <= u128::MAX,
        r matches Some(x) ==> x == size_moment(size_view(card@)),
{
    let mut tot: u128 = 0;
    let mut i: usize = 0;
    assert(size_view(card@.subrange(0, 0)) =~= Seq::<(int, int)>::empty());
    while i < card.len()
        invariant
            i <= card@.len(),
            tot == size_moment(size_view(card@.subrange(0, i as int))),
        decreases card.len() - i,
    {
        let k = card[i].0;
        let w = card[i].1;
        assert((k as int) * (w as int) <= u128::MAX) by (nonlinear_arith)
            requires
                k <= u64::MAX,
                w <= u64::MAX,
        ;
        let term = (k as u128) * (w as u128);
        proof {
            assert(size_view(card@.subrange(0, i + 1)).drop_last() =~= size_view(card@.subrange(0, i as int)));
            assert(size_view(card@.subrange(0, i + 1)).last() == (k as int, w as int));
        }
        match tot.checked_add(term) {
            Some(next) => {
                tot = next;
            },
            None => {
                proof {
                    lemma_moment_prefix(card@, i + 1);
                }
                return None;
            },
        }
        i = i + 1;
    }
    proof {
        assert(card@.subrange(0, i as int) =~= card@);
    }
    Some(tot)
}

} // verus!
