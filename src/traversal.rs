use vstd::prelude::*;
use std::collections::VecDeque;
use crate::basis::SparseBasis;
use crate::weights::{fits_u64, merge, scaled};
use crate::graph::{
    SparseVector, SparseGraph, GeneroGraph, GraphView, image, apply_vec, outbound, edges_view,
};

verus! {

/// The state reached after applying `g` to `v` `n` times.
pub open spec fn walk_spec(g: GraphView, v: Seq<(Seq<u32>, int)>, n: nat) -> Seq<(Seq<u32>, int)>
    decreases n,
{
    if n == 0 {
        v
    } else {
        merge(apply_vec(g, walk_spec(g, v, (n - 1) as nat)))
    }
}

/// Applies `walk_operator` to `start` `num_steps` times. `None` exactly when
/// some step produces a weight that does not fit in a `u64`.
pub fn walk(start: SparseVector, walk_operator: &SparseGraph, num_steps: usize) -> (r: Option<
    SparseVector,
>)
    requires
        start.wf(),
        walk_operator.wf(),
    ensures
        r matches Some(o) ==> o.wf() && o@ == walk_spec(walk_operator@, start@, num_steps as nat),
        r is None <==> exists|t: nat|
            t < num_steps && !fits_u64(
                apply_vec(walk_operator@, #[trigger] walk_spec(walk_operator@, start@, t)),
            ),
{
    let ghost g = walk_operator@;
    let ghost v0 = start@;
    let mut ret = start.duplicate();
    let mut i: usize = 0;
    while i < num_steps
        invariant
            walk_operator.wf(),
            g == walk_operator@,
            v0 == start@,
            start.wf(),
            i <= num_steps,
            ret.wf(),
            ret@ == walk_spec(g, v0, i as nat),
            forall|t: nat| t < i ==> fits_u64(apply_vec(g, #[trigger] walk_spec(g, v0, t))),
        decreases num_steps - i,
    {
        match walk_operator.map_vec(&ret) {
            Some(next) => {
                ret = next;
                i = i + 1;
            },
            None => {
                assert(!fits_u64(apply_vec(g, walk_spec(g, v0, i as nat))));
                assert(exists|t: nat|
                    t < num_steps && !fits_u64(
                        apply_vec(walk_operator@, #[trigger] walk_spec(walk_operator@, start@, t)),
                    ));
                return None;
            },
        }
    }
    Some(ret)
}

/// A path through bases, from its start basis onward.
#[derive(Clone, Debug)]
pub struct HgPath {
    pub bases: Vec<SparseBasis>,
}

/// The bases reachable in one step from `b`, one per outbound entry, in graph order.
pub open spec fn successors(g: GraphView, b: Seq<u32>) -> Seq<Seq<u32>> {
    image(g, b, 1).map_values(|e: (Seq<u32>, int)| e.0)
}

/// Each basis of `p` after the first is a successor of the one before.
pub open spec fn is_walk(g: GraphView, p: Seq<Seq<u32>>) -> bool {
    forall|i: int| 0 <= i < p.len() - 1 ==> successors(g, p[i]).contains(#[trigger] p[i + 1])
}

/// Number of outbound entries in the whole graph.
pub open spec fn out_count(g: GraphView) -> nat
    decreases g.len(),
{
    if g.len() == 0 {
        0
    } else {
        out_count(g.drop_last()) + g.last().1.len()
    }
}

proof fn lemma_successors_len(g: GraphView, b: Seq<u32>)
    ensures
        image(g, b, 1).len() <= out_count(g),
    decreases g.len(),
{
    if g.len() > 0 {
        lemma_successors_len(g.drop_last(), b);
    }
}

impl HgPath {
    pub open spec fn view(&self) -> Seq<Seq<u32>> {
        self.bases@.map_values(|b: SparseBasis| b@)
    }

    pub open spec fn wf(&self) -> bool {
        &&& self.bases@.len() >= 1
        &&& forall|i: int| 0 <= i < self.bases@.len() ==> (#[trigger] self.bases@[i]).wf()
    }

    /// The path holding `start` alone.
    pub fn new(start: SparseBasis) -> (r: HgPath)
        requires
            start.wf(),
        ensures
            r.wf(),
            r@ == seq![start@],
    {
        let mut bases: Vec<SparseBasis> = Vec::new();
        bases.push(start);
        let r = HgPath { bases };
        assert(r@ =~= seq![start@]);
        r
    }

    /// A copy of the path.
    pub fn duplicate(&self) -> (r: HgPath)
        ensures
            r@ == self@,
            r.bases@.len() == self.bases@.len(),
            forall|i: int| 0 <= i < r.bases@.len() ==> (#[trigger] r.bases@[i]).nodes@ == self.bases@[i].nodes@,
    {
        let mut bases: Vec<SparseBasis> = Vec::new();
        let mut i: usize = 0;
        while i < self.bases.len()
            invariant
                i <= self.bases@.len(),
                bases@.len() == i,
                forall|k: int| 0 <= k < i ==> (#[trigger] bases@[k]).nodes@ == self.bases@[k].nodes@,
            decreases self.bases.len() - i,
        {
            bases.push(self.bases[i].duplicate());
            i = i + 1;
        }
        let r = HgPath { bases };
        assert(r@ =~= self@);
        r
    }

    /// Number of bases visited; the start counts.
    pub fn len(&self) -> (r: usize)
        ensures
            r == self@.len(),
    {
        self.bases.len()
    }

    /// The basis the path ends at.
    pub fn last_basis(&self) -> (r: SparseBasis)
        requires
            self.wf(),
        ensures
            r.wf(),
            r@ == self@.last(),
    {
        let n = self.bases.len();
        assert(self.bases@[n - 1].wf());
        self.bases[n - 1].duplicate()
    }

    /// One child per outbound entry of the last basis: this path with that
    /// entry's basis appended.
    pub fn extend(&self, graph: &GeneroGraph) -> (r: Vec<HgPath>)
        requires
            self.wf(),
            graph.wf(),
        ensures
            r@.len() == successors(graph@, self@.last()).len(),
            forall|t: int|
                0 <= t < r@.len() ==> (#[trigger] r@[t]).wf() && r@[t]@ == self@.push(
                    successors(graph@, self@.last())[t],
                ),
    {
        let ghost g = graph@;
        let last = self.last_basis();
        let ghost succ = successors(g, last@);
        let mut r: Vec<HgPath> = Vec::new();
        let mut j: usize = 0;
        assert(g.subrange(0, 0) =~= GraphView::empty());
        while j < graph.edges.len()
            invariant
                self.wf(),
                graph.wf(),
                last.wf(),
                last@ == self@.last(),
                g == graph@,
                j <= g.len(),
                r@.len() == image(g.subrange(0, j as int), last@, 1).len(),
                forall|t: int|
                    0 <= t < r@.len() ==> (#[trigger] r@[t]).wf() && r@[t]@ == self@.push(
                        image(g.subrange(0, j as int), last@, 1)[t].0,
                    ),
            decreases graph.edges.len() - j,
        {
            let ghost before = image(g.subrange(0, j as int), last@, 1);
            proof {
                assert(g.subrange(0, j + 1).drop_last() =~= g.subrange(0, j as int));
                assert(g[j as int] == (graph.edges@[j as int].0@, graph.edges@[j as int].1@));
                assert(graph.edges@[j as int].0.wf() && graph.edges@[j as int].1.wf());
            }
            if graph.edges[j].0.same_as(&last) {
                let o = &graph.edges[j].1;
                let ghost after = before + scaled(1, o@);
                assert(image(g.subrange(0, j + 1), last@, 1) == after);
                let mut t: usize = 0;
                while t < o.entries.len()
                    invariant
                        self.wf(),
                        o.wf(),
                        t <= o@.len(),
                        after == before + scaled(1, o@),
                        r@.len() == before.len() + t,
                        forall|u: int|
                            0 <= u < r@.len() ==> (#[trigger] r@[u]).wf() && r@[u]@ == self@.push(
                                after[u].0,
                            ),
                    decreases o.entries.len() - t,
                {
                    let ghost rb = r@;
                    let mut child = self.duplicate();
                    assert(o.entries@[t as int].0.wf());
                    child.bases.push(o.entries[t].0.duplicate());
                    proof {
                        assert(after[before.len() + t] == scaled(1, o@)[t as int]);
                        assert(o@[t as int].0 == o.entries@[t as int].0@);
                        assert(child@ =~= self@.push(after[before.len() + t].0));
                        assert forall|i: int| 0 <= i < child.bases@.len() implies (#[trigger] child.bases@[i]).wf() by {
                            if i < self.bases@.len() {
                                assert(child@[i] == self@[i]);
                            }
                        }
                    }
                    r.push(child);
                    proof {
                        assert forall|u: int| 0 <= u < r@.len() implies (#[trigger] r@[u]).wf() && r@[u]@ == self@.push(
                            after[u].0,
                        ) by {
                            if u < rb.len() {
                                assert(r@[u] == rb[u]);
                            }
                        }
                    }
                    t = t + 1;
                }
            } else {
                assert(image(g.subrange(0, j + 1), last@, 1) =~= before);
            }
            j = j + 1;
        }
        assert(g.subrange(0, j as int) =~= g);
        r
    }
}

/// `b` raised to `e`.
pub open spec fn power(b: nat, e: nat) -> nat
    decreases e,
{
    if e == 0 {
        1
    } else {
        b * power(b, (e - 1) as nat)
    }
}

/// Steps still to take on a path of `len` bases, towards `steps`.
pub open spec fn remaining_steps(len: nat, steps: nat) -> nat {
    if len < steps {
        (steps - len) as nat
    } else {
        0
    }
}

/// A bound on the work left in a frontier: each path counts `base` to the
/// power of its remaining steps, where `base` exceeds any number of children.
pub open spec fn frontier_measure(f: Seq<HgPath>, steps: nat, base: nat) -> nat
    decreases f.len(),
{
    if f.len() == 0 {
        0
    } else {
        frontier_measure(f.drop_last(), steps, base) + power(
            base,
            remaining_steps(f.last()@.len(), steps),
        )
    }
}

proof fn lemma_measure_append(a: Seq<HgPath>, b: Seq<HgPath>, steps: nat, base: nat)
    ensures
        frontier_measure(a + b, steps, base) == frontier_measure(a, steps, base) + frontier_measure(
            b,
            steps,
            base,
        ),
    decreases b.len(),
{
    if b.len() == 0 {
        assert(a + b =~= a);
    } else {
        assert((a + b).drop_last() =~= a + b.drop_last());
        lemma_measure_append(a, b.drop_last(), steps, base);
    }
}

proof fn lemma_power_step(base: nat, e: nat, k: nat)
    requires
        e >= 1,
        k < base,
    ensures
        k * power(base, (e - 1) as nat) < power(base, e),
        power(base, (e - 1) as nat) >= 1,
    decreases e,
{
    if e > 1 {
        lemma_power_step(base, (e - 1) as nat, 0);
    }
    let p = power(base, (e - 1) as nat);
    assert(p >= 1);
    assert(k * p < base * p) by (nonlinear_arith)
        requires
            k < base,
            p >= 1,
    ;
}

/// Whether some basis of `seen` equals `b`.
fn seen_basis(seen: &Vec<SparseBasis>, b: &SparseBasis) -> (r: bool)
    ensures
        r == exists|i: int| 0 <= i < seen@.len() && (#[trigger] seen@[i])@ == b@,
{
    let mut i: usize = 0;
    while i < seen.len()
        invariant
            i <= seen@.len(),
            forall|k: int| 0 <= k < i ==> (#[trigger] seen@[k])@ != b@,
        decreases seen.len() - i,
    {
        if seen[i].same_as(b) {
            return true;
        }
        i = i + 1;
    }
    false
}

/// A path found by search: it starts at `start`, follows the graph, and has
/// `steps` bases.
pub open spec fn completed_path(g: GraphView, start: Seq<u32>, steps: nat, p: HgPath) -> bool {
    &&& p.wf()
    &&& p@.len() == steps
    &&& p@[0] == start
    &&& is_walk(g, p@)
}

/// The paths of a frontier or result, as sequences of bases.
pub open spec fn paths_view(s: Seq<HgPath>) -> Seq<Seq<Seq<u32>>> {
    s.map_values(|p: HgPath| p@)
}

/// The bases of a visited list.
pub open spec fn bases_view(s: Seq<SparseBasis>) -> Seq<Seq<u32>> {
    s.map_values(|b: SparseBasis| b@)
}

/// Files the children of an expanded path, in order: a child shorter than
/// `steps` whose last basis is not visited joins the frontier (at the front
/// breadth first, at the back depth first); a child of exactly `steps` bases
/// is completed; any other is dropped.
pub open spec fn file_children(
    steps: nat,
    breadth_first: bool,
    visited: Seq<Seq<u32>>,
    frontier: Seq<Seq<Seq<u32>>>,
    completed: Seq<Seq<Seq<u32>>>,
    children: Seq<Seq<Seq<u32>>>,
) -> (Seq<Seq<Seq<u32>>>, Seq<Seq<Seq<u32>>>)
    decreases children.len(),
{
    if children.len() == 0 {
        (frontier, completed)
    } else {
        let fc = file_children(steps, breadth_first, visited, frontier, completed, children.drop_last());
        let p = children.last();
        if p.len() < steps && !visited.contains(p.last()) {
            if breadth_first {
                (seq![p] + fc.0, fc.1)
            } else {
                (fc.0.push(p), fc.1)
            }
        } else if p.len() == steps {
            (fc.0, fc.1.push(p))
        } else {
            fc
        }
    }
}

/// One step of the search on (frontier, visited, completed): the path at the
/// back of the frontier is taken out, its last basis is marked visited, and
/// its children are filed.
pub open spec fn search_step(
    g: GraphView,
    steps: nat,
    breadth_first: bool,
    st: (Seq<Seq<Seq<u32>>>, Seq<Seq<u32>>, Seq<Seq<Seq<u32>>>),
) -> (Seq<Seq<Seq<u32>>>, Seq<Seq<u32>>, Seq<Seq<Seq<u32>>>) {
    let cur = st.0.last();
    let visited = if st.1.contains(cur.last()) {
        st.1
    } else {
        st.1.push(cur.last())
    };
    let children = successors(g, cur.last()).map_values(|b: Seq<u32>| cur.push(b));
    let fc = file_children(steps, breadth_first, visited, st.0.drop_last(), st.2, children);
    (fc.0, visited, fc.1)
}

/// The completed paths once the frontier is empty, taking at most `fuel` steps.
pub open spec fn search_run(
    g: GraphView,
    steps: nat,
    breadth_first: bool,
    st: (Seq<Seq<Seq<u32>>>, Seq<Seq<u32>>, Seq<Seq<Seq<u32>>>),
    fuel: nat,
) -> Seq<Seq<Seq<u32>>>
    decreases fuel,
{
    if st.0.len() == 0 || fuel == 0 {
        st.2
    } else {
        search_run(g, steps, breadth_first, search_step(g, steps, breadth_first, st), (fuel - 1) as nat)
    }
}

/// The paths a search from `start` completes, in order. The fuel bounds the
/// number of steps: each step lowers `frontier_measure`, which starts there.
pub open spec fn search_spec(g: GraphView, start: Seq<u32>, steps: nat, breadth_first: bool) -> Seq<
    Seq<Seq<u32>>,
> {
    search_run(
        g,
        steps,
        breadth_first,
        (seq![seq![start]], Seq::empty(), Seq::empty()),
        power(out_count(g) + 1, remaining_steps(1, steps)),
    )
}

proof fn lemma_power_pos(b: nat, e: nat)
    requires
        b >= 1,
    ensures
        power(b, e) >= 1,
    decreases e,
{
    if e > 0 {
        lemma_power_pos(b, (e - 1) as nat);
        let p = power(b, (e - 1) as nat);
        assert(b * p >= 1) by (nonlinear_arith)
            requires
                b >= 1,
                p >= 1,
        ;
    }
}

/// Path search from `start`: a path is extended from the back of the
/// frontier; a child is kept in the frontier while it is shorter than `steps`
/// and its last basis has not been the end of an extended path, and is
/// completed when it has exactly `steps` bases. New frontier paths go to the
/// front (breadth first) or to the back (depth first).
fn search(graph: &GeneroGraph, start: &SparseBasis, steps: usize, breadth_first: bool) -> (r: Vec<
    HgPath,
>)
    requires
        graph.wf(),
        start.wf(),
    ensures
        paths_view(r@) == search_spec(graph@, start@, steps as nat, breadth_first),
        forall|i: int|
            0 <= i < r@.len() ==> completed_path(graph@, start@, steps as nat, #[trigger] r@[i]),
        steps <= 1 ==> r@.len() == 0,
        steps == 2 ==> r@.len() == successors(graph@, start@).len() && forall|u: int|
            0 <= u < r@.len() ==> (#[trigger] r@[u])@ == seq![start@, successors(graph@, start@)[u]],
{
    let ghost g = graph@;
    let ghost base: nat = out_count(g) + 1;
    let mut visited: Vec<SparseBasis> = Vec::new();
    let mut frontier: VecDeque<HgPath> = VecDeque::new();
    frontier.push_back(HgPath::new(start.duplicate()));
    let mut completed: Vec<HgPath> = Vec::new();
    let ghost mut fuel: nat = power(base, remaining_steps(1, steps as nat));
    proof {
        assert(frontier@.drop_last() =~= Seq::<HgPath>::empty());
        assert(frontier@.len() == 1);
        assert(frontier@.last()@ == seq![start@]);
        assert(frontier_measure(Seq::<HgPath>::empty(), steps as nat, base) == 0);
        assert(frontier_measure(frontier@, steps as nat, base) == fuel);
        assert(paths_view(frontier@) =~= seq![seq![start@]]);
        assert(bases_view(visited@) =~= Seq::<Seq<u32>>::empty());
        assert(paths_view(completed@) =~= Seq::<Seq<Seq<u32>>>::empty());
    }
    while frontier.len() > 0
        invariant
            frontier_measure(frontier@, steps as nat, base) <= fuel,
            search_spec(g, start@, steps as nat, breadth_first) == search_run(
                g,
                steps as nat,
                breadth_first,
                (paths_view(frontier@), bases_view(visited@), paths_view(completed@)),
                fuel,
            ),
            graph.wf(),
            start.wf(),
            g == graph@,
            base == out_count(g) + 1,
            forall|i: int|
                0 <= i < frontier@.len() ==> {
                    let p = #[trigger] frontier@[i];
                    &&& p.wf()
                    &&& p@[0] == start@
                    &&& is_walk(g, p@)
                    &&& (p@.len() < steps || p@.len() == 1)
                },
            forall|i: int|
                0 <= i < completed@.len() ==> completed_path(g, start@, steps as nat, #[trigger] completed@[i]),
            forall|i: int| 0 <= i < completed@.len() ==> (#[trigger] completed@[i])@.len() >= 2,
            steps == 2 && frontier@.len() > 0 ==> frontier@.len() == 1 && frontier@[0]@ == seq![start@]
                && completed@.len() == 0,
            steps == 2 && frontier@.len() == 0 ==> completed@.len() == successors(g, start@).len()
                && forall|u: int|
                0 <= u < completed@.len() ==> (#[trigger] completed@[u])@ == seq![
                    start@,
                    successors(g, start@)[u],
                ],
        decreases frontier_measure(frontier@, steps as nat, base),
    {
        let ghost f0 = frontier@;
        let ghost st0 = (paths_view(frontier@), bases_view(visited@), paths_view(completed@));
        let cur = match frontier.pop_back() {
            Some(p) => p,
            None => vstd::pervasive::unreached(),
        };
        let ghost m_pop = frontier_measure(frontier@, steps as nat, base);
        let ghost e = remaining_steps(cur@.len(), steps as nat);
        let ghost child_w: nat = if e >= 1 { power(base, (e - 1) as nat) } else { 0 };
        proof {
            assert(f0.drop_last() =~= frontier@);
            assert(cur == f0[f0.len() - 1]);
            assert(frontier_measure(f0, steps as nat, base) == m_pop + power(base, e));
            if steps == 2 {
                assert(cur@ == seq![start@]);
            }
        }
        let last = cur.last_basis();
        let ghost vis = if st0.1.contains(cur@.last()) {
            st0.1
        } else {
            st0.1.push(cur@.last())
        };
        let ghost vb = visited@;
        let seen = seen_basis(&visited, &last);
        proof {
            if st0.1.contains(cur@.last()) {
                let i = choose|i: int| 0 <= i < st0.1.len() && #[trigger] st0.1[i] == cur@.last();
                assert(visited@[i]@ == last@);
            }
            if seen {
                let i = choose|i: int| 0 <= i < visited@.len() && (#[trigger] visited@[i])@ == last@;
                assert(st0.1[i] == cur@.last());
            }
        }
        if !seen {
            visited.push(last);
            assert(bases_view(visited@) =~= bases_view(vb).push(cur@.last()));
        }
        let new_paths = cur.extend(graph);
        let ghost children = successors(g, cur@.last()).map_values(|b: Seq<u32>| cur@.push(b));
        let ghost rest = paths_view(frontier@);
        proof {
            lemma_successors_len(g, cur@.last());
            assert(st0.0 =~= paths_view(f0));
            assert(rest =~= st0.0.drop_last());
            assert(st0.0.last() == cur@);
            assert(children.subrange(0, 0) =~= Seq::<Seq<Seq<u32>>>::empty());
        }
        let mut t: usize = 0;
        while t < new_paths.len()
            invariant
                graph.wf(),
                start.wf(),
                g == graph@,
                base == out_count(g) + 1,
                cur.wf(),
                cur@[0] == start@,
                is_walk(g, cur@),
                e == remaining_steps(cur@.len(), steps as nat),
                child_w == if e >= 1 { power(base, (e - 1) as nat) } else { 0 },
                t <= new_paths@.len(),
                new_paths@.len() == successors(g, cur@.last()).len(),
                new_paths@.len() < base,
                forall|u: int|
                    0 <= u < new_paths@.len() ==> (#[trigger] new_paths@[u]).wf() && new_paths@[u]@
                        == cur@.push(successors(g, cur@.last())[u]),
                frontier_measure(frontier@, steps as nat, base) <= m_pop + t * child_w,
                bases_view(visited@) == vis,
                children == successors(g, cur@.last()).map_values(|b: Seq<u32>| cur@.push(b)),
                (paths_view(frontier@), paths_view(completed@)) == file_children(
                    steps as nat,
                    breadth_first,
                    vis,
                    rest,
                    st0.2,
                    children.subrange(0, t as int),
                ),
                forall|i: int|
                    0 <= i < frontier@.len() ==> {
                        let p = #[trigger] frontier@[i];
                        &&& p.wf()
                        &&& p@[0] == start@
                        &&& is_walk(g, p@)
                        &&& (p@.len() < steps || p@.len() == 1)
                    },
                forall|i: int|
                    0 <= i < completed@.len() ==> completed_path(g, start@, steps as nat, #[trigger] completed@[i]),
                forall|i: int| 0 <= i < completed@.len() ==> (#[trigger] completed@[i])@.len() >= 2,
                steps == 2 ==> frontier@.len() == 0 && cur@ == seq![start@] && completed@.len() == t
                    && forall|u: int|
                    0 <= u < t ==> (#[trigger] completed@[u])@ == seq![
                        start@,
                        successors(g, start@)[u],
                    ],
            decreases new_paths.len() - t,
        {
            let path = new_paths[t].duplicate();
            let ghost s = successors(g, cur@.last())[t as int];
            proof {
                assert(new_paths@[t as int].wf());
                assert(path.wf()) by {
                    assert forall|i: int| 0 <= i < path.bases@.len() implies (#[trigger] path.bases@[i]).wf() by {
                        assert(path.bases@[i].nodes@ == new_paths@[t as int].bases@[i].nodes@);
                        assert(new_paths@[t as int].bases@[i].wf());
                    }
                }
                assert(path@ == cur@.push(s));
                assert(successors(g, cur@.last()).contains(s));
                assert(path@[0] == start@);
                assert forall|i: int| 0 <= i < path@.len() - 1 implies successors(g, path@[i]).contains(
                    #[trigger] path@[i + 1],
                ) by {
                    if i < cur@.len() - 1 {
                        assert(path@[i] == cur@[i]);
                        assert(path@[i + 1] == cur@[i + 1]);
                    } else {
                        assert(path@[i] == cur@.last());
                        assert(path@[i + 1] == s);
                    }
                }
                assert(is_walk(g, path@));
            }
            let plen = path.len();
            let ghost fc0 = (paths_view(frontier@), paths_view(completed@));
            proof {
                assert(children[t as int] == path@);
                assert(children.subrange(0, t + 1).drop_last() =~= children.subrange(0, t as int));
                assert(children.subrange(0, t + 1).last() == path@);
            }
            let pl = path.last_basis();
            let fresh = plen < steps && !seen_basis(&visited, &pl);
            proof {
                if plen < steps {
                    if vis.contains(path@.last()) {
                        let i = choose|i: int| 0 <= i < vis.len() && #[trigger] vis[i] == path@.last();
                        assert(visited@[i]@ == pl@);
                    }
                    if !fresh {
                        let i = choose|i: int| 0 <= i < visited@.len() && (#[trigger] visited@[i])@ == pl@;
                        assert(vis[i] == path@.last());
                    }
                }
            }
            if fresh {
                let ghost fb = frontier@;
                proof {
                    assert(e >= 1);
                    assert(remaining_steps(path@.len(), steps as nat) == e - 1);
                    assert(t * child_w + child_w == (t + 1) * child_w) by (nonlinear_arith);
                }
                if breadth_first {
                    frontier.push_front(path);
                    proof {
                        assert(paths_view(frontier@) =~= seq![path@] + paths_view(fb));
                        let x = frontier@[0];
                        assert(frontier@ =~= seq![x] + fb);
                        lemma_measure_append(seq![x], fb, steps as nat, base);
                        assert(seq![x].drop_last() =~= Seq::<HgPath>::empty());
                        assert(frontier_measure(Seq::<HgPath>::empty(), steps as nat, base) == 0);
                        assert(frontier_measure(seq![x], steps as nat, base) == child_w);
                        assert(frontier_measure(frontier@, steps as nat, base) == frontier_measure(fb, steps as nat, base) + child_w);
                        assert forall|i: int| 0 <= i < frontier@.len() implies {
                            let p = #[trigger] frontier@[i];
                            &&& p.wf()
                            &&& p@[0] == start@
                            &&& is_walk(g, p@)
                            &&& (p@.len() < steps || p@.len() == 1)
                        } by {
                            if i > 0 {
                                assert(frontier@[i] == fb[i - 1]);
                            }
                        }
                    }
                } else {
                    frontier.push_back(path);
                    proof {
                        assert(paths_view(frontier@) =~= paths_view(fb).push(path@));
                        assert(frontier@.drop_last() =~= fb);
                        assert(frontier_measure(frontier@, steps as nat, base) == frontier_measure(fb, steps as nat, base) + child_w);
                        assert forall|i: int| 0 <= i < frontier@.len() implies {
                            let p = #[trigger] frontier@[i];
                            &&& p.wf()
                            &&& p@[0] == start@
                            &&& is_walk(g, p@)
                            &&& (p@.len() < steps || p@.len() == 1)
                        } by {
                            if i < fb.len() {
                                assert(frontier@[i] == fb[i]);
                            }
                        }
                    }
                }
            } else if plen == steps {
                let ghost cb = completed@;
                completed.push(path);
                proof {
                    assert(paths_view(completed@) =~= paths_view(cb).push(path@));
                    if steps == 2 {
                        assert(cur@.push(s) =~= seq![start@, successors(g, start@)[t as int]]);
                        assert forall|u: int| 0 <= u < t + 1 implies (#[trigger] completed@[u])@ == seq![
                            start@,
                            successors(g, start@)[u],
                        ] by {
                            if u < t {
                                assert(completed@[u] == cb[u]);
                            }
                        }
                    }
                    assert forall|i: int| 0 <= i < completed@.len() implies (#[trigger] completed@[i])@.len() >= 2 by {
                        if i < cb.len() {
                            assert(completed@[i] == cb[i]);
                        }
                    }
                    assert forall|i: int| 0 <= i < completed@.len() implies completed_path(
                        g,
                        start@,
                        steps as nat,
                        #[trigger] completed@[i],
                    ) by {
                        if i < cb.len() {
                            assert(completed@[i] == cb[i]);
                        }
                    }
                }
            }
            proof {
                assert(t * child_w <= (t + 1) * child_w) by (nonlinear_arith);
            }
            t = t + 1;
        }
        proof {
            if e >= 1 {
                lemma_power_step(base, e, t as nat);
            }
            assert(children.subrange(0, t as int) =~= children);
            lemma_power_pos(base, e);
            assert(search_step(g, steps as nat, breadth_first, st0) == (
                paths_view(frontier@),
                bases_view(visited@),
                paths_view(completed@),
            ));
            fuel = (fuel - 1) as nat;
        }
    }
    proof {
        assert(paths_view(frontier@).len() == 0);
        if steps <= 1 && completed@.len() > 0 {
            assert(completed_path(g, start@, steps as nat, completed@[0]));
            assert(completed@[0]@.len() >= 2);
        }
    }
    completed
}

/// Breadth-first search for the paths of `steps` bases from `start`.
pub fn bfs_base(graph: &GeneroGraph, start: &SparseBasis, steps: usize) -> (r: Vec<HgPath>)
    requires
        graph.wf(),
        start.wf(),
    ensures
        paths_view(r@) == search_spec(graph@, start@, steps as nat, true),
        forall|i: int|
            0 <= i < r@.len() ==> completed_path(graph@, start@, steps as nat, #[trigger] r@[i]),
        steps <= 1 ==> r@.len() == 0,
        steps == 2 ==> r@.len() == successors(graph@, start@).len() && forall|u: int|
            0 <= u < r@.len() ==> (#[trigger] r@[u])@ == seq![start@, successors(graph@, start@)[u]],
{
    search(graph, start, steps, true)
}

/// Depth-first search for the paths of `steps` bases from `start`.
pub fn dfs_base(graph: &GeneroGraph, start: &SparseBasis, steps: usize) -> (r: Vec<HgPath>)
    requires
        graph.wf(),
        start.wf(),
    ensures
        paths_view(r@) == search_spec(graph@, start@, steps as nat, false),
        forall|i: int|
            0 <= i < r@.len() ==> completed_path(graph@, start@, steps as nat, #[trigger] r@[i]),
        steps <= 1 ==> r@.len() == 0,
        steps == 2 ==> r@.len() == successors(graph@, start@).len() && forall|u: int|
            0 <= u < r@.len() ==> (#[trigger] r@[u])@ == seq![start@, successors(graph@, start@)[u]],
{
    search(graph, start, steps, false)
}

/// A graph for random walks over `_graph`; no edges yet.
pub fn compute_probabilistic_walk_graph(_graph: &SparseGraph) -> (r: SparseGraph)
    ensures
        r.wf(),
        r@.len() == 0,
{
    SparseGraph::new()
}

/// Whether `edges` holds the pair (`a`, `b`).
fn has_edge(edges: &Vec<(SparseBasis, SparseBasis)>, a: &SparseBasis, b: &SparseBasis) -> (r: bool)
    ensures
        r == edges_view(edges@).contains((a@, b@)),
{
    let mut i: usize = 0;
    while i < edges.len()
        invariant
            i <= edges@.len(),
            forall|k: int| 0 <= k < i ==> edges_view(edges@)[k] != (a@, b@),
        decreases edges.len() - i,
    {
        if edges[i].0.same_as(a) && edges[i].1.same_as(b) {
            assert(edges_view(edges@)[i as int] == (a@, b@));
            return true;
        }
        i = i + 1;
    }
    false
}

/// The edge frontier of a node selection: every edge leaving a basis that
/// holds a selected node, each (source, destination) pair once.
pub fn compute_cut(selected_nodes: &Vec<u32>, graph: &SparseGraph) -> (r: Vec<(SparseBasis, SparseBasis)>)
    requires
        graph.wf(),
    ensures
        edges_view(r@).no_duplicates(),
        forall|e: (Seq<u32>, Seq<u32>)|
            edges_view(r@).contains(e) <==> exists|k: int|
                0 <= k < selected_nodes@.len() && #[trigger] outbound(graph@, selected_nodes@[k]).contains(e),
{
    let ghost g = graph@;
    let mut pot_edges: Vec<(SparseBasis, SparseBasis)> = Vec::new();
    let mut i: usize = 0;
    while i < selected_nodes.len()
        invariant
            graph.wf(),
            g == graph@,
            i <= selected_nodes@.len(),
            edges_view(pot_edges@).no_duplicates(),
            forall|e: (Seq<u32>, Seq<u32>)|
                edges_view(pot_edges@).contains(e) <==> exists|k: int|
                    0 <= k < i && #[trigger] outbound(g, selected_nodes@[k]).contains(e),
        decreases selected_nodes.len() - i,
    {
        let node = selected_nodes[i];
        let new_edges = graph.get_outbound_edges(node);
        let ghost ne = edges_view(new_edges@);
        let ghost before = edges_view(pot_edges@);
        let mut t: usize = 0;
        while t < new_edges.len()
            invariant
                i < selected_nodes@.len(),
                node == selected_nodes@[i as int],
                ne == edges_view(new_edges@),
                ne == outbound(g, node),
                t <= new_edges@.len(),
                edges_view(pot_edges@).no_duplicates(),
                forall|e: (Seq<u32>, Seq<u32>)|
                    edges_view(pot_edges@).contains(e) <==> (before.contains(e) || ne.subrange(0, t as int).contains(e)),
            decreases new_edges.len() - t,
        {
            let a = &new_edges[t].0;
            let b = &new_edges[t].1;
            let ghost pb = edges_view(pot_edges@);
            proof {
                assert(ne[t as int] == (a@, b@));
                assert(forall|e: (Seq<u32>, Seq<u32>)|
                    pb.contains(e) <==> (before.contains(e) || ne.subrange(0, t as int).contains(e)));
            }
            if !has_edge(&pot_edges, a, b) {
                pot_edges.push((a.duplicate(), b.duplicate()));
                proof {
                    assert(edges_view(pot_edges@) =~= pb.push((a@, b@)));
                    assert forall|x: int, y: int|
                        0 <= x < y < edges_view(pot_edges@).len() implies edges_view(pot_edges@)[x]
                        != edges_view(pot_edges@)[y] by {
                        if y == pb.len() {
                            assert(pb[x] == edges_view(pot_edges@)[x]);
                        }
                    }
                }
            }
            proof {
                let pv = edges_view(pot_edges@);
                assert(pv.contains((a@, b@))) by {
                    if pv == pb {
                    } else {
                        assert(pv[pb.len() as int] == (a@, b@));
                    }
                }
                assert forall|e: (Seq<u32>, Seq<u32>)| pb.contains(e) implies pv.contains(e) by {
                    let k = choose|k: int| 0 <= k < pb.len() && #[trigger] pb[k] == e;
                    assert(pv[k] == e);
                }
                assert forall|e: (Seq<u32>, Seq<u32>)|
                    pv.contains(e) <==> (before.contains(e) || ne.subrange(0, t + 1).contains(e)) by {
                    assert(pb.contains(e) <==> (before.contains(e) || ne.subrange(0, t as int).contains(e)));
                    if ne.subrange(0, t + 1).contains(e) {
                        let k = choose|k: int| 0 <= k < t + 1 && #[trigger] ne.subrange(0, t + 1)[k] == e;
                        if k < t {
                            assert(ne.subrange(0, t as int)[k] == e);
                        } else {
                            assert(e == (a@, b@));
                        }
                    }
                    if ne.subrange(0, t as int).contains(e) {
                        let k = choose|k: int| 0 <= k < t && #[trigger] ne.subrange(0, t as int)[k] == e;
                        assert(ne.subrange(0, t + 1)[k] == e);
                    }
                    if pv.contains(e) && !pb.contains(e) {
                        let k = choose|k: int| 0 <= k < pv.len() && #[trigger] pv[k] == e;
                        if k < pb.len() {
                            assert(pb[k] == e);
                        }
                        assert(e == (a@, b@));
                        assert(ne.subrange(0, t + 1)[t as int] == e);
                    }
                }
            }
            t = t + 1;
        }
        proof {
            assert(ne.subrange(0, t as int) =~= ne);
            assert forall|e: (Seq<u32>, Seq<u32>)|
                edges_view(pot_edges@).contains(e) <==> exists|k: int|
                    0 <= k < i + 1 && #[trigger] outbound(g, selected_nodes@[k]).contains(e) by {
                if exists|k: int| 0 <= k < i + 1 && #[trigger] outbound(g, selected_nodes@[k]).contains(e) {
                    let k = choose|k: int| 0 <= k < i + 1 && #[trigger] outbound(g, selected_nodes@[k]).contains(e);
                    if k < i {
                        assert(before.contains(e));
                    } else {
                        assert(ne.contains(e));
                    }
                }
                if edges_view(pot_edges@).contains(e) {
                    if before.contains(e) {
                        let k = choose|k: int| 0 <= k < i && #[trigger] outbound(g, selected_nodes@[k]).contains(e);
                        assert(0 <= k < i + 1 && outbound(g, selected_nodes@[k]).contains(e));
                    } else {
                        assert(outbound(g, selected_nodes@[i as int]).contains(e));
                    }
                }
            }
        }
        i = i + 1;
    }
    pot_edges
}

} // verus!
