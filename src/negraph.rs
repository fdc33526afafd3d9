use vstd::prelude::*;
use std::collections::HashMap;
use std::collections::VecDeque;
use std::collections::hash_map::Entry;
use crate::basis::SparseBasis;
use vstd::std_specs::iter::IteratorSpec;

verus! {

broadcast use vstd::std_specs::hash::group_hash_axioms;

/// Edge identifiers are 128-bit tokens.
pub type EdgeID = u128;

/// Relies on uuid's `Uuid::new_v4` and `Uuid::as_u128`: a random 128-bit token
/// for a new edge. Nothing is promised of its value.
#[verifier::external_body]
fn fresh_edge_id() -> (r: u128) {
    uuid::Uuid::new_v4().as_u128()
}

/// A hyperedge: the set of nodes it connects and its payload.
#[derive(Clone, Debug)]
pub struct Edge<EdgeData> {
    pub nodes: SparseBasis,
    pub data: EdgeData,
}

/// A generic hypergraph over node and edge payload types.
///
/// Node identifiers are handed out in increasing order until the 32-bit space
/// is exhausted; after that, identifiers are drawn from a queue of reusable
/// ones. Removing a node does not enqueue its identifier.
#[derive(Clone, Debug)]
pub struct NEGraph<NodeData, EdgeData> {
    pub next_usable_node: u32,
    pub reusable_nodes: VecDeque<u32>,
    pub nodes: HashMap<u32, NodeData>,
    pub edges: HashMap<u128, Edge<EdgeData>>,
}

/// Identifiers in `[lo, u32::MAX)` that are neither live nor queued: those
/// the counter can still hand out.
pub open spec fn fresh_below_max(lo: int, live: Set<u32>, queue: Seq<u32>) -> nat
    decreases u32::MAX - lo,
{
    if lo < 0 || lo >= u32::MAX {
        0
    } else {
        (if !live.contains(lo as u32) && !queue.contains(lo as u32) {
            1nat
        } else {
            0nat
        }) + fresh_below_max(lo + 1, live, queue)
    }
}

/// Queued identifiers that can still be taken, in queue order: each one not
/// live, counted once.
pub open spec fn queue_free(live: Set<u32>, queue: Seq<u32>) -> nat
    decreases queue.len(),
{
    if queue.len() == 0 {
        0
    } else {
        (if !live.contains(queue[0]) {
            1nat
        } else {
            0nat
        }) + queue_free(live.insert(queue[0]), queue.drop_first())
    }
}

/// `u32::MAX` itself is taken when the counter reaches it, if it is free and
/// the queue is not empty at that point.
pub open spec fn max_free(live: Set<u32>, queue: Seq<u32>) -> nat {
    if !live.contains(u32::MAX) && !queue.contains(u32::MAX) && queue.len() > 0 {
        1
    } else {
        0
    }
}

/// How many identifiers `add_nodes` can hand out with the counter at `counter`.
pub open spec fn available_ids(counter: int, live: Set<u32>, queue: Seq<u32>) -> nat {
    fresh_below_max(counter, live, queue) + queue_free(live, queue) + max_free(live, queue)
}

proof fn lemma_fresh_frame(lo: int, l1: Set<u32>, l2: Set<u32>, queue: Seq<u32>)
    requires
        forall|x: u32| lo <= x < u32::MAX ==> (l1.contains(x) <==> l2.contains(x)),
    ensures
        fresh_below_max(lo, l1, queue) == fresh_below_max(lo, l2, queue),
    decreases u32::MAX - lo,
{
    if 0 <= lo < u32::MAX {
        lemma_fresh_frame(lo + 1, l1, l2, queue);
    }
}

proof fn lemma_queue_frame(l1: Set<u32>, l2: Set<u32>, queue: Seq<u32>)
    requires
        forall|x: u32| queue.contains(x) ==> (l1.contains(x) <==> l2.contains(x)),
    ensures
        queue_free(l1, queue) == queue_free(l2, queue),
    decreases queue.len(),
{
    if queue.len() > 0 {
        let rest = queue.drop_first();
        assert forall|x: u32| rest.contains(x) implies (l1.insert(queue[0]).contains(x) <==> l2.insert(
            queue[0],
        ).contains(x)) by {
            let i = choose|i: int| 0 <= i < rest.len() && rest[i] == x;
            assert(queue[i + 1] == x);
        }
        assert(queue.contains(queue[0]));
        lemma_queue_frame(l1.insert(queue[0]), l2.insert(queue[0]), rest);
    }
}

/// How one `add_node` call that returned `id` moves the identifier counter
/// and the reuse queue.
pub open spec fn add_node_step<NodeData, EdgeData>(
    before: NEGraph<NodeData, EdgeData>,
    after: NEGraph<NodeData, EdgeData>,
    id: u32,
) -> bool {
    &&& before.can_allocate()
    &&& after.nodes@.contains_key(id)
    &&& before.next_usable_node < u32::MAX ==> {
        &&& id == before.next_usable_node
        &&& after.next_usable_node == before.next_usable_node + 1
        &&& after.reusable_nodes@ == before.reusable_nodes@
    }
    &&& before.next_usable_node == u32::MAX ==> {
        &&& id == before.reusable_nodes@[0]
        &&& after.next_usable_node == u32::MAX
        &&& after.reusable_nodes@ == before.reusable_nodes@.drop_first()
    }
}

/// Successive `add_node` calls on a new graph, with no removal in between,
/// return 0, 1, 2, ...: the identifiers are distinct and strictly increase
/// from 0.
pub proof fn lemma_add_node_ids_increase<NodeData, EdgeData>(
    states: Seq<NEGraph<NodeData, EdgeData>>,
    ids: Seq<u32>,
)
    requires
        states.len() == ids.len() + 1,
        states[0].next_usable_node == 0,
        states[0].reusable_nodes@.len() == 0,
        forall|i: int| 0 <= i < ids.len() ==> add_node_step(states[i], states[i + 1], #[trigger] ids[i]),
    ensures
        forall|i: int| 0 <= i < ids.len() ==> #[trigger] ids[i] == i,
        forall|i: int, j: int| 0 <= i < j < ids.len() ==> ids[i] < ids[j],
    decreases ids.len(),
{
    if ids.len() > 0 {
        let n = ids.len() - 1;
        lemma_add_node_ids_increase(states.drop_last(), ids.drop_last());
        assert forall|i: int| 0 <= i <= n implies #[trigger] states[i].next_usable_node == i
            && states[i].reusable_nodes@.len() == 0 by {
            lemma_counter_runs(states, ids, i);
        }
        assert(add_node_step(states[n], states[n + 1], ids[n]));
        assert(forall|i: int| 0 <= i < n ==> ids.drop_last()[i] == ids[i]);
    }
}

/// How `remove_node` of `id` changes the store: the node is gone, and the
/// counter and the reuse queue are as they were.
pub open spec fn remove_node_step<NodeData, EdgeData>(
    before: NEGraph<NodeData, EdgeData>,
    after: NEGraph<NodeData, EdgeData>,
    id: u32,
) -> bool {
    &&& after.nodes@ == before.nodes@.remove(id)
    &&& after.next_usable_node == before.next_usable_node
    &&& after.reusable_nodes@ == before.reusable_nodes@
}

/// Removing a node does not make its identifier reusable: once the counter is
/// exhausted, `add_node` hands the removed identifier out again only if it
/// was already waiting in the reuse queue.
pub proof fn lemma_removed_id_reused_only_if_queued<NodeData, EdgeData>(
    g0: NEGraph<NodeData, EdgeData>,
    g1: NEGraph<NodeData, EdgeData>,
    g2: NEGraph<NodeData, EdgeData>,
    id: u32,
)
    requires
        remove_node_step(g0, g1, id),
        add_node_step(g1, g2, id),
        g1.next_usable_node == u32::MAX,
    ensures
        g0.reusable_nodes@.contains(id),
{
    assert(g0.reusable_nodes@[0] == id);
}

proof fn lemma_counter_runs<NodeData, EdgeData>(
    states: Seq<NEGraph<NodeData, EdgeData>>,
    ids: Seq<u32>,
    i: int,
)
    requires
        states.len() == ids.len() + 1,
        states[0].next_usable_node == 0,
        states[0].reusable_nodes@.len() == 0,
        forall|k: int| 0 <= k < ids.len() ==> add_node_step(states[k], states[k + 1], #[trigger] ids[k]),
        0 <= i <= ids.len(),
    ensures
        states[i].next_usable_node == i,
        states[i].reusable_nodes@.len() == 0,
    decreases i,
{
    if i > 0 {
        lemma_counter_runs(states, ids, i - 1);
        assert(add_node_step(states[i - 1], states[i], ids[i - 1]));
    }
}

impl<NodeData, EdgeData> NEGraph<NodeData, EdgeData> {
    /// Whether identifier allocation can still succeed.
    pub open spec fn can_allocate(&self) -> bool {
        self.next_usable_node < u32::MAX || self.reusable_nodes@.len() > 0
    }

    pub fn new() -> (r: Self)
        ensures
            r.next_usable_node == 0,
            r.reusable_nodes@.len() == 0,
            r.nodes@ == Map::<u32, NodeData>::empty(),
            r.edges@ == Map::<u128, Edge<EdgeData>>::empty(),
    {
        NEGraph {
            next_usable_node: 0,
            reusable_nodes: VecDeque::new(),
            nodes: HashMap::new(),
            edges: HashMap::new(),
        }
    }

    /// Stores `data` under a new identifier: the next never-used one while the
    /// counter is below `u32::MAX`, else the front of the reuse queue.
    pub fn add_node(&mut self, data: NodeData) -> (r: u32)
        requires
            old(self).can_allocate(),
        ensures
            final(self).nodes@ == old(self).nodes@.insert(r, data),
            final(self).edges@ == old(self).edges@,
            old(self).next_usable_node < u32::MAX ==> {
                &&& r == old(self).next_usable_node
                &&& final(self).next_usable_node == old(self).next_usable_node + 1
                &&& final(self).reusable_nodes@ == old(self).reusable_nodes@
            },
            old(self).next_usable_node == u32::MAX ==> {
                &&& r == old(self).reusable_nodes@[0]
                &&& final(self).next_usable_node == u32::MAX
                &&& final(self).reusable_nodes@ == old(self).reusable_nodes@.drop_first()
            },
            add_node_step(*old(self), *final(self), r),
    {
        if self.next_usable_node < u32::MAX {
            let ret = self.next_usable_node;
            self.next_usable_node = self.next_usable_node + 1;
            self.nodes.insert(ret, data);
            ret
        } else {
            match self.reusable_nodes.pop_front() {
                Some(id) => {
                    assert(self.reusable_nodes@ =~= old(self).reusable_nodes@.drop_first());
                    self.nodes.insert(id, data);
                    id
                },
                None => {
                    proof {
                        assert(false);
                    }
                    vstd::pervasive::unreached()
                },
            }
        }
    }

    /// Whether `id` waits in the reuse queue.
    fn is_queued(&self, id: u32) -> (r: bool)
        ensures
            r == self.reusable_nodes@.contains(id),
    {
        let mut i: usize = 0;
        while i < self.reusable_nodes.len()
            invariant
                i <= self.reusable_nodes@.len(),
                forall|k: int| 0 <= k < i ==> self.reusable_nodes@[k] != id,
            decreases self.reusable_nodes@.len() - i,
        {
            if self.reusable_nodes[i] == id {
                return true;
            }
            i = i + 1;
        }
        false
    }

    /// Stores each payload under a new identifier, in order. Identifiers come
    /// from the counter while it is below `u32::MAX`, skipping any that is
    /// live or queued; after that, `u32::MAX` itself if free, then the front
    /// of the reuse queue, skipping live ones. Running out of identifiers is a
    /// caller error.
    pub fn add_nodes(&mut self, data: Vec<NodeData>) -> (r: Vec<u32>)
        requires
            data@.len() <= available_ids(
                old(self).next_usable_node as int,
                old(self).nodes@.dom(),
                old(self).reusable_nodes@,
            ),
        ensures
            r@.len() == data@.len(),
            final(self).edges@ == old(self).edges@,
            forall|k: int| 0 <= k < r@.len() ==> !old(self).nodes@.contains_key(#[trigger] r@[k]),
            forall|k: int|
                0 <= k < r@.len() ==> final(self).nodes@.contains_key(#[trigger] r@[k])
                    && final(self).nodes@[r@[k]] == data@[k],
            forall|a: int, b: int| 0 <= a < b < r@.len() ==> r@[a] != r@[b],
            forall|id: u32|
                #[trigger] final(self).nodes@.contains_key(id) <==> (old(self).nodes@.contains_key(
                    id,
                ) || r@.contains(id)),
            forall|id: u32|
                old(self).nodes@.contains_key(id) ==> #[trigger] final(self).nodes@[id]
                    == old(self).nodes@[id],
            final(self).next_usable_node >= old(self).next_usable_node,
            forall|k: int|
                0 <= k < r@.len() ==> (old(self).next_usable_node <= #[trigger] r@[k]
                    < final(self).next_usable_node) || final(self).next_usable_node == u32::MAX,
            forall|id: u32|
                old(self).next_usable_node <= id < final(self).next_usable_node && !r@.contains(id)
                    ==> #[trigger] old(self).nodes@.contains_key(id) || old(
                    self,
                ).reusable_nodes@.contains(id),
            exists|j: int|
                0 <= j <= old(self).reusable_nodes@.len() && final(self).reusable_nodes@ == old(
                    self,
                ).reusable_nodes@.subrange(j, old(self).reusable_nodes@.len() as int),
            final(self).next_usable_node < u32::MAX ==> {
                &&& final(self).reusable_nodes@ == old(self).reusable_nodes@
                &&& forall|a: int, b: int| 0 <= a < b < r@.len() ==> r@[a] < r@[b]
            },
            ({
                &&& old(self).next_usable_node as int + data@.len() <= u32::MAX as int
                &&& forall|id: u32|
                    old(self).next_usable_node <= id < old(self).next_usable_node as int
                        + data@.len() ==> !(#[trigger] old(self).nodes@.contains_key(id)) && !old(
                        self,
                    ).reusable_nodes@.contains(id)
            }) ==> {
                &&& forall|k: int| 0 <= k < r@.len() ==> #[trigger] r@[k] == old(self).next_usable_node + k
                &&& final(self).next_usable_node == old(self).next_usable_node + data@.len()
            },
    {
        let num_nodes = data.len();
        let ghost data0 = data@;
        let mut data = data;
        let mut rev: Vec<NodeData> = Vec::new();
        while data.len() > 0
            invariant
                data@.len() + rev@.len() == num_nodes,
                num_nodes == data0.len(),
                forall|k: int| 0 <= k < data@.len() ==> data@[k] == data0[k],
                forall|k: int| 0 <= k < rev@.len() ==> rev@[k] == data0[num_nodes - 1 - k],
            decreases data.len(),
        {
            match data.pop() {
                Some(x) => {
                    rev.push(x);
                },
                None => {},
            }
        }
        let mut ret: Vec<u32> = Vec::new();
        let mut counter = self.next_usable_node;
        let ghost clean = old(self).next_usable_node as int + num_nodes <= u32::MAX as int
            && forall|id: u32|
            old(self).next_usable_node <= id < old(self).next_usable_node as int + num_nodes
                ==> !(#[trigger] old(self).nodes@.contains_key(id)) && !old(
                self,
            ).reusable_nodes@.contains(id);
        let ghost mut popped: int = 0;
        assert(self.reusable_nodes@ =~= old(self).reusable_nodes@.subrange(
            0,
            old(self).reusable_nodes@.len() as int,
        ));
        let mut nodes_available = counter < u32::MAX || self.reusable_nodes.len() > 0;
        while nodes_available && ret.len() < num_nodes
            invariant
                num_nodes == data0.len(),
                rev@.len() + ret@.len() == num_nodes,
                forall|k: int| 0 <= k < rev@.len() ==> rev@[k] == data0[num_nodes - 1 - k],
                counter >= old(self).next_usable_node,
                0 <= popped <= old(self).reusable_nodes@.len(),
                self.reusable_nodes@ == old(self).reusable_nodes@.subrange(
                    popped,
                    old(self).reusable_nodes@.len() as int,
                ),
                ret@.len() + available_ids(counter as int, self.nodes@.dom(), self.reusable_nodes@)
                    == available_ids(
                    old(self).next_usable_node as int,
                    old(self).nodes@.dom(),
                    old(self).reusable_nodes@,
                ),
                num_nodes <= available_ids(
                    old(self).next_usable_node as int,
                    old(self).nodes@.dom(),
                    old(self).reusable_nodes@,
                ),
                forall|k: int|
                    0 <= k < ret@.len() ==> (old(self).next_usable_node <= #[trigger] ret@[k]
                        < counter) || counter == u32::MAX,
                forall|id: u32|
                    old(self).next_usable_node <= id < counter && !ret@.contains(id)
                        ==> #[trigger] old(self).nodes@.contains_key(id) || old(
                        self,
                    ).reusable_nodes@.contains(id),
                clean ==> {
                    &&& counter == old(self).next_usable_node + ret@.len()
                    &&& old(self).next_usable_node as int + num_nodes <= u32::MAX as int
                    &&& forall|id: u32|
                        old(self).next_usable_node <= id < old(self).next_usable_node as int
                            + num_nodes ==> !(#[trigger] old(self).nodes@.contains_key(id)) && !old(
                            self,
                        ).reusable_nodes@.contains(id)
                    &&& forall|k: int| 0 <= k < ret@.len() ==> #[trigger] ret@[k] == old(self).next_usable_node + k
                },
                nodes_available == (counter < u32::MAX || self.reusable_nodes@.len() > 0),
                self.edges@ == old(self).edges@,
                forall|k: int|
                    0 <= k < ret@.len() ==> !old(self).nodes@.contains_key(#[trigger] ret@[k]),
                forall|k: int|
                    0 <= k < ret@.len() ==> self.nodes@.contains_key(#[trigger] ret@[k])
                        && self.nodes@[ret@[k]] == data0[k],
                forall|a: int, b: int| 0 <= a < b < ret@.len() ==> ret@[a] != ret@[b],
                forall|id: u32|
                    #[trigger] self.nodes@.contains_key(id) <==> (old(self).nodes@.contains_key(id)
                        || ret@.contains(id)),
                forall|id: u32|
                    old(self).nodes@.contains_key(id) ==> #[trigger] self.nodes@[id] == old(
                        self,
                    ).nodes@[id],
                counter < u32::MAX ==> {
                    &&& popped == 0
                    &&& forall|a: int, b: int| 0 <= a < b < ret@.len() ==> ret@[a] < ret@[b]
                },
            decreases u32::MAX - counter, self.reusable_nodes@.len() + if self.nodes@.contains_key(
                u32::MAX,
            ) {
                0int
            } else {
                1int
            },
        {
            proof {
                if clean {
                    if ret@.contains(counter) {
                        let k = choose|k: int| 0 <= k < ret@.len() && ret@[k] == counter;
                        assert(ret@[k] == old(self).next_usable_node + k);
                    }
                    assert(!self.nodes@.contains_key(counter));
                }
            }
            let ghost queue0 = self.reusable_nodes@;
            let ghost avail0 = available_ids(counter as int, self.nodes@.dom(), self.reusable_nodes@);
            let mut candidate: Option<u32> = None;
            let ghost counter_before = counter;
            let ghost ret0 = ret@;
            let ghost nodes0 = self.nodes@;
            if counter < u32::MAX {
                if !self.nodes.contains_key(&counter) && !self.is_queued(counter) {
                    candidate = Some(counter);
                }
                counter = counter + 1;
            } else {
                if !self.nodes.contains_key(&counter) && !self.is_queued(counter) {
                    candidate = Some(counter);
                } else {
                    match self.reusable_nodes.pop_front() {
                        Some(old_node) => {
                            proof {
                                popped = popped + 1;
                                assert(self.reusable_nodes@ =~= old(self).reusable_nodes@.subrange(
                                    popped,
                                    old(self).reusable_nodes@.len() as int,
                                ));
                            }
                            if !self.nodes.contains_key(&old_node) {
                                candidate = Some(old_node);
                            }
                        },
                        None => {},
                    }
                }
            }
            match candidate {
                Some(id) => {
                    let ghost ret_before = ret@;
                    let ghost nodes_before = self.nodes@;
                    let item = match rev.pop() {
                        Some(x) => x,
                        None => {
                            proof {
                                assert(false);
                            }
                            vstd::pervasive::unreached()
                        },
                    };
                    self.nodes.insert(id, item);
                    ret.push(id);
                    proof {
                        assert(ret@ == ret_before.push(id));
                        assert forall|k: int| 0 <= k < ret@.len() implies !old(
                            self,
                        ).nodes@.contains_key(#[trigger] ret@[k]) by {
                            if k < ret_before.len() {
                                assert(ret@[k] == ret_before[k]);
                            }
                        }
                        assert forall|k: int| 0 <= k < ret@.len() implies self.nodes@.contains_key(
                            #[trigger] ret@[k],
                        ) && self.nodes@[ret@[k]] == data0[k] by {
                            if k < ret_before.len() {
                                assert(ret@[k] == ret_before[k]);
                                assert(nodes_before.contains_key(ret_before[k]));
                            }
                        }
                        assert forall|a: int, b: int| 0 <= a < b < ret@.len() implies ret@[a]
                            != ret@[b] by {
                            if b == ret_before.len() {
                                assert(ret@[a] == ret_before[a]);
                                assert(nodes_before.contains_key(ret_before[a]));
                            }
                        }
                        assert forall|x: u32| #[trigger] self.nodes@.contains_key(x) <==> (old(
                            self,
                        ).nodes@.contains_key(x) || ret@.contains(x)) by {
                            if ret@.contains(x) && x != id {
                                let k = choose|k: int| 0 <= k < ret@.len() && ret@[k] == x;
                                assert(ret_before[k] == x);
                            }
                            if ret_before.contains(x) {
                                let k = choose|k: int| 0 <= k < ret_before.len() && ret_before[k] == x;
                                assert(ret@[k] == x);
                            }
                            if x == id {
                                assert(ret@[ret@.len() - 1] == x);
                            }
                        }
                    }
                },
                None => {},
            }
            proof {
                let live0 = nodes0.dom();
                let live1 = self.nodes@.dom();
                assert forall|x: u32| ret0.contains(x) implies ret@.contains(x) by {
                    let k = choose|k: int| 0 <= k < ret0.len() && ret0[k] == x;
                    assert(ret@[k] == x);
                }
                if counter_before < u32::MAX {
                    assert(counter == counter_before + 1);
                    assert(self.reusable_nodes@ == queue0);
                    assert forall|id: u32|
                        old(self).next_usable_node <= id < counter && !ret@.contains(id) implies #[trigger] old(
                            self,
                        ).nodes@.contains_key(id) || old(self).reusable_nodes@.contains(id) by {
                        if id == counter_before {
                            if candidate is None {
                                if nodes0.contains_key(id) {
                                    assert(old(self).nodes@.contains_key(id) || ret0.contains(id));
                                }
                            } else {
                                assert(ret@[ret@.len() - 1] == id);
                            }
                        }
                    }
                    // the counter's identifier is counted among the fresh ones exactly when taken
                    lemma_fresh_frame(counter as int, live0, live1, queue0);
                    if candidate is Some {
                        assert(live1 =~= live0.insert(counter_before));
                        lemma_queue_frame(live0, live1, queue0);
                    } else {
                        assert(live1 =~= live0);
                    }
                    assert(avail0 == ret@.len() - ret0.len() + available_ids(
                        counter as int,
                        live1,
                        queue0,
                    ));
                } else {
                    assert(counter == u32::MAX);
                    assert(fresh_below_max(counter as int, live0, queue0) == 0);
                    assert(fresh_below_max(counter as int, live1, self.reusable_nodes@) == 0);
                    assert(queue0.len() > 0);
                    if candidate is Some && self.reusable_nodes@ == queue0 {
                        // took u32::MAX itself
                        assert(live1 =~= live0.insert(u32::MAX));
                        lemma_queue_frame(live0, live1, queue0);
                        assert(max_free(live0, queue0) == 1);
                        assert(max_free(live1, queue0) == 0);
                    } else {
                        let q = queue0[0];
                        assert(self.reusable_nodes@ =~= queue0.drop_first());
                        assert(max_free(live0, queue0) == 0);
                        if candidate is Some {
                            assert(live1 =~= live0.insert(q));
                        } else {
                            assert(live0.contains(q));
                            assert(live1 =~= live0);
                            assert(live0.insert(q) =~= live0);
                        }
                        if !live1.contains(u32::MAX) {
                            assert(queue0.contains(u32::MAX));
                            let i = choose|i: int| 0 <= i < queue0.len() && queue0[i] == u32::MAX;
                            if i == 0 {
                                assert(live1.contains(q));
                            } else {
                                assert(self.reusable_nodes@[i - 1] == u32::MAX);
                            }
                        }
                        assert(max_free(live1, self.reusable_nodes@) == 0);
                    }
                    assert(avail0 == ret@.len() - ret0.len() + available_ids(
                        counter as int,
                        live1,
                        self.reusable_nodes@,
                    ));
                }
                if clean {
                    assert(candidate is Some);
                }
            }
            nodes_available = counter < u32::MAX || self.reusable_nodes.len() > 0;
        }
        proof {
            if ret@.len() < num_nodes {
                assert(counter == u32::MAX && self.reusable_nodes@.len() == 0);
                assert(fresh_below_max(counter as int, self.nodes@.dom(), self.reusable_nodes@) == 0);
                assert(queue_free(self.nodes@.dom(), self.reusable_nodes@) == 0);
            }
        }
        self.next_usable_node = counter;
        ret
    }

    /// The payload of a live node.
    pub fn node_ref(&self, node: &u32) -> (r: &NodeData)
        requires
            self.nodes@.contains_key(*node),
        ensures
            *r == self.nodes@[*node],
    {
        match self.nodes.get(node) {
            Some(d) => d,
            None => vstd::pervasive::unreached(),
        }
    }

    /// Mutable access to the payload of a live node.
    pub fn node_ref_mut(&mut self, node: &u32) -> (r: &mut NodeData)
        requires
            old(self).nodes@.contains_key(*node),
        ensures
            *r == old(self).nodes@[*node],
            final(self).nodes@ == old(self).nodes@.insert(*node, *final(r)),
            final(self).edges@ == old(self).edges@,
            final(self).next_usable_node == old(self).next_usable_node,
            final(self).reusable_nodes@ == old(self).reusable_nodes@,
    {
        match self.nodes.entry(*node) {
            Entry::Occupied(o) => o.into_mut(),
            Entry::Vacant(_) => vstd::pervasive::unreached(),
        }
    }

    /// The payload of a live edge.
    pub fn edge_ref(&self, edge_id: &EdgeID) -> (r: &EdgeData)
        requires
            self.edges@.contains_key(*edge_id),
        ensures
            *r == self.edges@[*edge_id].data,
    {
        match self.edges.get(edge_id) {
            Some(e) => &e.data,
            None => vstd::pervasive::unreached(),
        }
    }

    /// Mutable access to the payload of a live edge.
    pub fn edge_ref_mut(&mut self, edge_id: &EdgeID) -> (r: &mut EdgeData)
        requires
            old(self).edges@.contains_key(*edge_id),
        ensures
            *r == old(self).edges@[*edge_id].data,
            final(self).edges@ == old(self).edges@.insert(
                *edge_id,
                (Edge { nodes: old(self).edges@[*edge_id].nodes, data: *final(r) }),
            ),
            final(self).nodes@ == old(self).nodes@,
            final(self).next_usable_node == old(self).next_usable_node,
            final(self).reusable_nodes@ == old(self).reusable_nodes@,
    {
        match self.edges.entry(*edge_id) {
            Entry::Occupied(o) => &mut o.into_mut().data,
            Entry::Vacant(_) => vstd::pervasive::unreached(),
        }
    }

    /// Removes a node and returns its payload, or `None` if it is not live.
    /// The identifier is not put in the reuse queue.
    pub fn remove_node(&mut self, node: &u32) -> (r: Option<NodeData>)
        ensures
            final(self).nodes@ == old(self).nodes@.remove(*node),
            final(self).edges@ == old(self).edges@,
            final(self).next_usable_node == old(self).next_usable_node,
            final(self).reusable_nodes@ == old(self).reusable_nodes@,
            remove_node_step(*old(self), *final(self), *node),
            match r {
                Some(d) => old(self).nodes@.contains_key(*node) && d == old(self).nodes@[*node],
                None => !old(self).nodes@.contains_key(*node),
            },
    {
        self.nodes.remove(node)
    }

    /// The identifiers of the live nodes, each once, in no particular order.
    pub fn nodes(&self) -> (r: Vec<u32>)
        ensures
            r@.to_set() == self.nodes@.dom(),
            r@.no_duplicates(),
    {
        let mut out: Vec<u32> = Vec::new();
        let ghost ks = vstd::std_specs::hash::spec_keys_iter(&self.nodes).remaining().unref();
        for k in it: self.nodes.keys()
            invariant
                it.seq().unref() == ks,
                out@.len() == it.index(),
                forall|j: int| 0 <= j < out@.len() ==> out@[j] == ks[j],
        {
            out.push(*k);
        }
        assert(out@ =~= ks);
        out
    }

    /// Registers an edge over `nodes`, a non-empty list of live nodes, and
    /// returns its identifier: a random one, or, should that one be taken
    /// already, the smallest one not in use.
    pub fn add_edge(&mut self, nodes: &Vec<u32>, data: EdgeData) -> (r: EdgeID)
        requires
            nodes@.len() > 0,
            forall|k: int| 0 <= k < nodes@.len() ==> old(self).nodes@.contains_key(#[trigger] nodes@[k]),
        ensures
            !old(self).edges@.contains_key(r),
            final(self).edges@.contains_key(r),
            final(self).edges@[r].data == data,
            final(self).edges@[r].nodes.wf(),
            forall|x: u32| final(self).edges@[r].nodes@.contains(x) <==> nodes@.contains(x),
            final(self).edges@ == old(self).edges@.insert(r, final(self).edges@[r]),
            final(self).nodes@ == old(self).nodes@,
            final(self).next_usable_node == old(self).next_usable_node,
            final(self).reusable_nodes@ == old(self).reusable_nodes@,
    {
        let mut id = fresh_edge_id();
        if self.edges.contains_key(&id) {
            let n = self.edges.len();
            let ghost mut tried: Set<u128> = Set::empty();
            let mut i: usize = 0;
            id = 0;
            while self.edges.contains_key(&id)
                invariant
                    id == i as u128,
                    i <= n,
                    n == self.edges@.len(),
                    self.edges@.dom().finite(),
                    tried.finite(),
                    tried.len() == i,
                    tried.subset_of(self.edges@.dom()),
                    forall|x: u128| tried.contains(x) ==> x < i,
                decreases n - i,
            {
                proof {
                    tried = tried.insert(id);
                    vstd::set_lib::lemma_len_subset(tried, self.edges@.dom());
                }
                i = i + 1;
                id = i as u128;
            }
        }
        let basis = SparseBasis::from_nodes(nodes);
        self.edges.insert(id, Edge { nodes: basis, data });
        id
    }

    /// Replaces a live node's payload and returns the previous one, or returns
    /// `None` and changes nothing if the node is not live.
    pub fn change_node_data(&mut self, node: &u32, new_data: NodeData) -> (r: Option<NodeData>)
        ensures
            final(self).edges@ == old(self).edges@,
            final(self).next_usable_node == old(self).next_usable_node,
            final(self).reusable_nodes@ == old(self).reusable_nodes@,
            match r {
                Some(d) => {
                    &&& old(self).nodes@.contains_key(*node)
                    &&& d == old(self).nodes@[*node]
                    &&& final(self).nodes@ == old(self).nodes@.insert(*node, new_data)
                },
                None => {
                    &&& !old(self).nodes@.contains_key(*node)
                    &&& final(self).nodes@ == old(self).nodes@
                },
            },
    {
        if self.nodes.contains_key(node) {
            self.nodes.insert(*node, new_data)
        } else {
            None
        }
    }

    /// Replaces a live edge's payload and returns the previous one, or returns
    /// `None` and changes nothing if the edge does not exist.
    pub fn change_edge_data(&mut self, edge_id: &EdgeID, new_data: EdgeData) -> (r: Option<EdgeData>)
        ensures
            final(self).nodes@ == old(self).nodes@,
            final(self).next_usable_node == old(self).next_usable_node,
            final(self).reusable_nodes@ == old(self).reusable_nodes@,
            match r {
                Some(d) => {
                    &&& old(self).edges@.contains_key(*edge_id)
                    &&& d == old(self).edges@[*edge_id].data
                    &&& final(self).edges@ == old(self).edges@.insert(
                        *edge_id,
                        (Edge {
                            nodes: old(self).edges@[*edge_id].nodes,
                            data: new_data,
                        }),
                    )
                },
                None => {
                    &&& !old(self).edges@.contains_key(*edge_id)
                    &&& final(self).edges@ == old(self).edges@
                },
            },
    {
        match self.edges.remove(edge_id) {
            Some(e) => {
                let Edge { nodes, data } = e;
                self.edges.insert(*edge_id, Edge { nodes, data: new_data });
                assert(self.edges@ =~= old(self).edges@.insert(
                    *edge_id,
                    (Edge {
                        nodes: old(self).edges@[*edge_id].nodes,
                        data: new_data,
                    }),
                ));
                Some(data)
            },
            None => None,
        }
    }
}

} // verus!
