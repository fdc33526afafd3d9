use vstd::prelude::*;

verus! {

/// The nodes of a basis, in strictly increasing order: a canonical form of a set.
pub open spec fn strictly_sorted(s: Seq<u32>) -> bool {
    forall|i: int, j: int| 0 <= i < j < s.len() ==> s[i] < s[j]
}

/// A deduplicated, unordered set of nodes, kept as its sorted list of members,
/// so that two bases with the same members are equal field by field.
#[derive(Clone, Debug)]
pub struct SparseBasis {
    pub nodes: Vec<u32>,
}

impl SparseBasis {
    pub open spec fn wf(&self) -> bool {
        strictly_sorted(self.nodes@)
    }

    /// The canonical (sorted) member list.
    pub open spec fn view(&self) -> Seq<u32> {
        self.nodes@
    }

    /// The basis holding exactly the nodes of `v`, whatever their order and repetitions.
    pub fn from_nodes(v: &Vec<u32>) -> (r: SparseBasis)
        ensures
            r.wf(),
            forall|x: u32| r@.contains(x) <==> v@.contains(x),
    {
        let mut out: Vec<u32> = Vec::new();
        let mut i: usize = 0;
        while i < v.len()
            invariant
                i <= v.len(),
                strictly_sorted(out@),
                forall|x: u32| out@.contains(x) <==> v@.subrange(0, i as int).contains(x),
            decreases v.len() - i,
        {
            let x = v[i];
            let mut pos: usize = 0;
            while pos < out.len() && out[pos] < x
                invariant
                    pos <= out.len(),
                    strictly_sorted(out@),
                    forall|k: int| 0 <= k < pos ==> out@[k] < x,
                decreases out.len() - pos,
            {
                pos = pos + 1;
            }
            let ghost before = out@;
            if pos == out.len() || out[pos] != x {
                out.insert(pos, x);
                assert forall|a: int, b: int| 0 <= a < b < out@.len() implies out@[a] < out@[b] by {
                    if b < pos {
                    } else if a < pos && b == pos {
                    } else if a < pos {
                        assert(out@[b] == before[b - 1]);
                        assert(before[a] < before[pos as int]);
                    } else if a == pos {
                        assert(out@[b] == before[b - 1]);
                        assert(before[pos as int] >= x);
                        if b - 1 > pos {
                            assert(before[pos as int] < before[b - 1]);
                        }
                    } else {
                        assert(out@[a] == before[a - 1]);
                        assert(out@[b] == before[b - 1]);
                    }
                }
                assert forall|y: u32| out@.contains(y) <==> v@.subrange(0, i + 1).contains(y) by {
                    if out@.contains(y) {
                        let k = choose|k: int| 0 <= k < out@.len() && #[trigger] out@[k] == y;
                        if k < pos {
                            assert(before[k] == y);
                        } else if k > pos {
                            assert(before[k - 1] == y);
                        }
                        if y != x {
                            assert(before.contains(y));
                            let t = choose|t: int| 0 <= t < i && #[trigger] v@.subrange(0, i as int)[t] == y;
                            assert(v@.subrange(0, i + 1)[t] == y);
                        } else {
                            assert(v@.subrange(0, i + 1)[i as int] == y);
                        }
                    }
                    if v@.subrange(0, i + 1).contains(y) {
                        let t = choose|t: int| 0 <= t < i + 1 && #[trigger] v@.subrange(0, i + 1)[t] == y;
                        if t < i {
                            assert(v@.subrange(0, i as int)[t] == y);
                            assert(before.contains(y));
                            let k = choose|k: int| 0 <= k < before.len() && #[trigger] before[k] == y;
                            if k < pos {
                                assert(out@[k] == y);
                            } else {
                                assert(out@[k + 1] == y);
                            }
                        } else {
                            assert(out@[pos as int] == y);
                        }
                    }
                }
            } else {
                assert forall|y: u32| out@.contains(y) <==> v@.subrange(0, i + 1).contains(y) by {
                    if out@.contains(y) && y != x {
                        let t = choose|t: int| 0 <= t < i && #[trigger] v@.subrange(0, i as int)[t] == y;
                        assert(v@.subrange(0, i + 1)[t] == y);
                    }
                    if out@.contains(y) && y == x {
                        assert(v@.subrange(0, i + 1)[i as int] == y);
                    }
                    if v@.subrange(0, i + 1).contains(y) {
                        let t = choose|t: int| 0 <= t < i + 1 && #[trigger] v@.subrange(0, i + 1)[t] == y;
                        if t < i {
                            assert(v@.subrange(0, i as int)[t] == y);
                        } else {
                            assert(out@[pos as int] == y);
                        }
                    }
                }
            }
            i = i + 1;
        }
        assert(v@.subrange(0, v@.len() as int) =~= v@);
        SparseBasis { nodes: out }
    }

    /// Whether the node list is strictly increasing.
    pub fn is_wf(&self) -> (r: bool)
        ensures
            r == self.wf(),
    {
        let n = self.nodes.len();
        if n == 0 {
            return true;
        }
        let mut i: usize = 1;
        while i < n
            invariant
                1 <= i <= n,
                n == self.nodes@.len(),
                forall|a: int, b: int| 0 <= a < b < i ==> self.nodes@[a] < self.nodes@[b],
            decreases n - i,
        {
            if self.nodes[i - 1] >= self.nodes[i] {
                return false;
            }
            i = i + 1;
        }
        true
    }

    /// Number of distinct nodes in the basis.
    pub fn size(&self) -> (r: usize)
        ensures
            r == self@.len(),
    {
        self.nodes.len()
    }

    /// Whether two bases hold the same nodes.
    pub fn same_as(&self, other: &SparseBasis) -> (r: bool)
        ensures
            r == (self@ == other@),
    {
        if self.nodes.len() != other.nodes.len() {
            return false;
        }
        let mut i: usize = 0;
        while i < self.nodes.len()
            invariant
                i <= self.nodes.len(),
                self.nodes.len() == other.nodes.len(),
                forall|k: int| 0 <= k < i ==> self@[k] == other@[k],
            decreases self.nodes.len() - i,
        {
            if self.nodes[i] != other.nodes[i] {
                return false;
            }
            i = i + 1;
        }
        assert(self@ =~= other@);
        true
    }

    /// Whether `n` is one of the basis's nodes.
    pub fn contains_node(&self, n: u32) -> (r: bool)
        ensures
            r == self@.contains(n),
    {
        let mut i: usize = 0;
        while i < self.nodes.len()
            invariant
                i <= self.nodes.len(),
                forall|k: int| 0 <= k < i ==> self@[k] != n,
            decreases self.nodes.len() - i,
        {
            if self.nodes[i] == n {
                return true;
            }
            i = i + 1;
        }
        false
    }

    /// A copy with the same nodes.
    pub fn duplicate(&self) -> (r: SparseBasis)
        ensures
            r@ == self@,
    {
        SparseBasis { nodes: self.nodes.clone() }
    }
}

} // verus!
