//! Evaluation orders: a topological order of the whole graph, or a proof that
//! the wiring holds a cycle.

use vstd::prelude::*;
use vstd::set_lib::*;
use crate::graph::{Graph, GraphError, Node, nodes_wf, wired};
use crate::scalar::Scalar;

verus! {

/// `ord` lists every node exactly once, each producer before its consumers.
pub open spec fn is_topo_order<S>(g: Seq<Node<S>>, ord: Seq<usize>) -> bool {
    &&& ord.len() == g.len()
    &&& ord.no_duplicates()
    &&& forall|i: int| 0 <= i < ord.len() ==> #[trigger] ord[i] < g.len()
    &&& forall|i: int, j: int|
        0 <= i < ord.len() && 0 <= j < ord.len() && wired(#[trigger] g[ord[j] as int], #[trigger] ord[i] as int)
            ==> i < j
}

/// The wiring is acyclic: some order puts every producer before its consumers.
pub open spec fn acyclic<S>(g: Seq<Node<S>>) -> bool {
    exists|ord: Seq<usize>| is_topo_order(g, ord)
}

/// Distinct handles below `n`: at most `n` of them, and exactly `n` only when
/// every handle below `n` occurs.
pub proof fn lemma_distinct_handles(s: Seq<usize>, n: usize)
    requires
        s.no_duplicates(),
        forall|i: int| 0 <= i < s.len() ==> #[trigger] s[i] < n,
    ensures
        s.len() <= n,
        s.len() == n ==> forall|v: usize| v < n ==> #[trigger] s.contains(v),
        s.len() < n ==> exists|v: usize| v < n && !(#[trigger] s.contains(v)),
{
    broadcast use vstd::seq_lib::group_seq_properties;
    broadcast use vstd::set::group_set_axioms;

    let u = Set::<usize>::range(0, n);
    range_set_properties::<usize>(0, n);
    s.unique_seq_to_set();
    assert(s.to_set().subset_of(u)) by {
        assert forall|v: usize| s.to_set().contains(v) implies u.contains(v) by {
            let i = choose|i: int| 0 <= i < s.len() && s[i] == v;
            assert(s[i] < n);
        }
    }
    lemma_len_subset(s.to_set(), u);
    if s.len() == n {
        lemma_subset_equality(s.to_set(), u);
        assert forall|v: usize| v < n implies #[trigger] s.contains(v) by {
            assert(u.contains(v));
            assert(s.to_set().contains(v));
        }
    }
    if s.len() < n {
        if forall|v: usize| v < n ==> #[trigger] s.contains(v) {
            assert(u.subset_of(s.to_set())) by {
                assert forall|v: usize| u.contains(v) implies s.to_set().contains(v) by {
                    assert(s.contains(v));
                }
            }
            lemma_len_subset(u, s.to_set());
        }
    }
}

/// A topological order lists every node.
pub proof fn lemma_topo_order_covers<S>(g: Seq<Node<S>>, ord: Seq<usize>)
    requires
        is_topo_order(g, ord),
        g.len() <= usize::MAX,
    ensures
        forall|v: usize| v < g.len() ==> #[trigger] ord.contains(v),
{
    lemma_distinct_handles(ord, g.len() as usize);
}

/// A topological order depends only on the input edges.
pub proof fn lemma_topo_order_same_wiring<S>(g0: Seq<Node<S>>, g1: Seq<Node<S>>, ord: Seq<usize>)
    requires
        is_topo_order(g0, ord),
        g1.len() == g0.len(),
        forall|i: int| 0 <= i < g0.len() ==> (#[trigger] g1[i]).inputs == g0[i].inputs,
    ensures
        is_topo_order(g1, ord),
{
    assert forall|i: int, j: int|
        0 <= i < ord.len() && 0 <= j < ord.len() && wired(#[trigger] g1[ord[j] as int], #[trigger] ord[i] as int)
            implies i < j by {
        assert(g1[ord[j] as int].inputs == g0[ord[j] as int].inputs);
        assert(wired(g0[ord[j] as int], ord[i] as int));
    }
}

/// The first position of `t` (up to `i0`) whose node is not yet placed.
proof fn lemma_first_unplaced(t: Seq<usize>, placed: Seq<bool>, i0: int) -> (i: int)
    requires
        0 <= i0 < t.len(),
        forall|i: int| 0 <= i < t.len() ==> #[trigger] t[i] < placed.len(),
        !placed[t[i0] as int],
    ensures
        0 <= i <= i0,
        !placed[t[i] as int],
        forall|j: int| 0 <= j < i ==> placed[#[trigger] t[j] as int],
    decreases i0,
{
    if exists|j: int| 0 <= j < i0 && !placed[#[trigger] t[j] as int] {
        let j = choose|j: int| 0 <= j < i0 && !placed[#[trigger] t[j] as int];
        lemma_first_unplaced(t, placed, j)
    } else {
        i0
    }
}

/// Node `v` can be placed next: it is not placed, and all its producers are.
pub open spec fn ready<S>(g: Seq<Node<S>>, placed: Seq<bool>, v: int) -> bool {
    &&& !placed[v]
    &&& forall|k: int| 0 <= k < g[v].inputs@.len() ==> placed[#[trigger] g[v].inputs@[k].node as int]
}

/// `ord` lists, without repeats, exactly the nodes that `placed` marks, each
/// after its producers, and every producer of a listed node is placed.
pub open spec fn partial_topo<S>(g: Seq<Node<S>>, placed: Seq<bool>, ord: Seq<usize>) -> bool {
    &&& placed.len() == g.len()
    &&& ord.no_duplicates()
    &&& forall|i: int| 0 <= i < ord.len() ==> #[trigger] ord[i] < g.len()
    &&& forall|v: usize| v < g.len() ==> (placed[v as int] <==> #[trigger] ord.contains(v))
    &&& forall|i: int, j: int|
        0 <= i < ord.len() && 0 <= j < ord.len() && wired(#[trigger] g[ord[j] as int], #[trigger] ord[i] as int) ==> i < j
    &&& forall|j: int, k: int|
        0 <= j < ord.len() && 0 <= k < g[ord[j] as int].inputs@.len() ==> placed[#[trigger] g[ord[j] as int].inputs@[k].node as int]
}

impl<S: Scalar> Graph<S> {
    fn is_ready(&self, placed: &Vec<bool>, v: usize) -> (r: bool)
        requires
            self.wf(),
            placed@.len() == self@.len(),
            v < self@.len(),
        ensures
            r == ready(self@, placed@, v as int),
    {
        if placed[v] {
            return false;
        }
        let node = self.node(v);
        let n = node.inputs.len();
        let mut k: usize = 0;
        while k < n
            invariant
                nodes_wf(self@),
                v < self@.len(),
                *node == self@[v as int],
                placed@.len() == self@.len(),
                n == node.inputs@.len(),
                k <= n,
                forall|j: int| 0 <= j < k ==> placed@[#[trigger] node.inputs@[j].node as int],
            decreases n - k,
        {
            if !placed[node.inputs[k].node] {
                return false;
            }
            k += 1;
        }
        true
    }

    /// An order of all nodes with every producer before its consumers; fails
    /// exactly when the wiring holds a cycle.
    pub fn topological_order(&self) -> (r: Result<Vec<usize>, GraphError>)
        requires
            self.wf(),
        ensures
            match r {
                Ok(ord) => is_topo_order(self@, ord@),
                Err(e) => e == GraphError::CycleDetected && !acyclic(self@),
            },
            r is Ok <==> acyclic(self@),
    {
        let n = self.len();
        let mut placed: Vec<bool> = Vec::new();
        while placed.len() < n
            invariant
                placed@.len() <= n,
                forall|i: int| 0 <= i < placed@.len() ==> !#[trigger] placed@[i],
            decreases n - placed@.len(),
        {
            placed.push(false);
        }
        let mut ord: Vec<usize> = Vec::new();
        // Sweep the nodes, placing each one whose producers are all placed,
        // until every node is placed or a sweep places none.
        while ord.len() < n
            invariant
                self.wf(),
                n == self@.len(),
                partial_topo(self@, placed@, ord@),
            decreases n - ord@.len(),
        {
            let ghost start = ord@.len();
            let mut progress = false;
            let mut v: usize = 0;
            while v < n
                invariant
                    self.wf(),
                    n == self@.len(),
                    partial_topo(self@, placed@, ord@),
                    v <= n,
                    progress ==> ord@.len() > start,
                    !progress ==> ord@.len() == start,
                    !progress ==> forall|w: int| 0 <= w < v ==> !ready(self@, placed@, w),
                decreases n - v,
            {
                if self.is_ready(&placed, v) {
                    self.place(&mut placed, &mut ord, v);
                    progress = true;
                }
                v += 1;
            }
            proof {
                lemma_distinct_handles(ord@, n);
            }
            if !progress {
                proof {
                    self.lemma_stuck_means_cycle(placed@, ord@);
                }
                return Err(GraphError::CycleDetected);
            }
        }
        proof {
            lemma_distinct_handles(ord@, n);
            assert(is_topo_order(self@, ord@));
        }
        Ok(ord)
    }

    /// Appends ready node `v` to the order and marks it placed.
    fn place(&self, placed: &mut Vec<bool>, ord: &mut Vec<usize>, v: usize)
        requires
            self.wf(),
            partial_topo(self@, old(placed)@, old(ord)@),
            v < self@.len(),
            ready(self@, old(placed)@, v as int),
        ensures
            partial_topo(self@, final(placed)@, final(ord)@),
            final(ord)@ == old(ord)@.push(v),
    {
        let n = self.len();
        let ghost g = self@;
        let ghost ord0 = ord@;
        let ghost placed0 = placed@;
        placed[v] = true;
        ord.push(v);
        proof {
            assert(!ord0.contains(v));
            assert forall|i: int, j: int| 0 <= i < ord@.len() && 0 <= j < ord@.len() && i != j implies ord@[i]
                != ord@[j] by {
                if i == ord0.len() {
                    assert(ord0.contains(ord@[j]));
                } else if j == ord0.len() {
                    assert(ord0.contains(ord@[i]));
                }
            }
            assert forall|w: usize| w < n implies (placed@[w as int] <==> #[trigger] ord@.contains(w)) by {
                if w == v {
                    assert(ord@[ord0.len() as int] == v);
                } else {
                    assert(placed@[w as int] == placed0[w as int]);
                    if ord0.contains(w) {
                        let i = choose|i: int| 0 <= i < ord0.len() && ord0[i] == w;
                        assert(ord@[i] == w);
                    }
                    if ord@.contains(w) {
                        let i = choose|i: int| 0 <= i < ord@.len() && ord@[i] == w;
                        assert(ord0[i] == w);
                    }
                }
            }
            assert forall|i: int, j: int|
                0 <= i < ord@.len() && 0 <= j < ord@.len() && wired(
                    #[trigger] g[ord@[j] as int],
                    #[trigger] ord@[i] as int,
                ) implies i < j by {
                let last = ord0.len() as int;
                if i == last && j < last {
                    let k = choose|k: int|
                        0 <= k < g[ord0[j] as int].inputs@.len() && g[ord0[j] as int].inputs@[k].node as int
                            == v as int;
                    assert(placed0[g[ord0[j] as int].inputs@[k].node as int]);
                } else if i == last && j == last {
                    let k = choose|k: int|
                        0 <= k < g[v as int].inputs@.len() && g[v as int].inputs@[k].node as int == v as int;
                    assert(placed0[g[v as int].inputs@[k].node as int]);
                } else if j == last {
                } else {
                    assert(ord@[i] == ord0[i] && ord@[j] == ord0[j]);
                }
            }
            assert forall|j: int, k: int|
                0 <= j < ord@.len() && 0 <= k < g[ord@[j] as int].inputs@.len() implies placed@[#[trigger] g[ord@[j] as int].inputs@[k].node as int] by {
                if j < ord0.len() {
                    assert(ord@[j] == ord0[j]);
                    assert(placed0[g[ord0[j] as int].inputs@[k].node as int]);
                } else {
                    assert(placed0[g[v as int].inputs@[k].node as int]);
                }
            }
        }
    }

    /// When part of the nodes is placed, every producer of a placed node is
    /// placed, and no unplaced node is ready, the wiring has no topological order.
    proof fn lemma_stuck_means_cycle(&self, placed: Seq<bool>, ord: Seq<usize>)
        requires
            self.wf(),
            placed.len() == self@.len(),
            ord.len() < self@.len(),
            self@.len() <= usize::MAX,
            ord.no_duplicates(),
            forall|i: int| 0 <= i < ord.len() ==> #[trigger] ord[i] < self@.len(),
            forall|v: usize| v < self@.len() ==> (placed[v as int] <==> #[trigger] ord.contains(v)),
            forall|w: int| 0 <= w < self@.len() ==> !ready(self@, placed, w),
        ensures
            !acyclic(self@),
    {
        let g = self@;
        let n = g.len() as usize;
        lemma_distinct_handles(ord, n);
        let u = choose|v: usize| v < n && !(#[trigger] ord.contains(v));
        if acyclic(g) {
            let t = choose|t: Seq<usize>| is_topo_order(g, t);
            lemma_topo_order_covers(g, t);
            assert(t.contains(u));
            let i0 = choose|i: int| 0 <= i < t.len() && t[i] == u;
            let i = lemma_first_unplaced(t, placed, i0);
            let m = t[i] as int;
            assert(!ready(g, placed, m));
            let k = choose|k: int| 0 <= k < g[m].inputs@.len() && !placed[#[trigger] g[m].inputs@[k].node as int];
            let p = g[m].inputs@[k].node;
            assert(p < n);
            assert(t.contains(p));
            let j = choose|j: int| 0 <= j < t.len() && t[j] == p;
            assert(wired(g[t[i] as int], t[j] as int));
            assert(j < i);
            assert(placed[t[j] as int]);
        }
    }
}

} // verus!
