//! Forward evaluation: a node's activation from its ancestors'.

use vstd::prelude::*;
use crate::graph::{Graph, GraphError, Node, NodeKind, nodes_wf, same_shape, same_structure, lemma_same_structure_wf};
use crate::order::{acyclic, is_topo_order, lemma_topo_order_covers, lemma_topo_order_same_wiring};
use crate::graph::{node_value, weighted_sum, wired, feeds, downstream_of, is_path, lemma_downstream_prepend, lemma_downstream_same_structure};
use crate::scalar::Scalar;

verus! {

/// `g1` differs from `g0` at most in the activations of Sum and Sigmoid nodes.
pub open spec fn activations_only<S>(g0: Seq<Node<S>>, g1: Seq<Node<S>>) -> bool {
    &&& g1.len() == g0.len()
    &&& forall|i: int|
        0 <= i < g0.len() ==> {
            &&& (#[trigger] g1[i]).name == g0[i].name
            &&& g1[i].kind == g0[i].kind
            &&& g1[i].inputs == g0[i].inputs
            &&& g1[i].outputs == g0[i].outputs
            &&& g1[i].training_state == g0[i].training_state
            &&& !g0[i].kind.has_inputs() ==> g1[i].activation == g0[i].activation
        }
}

/// Changing activations only keeps the arena invariant.
pub proof fn lemma_activations_only_wf<S>(g0: Seq<Node<S>>, g1: Seq<Node<S>>)
    requires
        nodes_wf(g0),
        activations_only(g0, g1),
    ensures
        nodes_wf(g1),
        same_structure(g0, g1),
{
    assert forall|i: int| 0 <= i < g0.len() implies same_shape(#[trigger] g0[i], g1[i]) by {
        assert(g1[i].inputs == g0[i].inputs);
    }
    lemma_same_structure_wf(g0, g1);
}

/// Changing activations only keeps whether the wiring is acyclic.
pub proof fn lemma_activations_only_same_acyclic<S>(g0: Seq<Node<S>>, g1: Seq<Node<S>>)
    requires
        activations_only(g0, g1),
    ensures
        acyclic(g0) <==> acyclic(g1),
{
    if acyclic(g0) {
        let ord = choose|ord: Seq<usize>| is_topo_order(g0, ord);
        assert forall|i: int, j: int|
            0 <= i < ord.len() && 0 <= j < ord.len() && wired(#[trigger] g1[ord[j] as int], #[trigger] ord[i] as int)
                implies i < j by {
            assert(g1[ord[j] as int].inputs == g0[ord[j] as int].inputs);
            assert(wired(g0[ord[j] as int], ord[i] as int));
        }
        assert(is_topo_order(g1, ord));
    }
    if acyclic(g1) {
        let ord = choose|ord: Seq<usize>| is_topo_order(g1, ord);
        assert forall|i: int, j: int|
            0 <= i < ord.len() && 0 <= j < ord.len() && wired(#[trigger] g0[ord[j] as int], #[trigger] ord[i] as int)
                implies i < j by {
            assert(g1[ord[j] as int].inputs == g0[ord[j] as int].inputs);
            assert(wired(g1[ord[j] as int], ord[i] as int));
        }
        assert(is_topo_order(g0, ord));
    }
}

/// Two activation-only changes make one.
pub proof fn lemma_activations_only_trans<S>(g0: Seq<Node<S>>, g1: Seq<Node<S>>, g2: Seq<Node<S>>)
    requires
        activations_only(g0, g1),
        activations_only(g1, g2),
    ensures
        activations_only(g0, g2),
{
    assert forall|i: int| 0 <= i < g0.len() implies {
        &&& (#[trigger] g2[i]).name == g0[i].name
        &&& g2[i].kind == g0[i].kind
        &&& g2[i].inputs == g0[i].inputs
        &&& g2[i].outputs == g0[i].outputs
        &&& g2[i].training_state == g0[i].training_state
        &&& !g0[i].kind.has_inputs() ==> g2[i].activation == g0[i].activation
    } by {
        assert(g1[i].kind == g0[i].kind);
    }
}

/// The outcome `r` of `activation` of node `id` on `g0`, giving `g1`: it
/// succeeds exactly when the wiring is acyclic, and otherwise fails with
/// `CycleDetected`, changing nothing. Only activations of ancestors of `id`
/// with inputs change, each ancestor with inputs ends holding the value it
/// evaluates to, and the result is `id`'s new activation (its stored value
/// for an Input or Constant node).
pub open spec fn activated<S: Scalar>(g0: Seq<Node<S>>, g1: Seq<Node<S>>, id: int, r: Result<S, GraphError>) -> bool {
    &&& r is Ok <==> acyclic(g0)
    &&& r is Err ==> r == Err::<S, GraphError>(GraphError::CycleDetected) && g1 == g0
    &&& activations_only(g0, g1)
    &&& r is Ok ==> r->Ok_0 == g1[id].activation
    &&& !g0[id].kind.has_inputs() ==> g1[id].activation == g0[id].activation
    &&& forall|i: int| 0 <= i < g0.len() && #[trigger] g1[i] != g0[i] ==> downstream_of(g0, i, id)
    &&& r is Ok ==> ancestors_evaluated(g0, g1, id)
}

/// Every ancestor of `id` in `g0` that has inputs holds, in `g1`, the value
/// it evaluates to from its producers' activations in `g1`.
pub open spec fn ancestors_evaluated<S: Scalar>(g0: Seq<Node<S>>, g1: Seq<Node<S>>, id: int) -> bool {
    forall|i: int|
        0 <= i < g0.len() && downstream_of(g0, i, id) && g0[i].kind.has_inputs() ==> (#[trigger] g1[i]).activation
            == node_value(g1, i)
}

/// Every producer of a marked node is marked.
pub open spec fn closed_upstream<S>(g: Seq<Node<S>>, needed: Seq<bool>) -> bool {
    forall|x: int, q: int|
        0 <= x < g.len() && needed[x] && 0 <= q < g[x].inputs@.len() ==> needed[#[trigger] g[x].inputs@[q].node as int]
}

/// Node `v`'s weighted sum reads only its input edges and its producers'
/// activations.
proof fn lemma_weighted_sum_frame<S: Scalar>(g1: Seq<Node<S>>, g2: Seq<Node<S>>, v: int, k: nat)
    requires
        0 <= v < g1.len(),
        g1.len() == g2.len(),
        g1[v].inputs == g2[v].inputs,
        k <= g1[v].inputs@.len(),
        forall|q: int| 0 <= q < g1[v].inputs@.len() ==> (#[trigger] g1[v].inputs@[q]).node < g1.len(),
        forall|q: int|
            0 <= q < g1[v].inputs@.len() ==> g1[(#[trigger] g1[v].inputs@[q]).node as int].activation
                == g2[g1[v].inputs@[q].node as int].activation,
    ensures
        weighted_sum(g1, v, k) == weighted_sum(g2, v, k),
    decreases k,
{
    if k > 0 {
        lemma_weighted_sum_frame(g1, g2, v, (k - 1) as nat);
        let e = g1[v].inputs@[k - 1];
        assert(g1[e.node as int].activation == g2[e.node as int].activation);
    }
}

/// Node `v`'s value reads only its kind, its input edges and its producers'
/// activations.
proof fn lemma_node_value_frame<S: Scalar>(g1: Seq<Node<S>>, g2: Seq<Node<S>>, v: int)
    requires
        0 <= v < g1.len(),
        g1.len() == g2.len(),
        g1[v].inputs == g2[v].inputs,
        g1[v].kind == g2[v].kind,
        forall|q: int| 0 <= q < g1[v].inputs@.len() ==> (#[trigger] g1[v].inputs@[q]).node < g1.len(),
        forall|q: int|
            0 <= q < g1[v].inputs@.len() ==> g1[(#[trigger] g1[v].inputs@[q]).node as int].activation
                == g2[g1[v].inputs@[q].node as int].activation,
    ensures
        node_value(g1, v) == node_value(g2, v),
{
    lemma_weighted_sum_frame(g1, g2, v, g1[v].inputs@.len());
}

/// Marks closed under producers reach every node on a path into a mark.
proof fn lemma_path_needed<S>(g: Seq<Node<S>>, needed: Seq<bool>, path: Seq<int>, k: int)
    requires
        nodes_wf(g),
        closed_upstream(g, needed),
        is_path(g, path),
        needed[path.last()],
        0 <= k < path.len(),
    ensures
        needed[path[k]],
    decreases path.len() - k,
{
    if k < path.len() - 1 {
        lemma_path_needed(g, needed, path, k + 1);
        let c = path[k + 1];
        assert(feeds(g[path[k]], c));
        assert(wired(g[c], path[k]));
        let q = choose|q: int| 0 <= q < g[c].inputs@.len() && g[c].inputs@[q].node as int == path[k];
        assert(needed[g[c].inputs@[q].node as int]);
    }
}

/// Every ancestor of `x` in `g` (itself included) that has inputs holds the
/// value it evaluates to from its producers' activations.
pub open spec fn settled<S: Scalar>(g: Seq<Node<S>>, x: int) -> bool {
    forall|i: int|
        0 <= i < g.len() && downstream_of(g, i, x) && g[i].kind.has_inputs() ==> (#[trigger] g[i]).activation
            == node_value(g, i)
}

/// Every ancestor of `x` in `g1` that has inputs and differs in `g2` holds,
/// in `g2`, the value it evaluates to there.
pub open spec fn changes_evaluated<S: Scalar>(g1: Seq<Node<S>>, g2: Seq<Node<S>>, x: int) -> bool {
    forall|u: int|
        0 <= u < g1.len() && downstream_of(g1, u, x) && g1[u].kind.has_inputs() && #[trigger] g2[u] != g1[u]
            ==> g2[u].activation == node_value(g2, u)
}

proof fn lemma_activations_only_symmetric<S>(g1: Seq<Node<S>>, g2: Seq<Node<S>>)
    requires
        activations_only(g1, g2),
    ensures
        activations_only(g2, g1),
{
    assert forall|i: int| 0 <= i < g2.len() implies {
        &&& (#[trigger] g1[i]).name == g2[i].name
        &&& g1[i].kind == g2[i].kind
        &&& g1[i].inputs == g2[i].inputs
        &&& g1[i].outputs == g2[i].outputs
        &&& g1[i].training_state == g2[i].training_state
        &&& !g2[i].kind.has_inputs() ==> g1[i].activation == g2[i].activation
    } by {
        assert(g2[i].kind == g1[i].kind);
    }
}

/// Values follow from the wiring: where `g1` holds the value of every
/// ancestor of `x`, and `g2` changes only activations, into values it holds
/// for the ancestors changed, the ancestor at position `q` of `ord` has the
/// same activation in both.
proof fn lemma_ancestor_agrees<S: Scalar>(g1: Seq<Node<S>>, g2: Seq<Node<S>>, x: int, ord: Seq<usize>, q: int)
    requires
        nodes_wf(g1),
        activations_only(g1, g2),
        is_topo_order(g1, ord),
        forall|v: usize| v < g1.len() ==> #[trigger] ord.contains(v),
        0 <= x < g1.len(),
        settled(g1, x),
        changes_evaluated(g1, g2, x),
        0 <= q < g1.len(),
        downstream_of(g1, ord[q] as int, x),
    ensures
        g2[ord[q] as int].activation == g1[ord[q] as int].activation,
    decreases q,
{
    let u = ord[q] as int;
    if g1[u].kind.has_inputs() && g2[u].activation != g1[u].activation {
        assert(g2[u] != g1[u]);
        assert forall|k: int| 0 <= k < g1[u].inputs@.len() implies (#[trigger] g1[u].inputs@[k]).node < g1.len() by {}
        assert forall|k: int|
            0 <= k < g1[u].inputs@.len() implies g1[(#[trigger] g1[u].inputs@[k]).node as int].activation
                == g2[g1[u].inputs@[k].node as int].activation by {
            let w = g1[u].inputs@[k].node;
            assert(wired(g1[u], w as int));
            assert(feeds(g1[w as int], u));
            lemma_downstream_prepend(g1, w as int, u, x);
            assert(ord.contains(w));
            let r = choose|r: int| 0 <= r < ord.len() && ord[r] == w;
            assert(wired(g1[ord[q] as int], ord[r] as int));
            lemma_ancestor_agrees(g1, g2, x, ord, r);
        }
        lemma_node_value_frame(g1, g2, u);
    }
}

/// Where `g1` holds the value of every ancestor of `x`, and `g2` changes only
/// activations, into values it holds for the ancestors changed, every
/// ancestor keeps its activation and `g2` holds the value of every ancestor
/// of `x` too.
pub proof fn lemma_settled_kept<S: Scalar>(g1: Seq<Node<S>>, g2: Seq<Node<S>>, x: int)
    requires
        nodes_wf(g1),
        acyclic(g1),
        g1.len() <= usize::MAX,
        activations_only(g1, g2),
        0 <= x < g1.len(),
        settled(g1, x),
        changes_evaluated(g1, g2, x),
    ensures
        settled(g2, x),
        forall|u: int| 0 <= u < g1.len() && downstream_of(g1, u, x) ==> #[trigger] g2[u].activation == g1[u].activation,
{
    let ord = choose|ord: Seq<usize>| is_topo_order(g1, ord);
    lemma_topo_order_covers(g1, ord);
    assert forall|u: int| 0 <= u < g1.len() && downstream_of(g1, u, x) implies #[trigger] g2[u].activation
        == g1[u].activation by {
        assert(ord.contains(u as usize));
        let q = choose|q: int| 0 <= q < ord.len() && ord[q] == u as usize;
        lemma_ancestor_agrees(g1, g2, x, ord, q);
    }
    lemma_activations_only_wf(g1, g2);
    lemma_activations_only_symmetric(g1, g2);
    assert forall|i: int|
        0 <= i < g2.len() && downstream_of(g2, i, x) && g2[i].kind.has_inputs() implies (#[trigger] g2[i]).activation
            == node_value(g2, i) by {
        lemma_downstream_same_structure(g1, g2, i, x);
        assert forall|k: int| 0 <= k < g1[i].inputs@.len() implies (#[trigger] g1[i].inputs@[k]).node < g1.len() by {}
        assert forall|k: int|
            0 <= k < g1[i].inputs@.len() implies g1[(#[trigger] g1[i].inputs@[k]).node as int].activation
                == g2[g1[i].inputs@[k].node as int].activation by {
            let w = g1[i].inputs@[k].node;
            assert(wired(g1[i], w as int));
            assert(feeds(g1[w as int], i));
            lemma_downstream_prepend(g1, w as int, i, x);
        }
        lemma_node_value_frame(g1, g2, i);
    }
}

/// Every node is an ancestor of itself.
pub proof fn lemma_downstream_self<S>(g: Seq<Node<S>>, x: int)
    requires
        0 <= x < g.len(),
    ensures
        downstream_of(g, x, x),
{
    let path = seq![x];
    assert(is_path(g, path));
    assert(path.last() == x);
}

/// After a successful `activation` of `id`, every ancestor of `id` holds the
/// value it evaluates to.
pub proof fn lemma_activated_settled<S: Scalar>(g0: Seq<Node<S>>, g1: Seq<Node<S>>, id: int, r: Result<S, GraphError>)
    requires
        nodes_wf(g0),
        activated(g0, g1, id, r),
        r is Ok,
    ensures
        settled(g1, id),
{
    lemma_activations_only_wf(g0, g1);
    assert forall|i: int|
        0 <= i < g1.len() && downstream_of(g1, i, id) && g1[i].kind.has_inputs() implies (#[trigger] g1[i]).activation
            == node_value(g1, i) by {
        lemma_downstream_same_structure(g0, g1, i, id);
        assert(g1[i].kind == g0[i].kind);
    }
}

/// Idempotence: evaluating node `id` again right after evaluating it returns
/// the same value; forward evaluation keeps no state that accumulates.
pub proof fn lemma_activation_idempotent<S: Scalar>(
    g0: Seq<Node<S>>,
    g1: Seq<Node<S>>,
    g2: Seq<Node<S>>,
    id: int,
    r1: Result<S, GraphError>,
    r2: Result<S, GraphError>,
)
    requires
        nodes_wf(g0),
        g0.len() <= usize::MAX,
        0 <= id < g0.len(),
        activated(g0, g1, id, r1),
        r1 is Ok,
        activated(g1, g2, id, r2),
    ensures
        r2 == r1,
{
    lemma_activations_only_wf(g0, g1);
    lemma_activations_only_same_acyclic(g0, g1);
    lemma_activated_settled(g0, g1, id, r1);
    lemma_settled_kept(g1, g2, id);
    lemma_downstream_self(g1, id);
}

impl<S: Scalar> Graph<S> {
    /// Recomputes and caches node `id`'s activation from its ancestors, and
    /// returns it. Input and Constant nodes give their stored value; a Sum node
    /// gives the sum of its producers' activations times the edge weights; a
    /// Sigmoid node gives the logistic function of that sum. Every ancestor's
    /// cached activation is recomputed on the way. Fails, changing nothing,
    /// when the wiring holds a cycle.
    pub fn activation(&mut self, id: usize) -> (r: Result<S, GraphError>)
        requires
            old(self).wf(),
            id < old(self)@.len(),
        ensures
            final(self).wf(),
            activated(old(self)@, final(self)@, id as int, r),
    {
        match self.topological_order() {
            Ok(ord) => self.activation_in(id, &ord),
            Err(e) => Err(e),
        }
    }

    /// `activation`, along a topological order computed beforehand.
    fn activation_in(&mut self, id: usize, ord: &Vec<usize>) -> (r: Result<S, GraphError>)
        requires
            old(self).wf(),
            id < old(self)@.len(),
            is_topo_order(old(self)@, ord@),
        ensures
            final(self).wf(),
            activated(old(self)@, final(self)@, id as int, r),
            r is Ok,
    {
        let ghost g0 = self@;
        let n = self.len();
        proof {
            lemma_topo_order_covers(g0, ord@);
            assert(acyclic(g0));
        }
        // Mark the ancestors of `id`: walking the order backwards, a marked
        // node marks its producers, which come earlier.
        let mut needed: Vec<bool> = Vec::new();
        while needed.len() < n
            invariant
                needed@.len() <= n,
                forall|x: int| 0 <= x < needed@.len() ==> !#[trigger] needed@[x],
            decreases n - needed@.len(),
        {
            needed.push(false);
        }
        needed[id] = true;
        proof {
            let path = seq![id as int];
            assert(is_path(g0, path));
            assert forall|x: int| 0 <= x < n && #[trigger] needed@[x] implies downstream_of(g0, x, id as int) by {
                if x == id {
                    assert(path.last() == x);
                }
            }
        }
        let mut j: usize = n;
        while j > 0
            invariant
                self@ == g0,
                nodes_wf(g0),
                n == g0.len(),
                is_topo_order(g0, ord@),
                needed@.len() == n,
                j <= n,
                id < n,
                forall|x: int| 0 <= x < n && #[trigger] needed@[x] ==> downstream_of(g0, x, id as int),
                forall|v: usize| v < n ==> #[trigger] ord@.contains(v),
                needed@[id as int],
                forall|p: int, q: int|
                    j <= p < n && needed@[ord@[p] as int] && 0 <= q < g0[ord@[p] as int].inputs@.len()
                        ==> needed@[#[trigger] g0[ord@[p] as int].inputs@[q].node as int],
            decreases j,
        {
            j -= 1;
            let v = ord[j];
            if needed[v] {
                proof {
                    assert(needed@[v as int]);
                }
                let node = self.node(v);
                let m = node.inputs.len();
                let ghost before = needed@;
                let mut k: usize = 0;
                while k < m
                    invariant
                        nodes_wf(g0),
                        is_topo_order(g0, ord@),
                        forall|v: usize| v < n ==> #[trigger] ord@.contains(v),
                        j < n,
                        v == ord@[j as int],
                        id < n,
                        needed@[id as int],
                        forall|x: int| 0 <= x < n && #[trigger] before[x] ==> needed@[x],
                        forall|p: int| j <= p < n ==> #[trigger] needed@[ord@[p] as int] == before[ord@[p] as int],
                        forall|k2: int| 0 <= k2 < k ==> needed@[#[trigger] node.inputs@[k2].node as int],
                        v < g0.len(),
                        *node == g0[v as int],
                        m == node.inputs@.len(),
                        needed@.len() == n,
                        n == g0.len(),
                        k <= m,
                        downstream_of(g0, v as int, id as int),
                        forall|x: int| 0 <= x < n && #[trigger] needed@[x] ==> downstream_of(g0, x, id as int),
                    decreases m - k,
                {
                    proof {
                        let p = node.inputs@[k as int].node as int;
                        assert(wired(g0[v as int], p));
                        assert(feeds(g0[p], v as int));
                        lemma_downstream_prepend(g0, p, v as int, id as int);
                        assert(ord@.contains(p as usize));
                        let q = choose|q: int| 0 <= q < ord@.len() && ord@[q] == p as usize;
                        assert(wired(g0[ord@[j as int] as int], ord@[q] as int));
                        assert(q < j);
                    }
                    needed[node.inputs[k].node] = true;
                    k += 1;
                }
                proof {
                    assert forall|p: int, q: int|
                        j <= p < n && needed@[ord@[p] as int] && 0 <= q < g0[ord@[p] as int].inputs@.len()
                            implies needed@[#[trigger] g0[ord@[p] as int].inputs@[q].node as int] by {
                        if p > j {
                            assert(before[ord@[p] as int]);
                            assert(before[g0[ord@[p] as int].inputs@[q].node as int]);
                        }
                    }
                }
            }
        }
        proof {
            assert forall|x: int, q: int|
                0 <= x < n && needed@[x] && 0 <= q < g0[x].inputs@.len() implies needed@[#[trigger] g0[x].inputs@[q].node as int] by {
                assert(ord@.contains(x as usize));
                let p = choose|p: int| 0 <= p < ord@.len() && ord@[p] == x as usize;
                assert(g0[ord@[p] as int].inputs@[q] == g0[x].inputs@[q]);
            }
            assert(closed_upstream(g0, needed@));
        }
        // Evaluate the marked nodes, producers first.
        let mut j: usize = 0;
        while j < n
            invariant
                nodes_wf(g0),
                n == g0.len(),
                is_topo_order(g0, ord@),
                needed@.len() == n,
                activations_only(g0, self@),
                j <= n,
                forall|x: int| 0 <= x < n && #[trigger] needed@[x] ==> downstream_of(g0, x, id as int),
                forall|i: int| 0 <= i < n && #[trigger] self@[i] != g0[i] ==> needed@[i],
                forall|v: usize| v < n ==> #[trigger] ord@.contains(v),
                forall|p: int| j <= p < n ==> #[trigger] self@[ord@[p] as int] == g0[ord@[p] as int],
                forall|p: int|
                    0 <= p < j && needed@[ord@[p] as int] && g0[ord@[p] as int].kind.has_inputs() ==> (#[trigger] self@[ord@[p] as int]).activation
                        == node_value(self@, ord@[p] as int),
            decreases n - j,
        {
            let v = ord[j];
            proof {
                lemma_activations_only_wf(g0, self@);
            }
            if needed[v] && self.node(v).kind.accepts_inputs() {
                let value = self.evaluate_node(v);
                let ghost before = self@;
                self.set_activation(v, value);
                proof {
                    assert forall|i: int| 0 <= i < g0.len() implies {
                        &&& (#[trigger] self@[i]).name == g0[i].name
                        &&& self@[i].kind == g0[i].kind
                        &&& self@[i].inputs == g0[i].inputs
                        &&& self@[i].outputs == g0[i].outputs
                        &&& self@[i].training_state == g0[i].training_state
                        &&& !g0[i].kind.has_inputs() ==> self@[i].activation == g0[i].activation
                    } by {
                        if i != v {
                            assert(self@[i] == before[i]);
                        }
                    }
                    assert forall|i: int| 0 <= i < n && #[trigger] self@[i] != g0[i] implies needed@[i] by {
                        if i != v {
                            assert(self@[i] == before[i]);
                        }
                    }
                    assert forall|p: int| j + 1 <= p < n implies #[trigger] self@[ord@[p] as int] == g0[ord@[p] as int] by {
                        assert(ord@[p] != v);
                        assert(self@[ord@[p] as int] == before[ord@[p] as int]);
                    }
                    assert forall|p: int|
                        0 <= p < j + 1 && needed@[ord@[p] as int] && g0[ord@[p] as int].kind.has_inputs() implies (#[trigger] self@[ord@[p] as int]).activation
                            == node_value(self@, ord@[p] as int) by {
                        let u = ord@[p] as int;
                        self.lemma_producers_before(g0, ord@, before, u, p, j as int);
                        if p < j {
                            assert(self@[u] == before[u]);
                        }
                    }
                }
            } else {
                proof {
                    assert forall|p: int|
                        0 <= p < j + 1 && needed@[ord@[p] as int] && g0[ord@[p] as int].kind.has_inputs() implies (#[trigger] self@[ord@[p] as int]).activation
                            == node_value(self@, ord@[p] as int) by {
                        if p == j {
                            assert(self@[v as int] == g0[v as int]);
                            assert(false);
                        }
                    }
                }
            }
            j += 1;
        }
        proof {
            lemma_activations_only_wf(g0, self@);
            assert forall|i: int|
                0 <= i < g0.len() && downstream_of(g0, i, id as int) && g0[i].kind.has_inputs() implies (#[trigger] self@[i]).activation
                    == node_value(self@, i) by {
                let path = choose|path: Seq<int>| is_path(g0, path) && path[0] == i && path.last() == id as int;
                lemma_path_needed(g0, needed@, path, 0);
                assert(ord@.contains(i as usize));
                let p = choose|p: int| 0 <= p < ord@.len() && ord@[p] == i as usize;
                assert(needed@[ord@[p] as int]);
            }
        }
        Ok(self.last_activation(id))
    }

    /// Evaluates each node of `ids` in turn (see `activation`) and returns
    /// their activations in the same order; fails, changing nothing, when the
    /// wiring holds a cycle.
    pub fn evaluate(&mut self, ids: &Vec<usize>) -> (r: Result<Vec<S>, GraphError>)
        requires
            old(self).wf(),
            forall|k: int| 0 <= k < ids@.len() ==> #[trigger] ids@[k] < old(self)@.len(),
        ensures
            final(self).wf(),
            activations_only(old(self)@, final(self)@),
            r is Ok <==> acyclic(old(self)@),
            r is Err ==> r == Err::<Vec<S>, GraphError>(GraphError::CycleDetected) && final(self)@ == old(self)@,
            r is Ok ==> r->Ok_0@.len() == ids@.len(),
            r is Ok ==> forall|k: int|
                0 <= k < ids@.len() ==> #[trigger] r->Ok_0@[k] == final(self)@[ids@[k] as int].activation
                    && settled(final(self)@, ids@[k] as int),
            forall|i: int|
                0 <= i < old(self)@.len() && #[trigger] final(self)@[i] != old(self)@[i] ==> exists|k: int|
                    0 <= k < ids@.len() && downstream_of(old(self)@, i, #[trigger] ids@[k] as int),
    {
        let ord = match self.topological_order() {
            Ok(ord) => ord,
            Err(e) => {
                return Err(e);
            },
        };
        let count: usize = self.len();
        let mut values: Vec<S> = Vec::new();
        let mut k: usize = 0;
        while k < ids.len()
            invariant
                self.wf(),
                nodes_wf(old(self)@),
                forall|k: int| 0 <= k < ids@.len() ==> #[trigger] ids@[k] < old(self)@.len(),
                activations_only(old(self)@, self@),
                k <= ids@.len(),
                values@.len() == k,
                k > 0 ==> acyclic(old(self)@),
                k == 0 ==> self@ == old(self)@,
                is_topo_order(old(self)@, ord@),
                acyclic(old(self)@),
                self@.len() == count,
                forall|q: int|
                    0 <= q < k ==> #[trigger] values@[q] == self@[ids@[q] as int].activation && settled(self@, ids@[q] as int),
                forall|i: int|
                    0 <= i < old(self)@.len() && #[trigger] self@[i] != old(self)@[i] ==> exists|q: int|
                        0 <= q < k && downstream_of(old(self)@, i, #[trigger] ids@[q] as int),
            decreases ids@.len() - k,
        {
            let ghost before = self@;
            proof {
                lemma_activations_only_same_acyclic(old(self)@, self@);
            }
            proof {
                lemma_topo_order_same_wiring(old(self)@, self@, ord@);
            }
            let r = self.activation_in(ids[k], &ord);
            let ghost values0 = values@;
            match r {
                Ok(v) => values.push(v),
                Err(e) => {
                    return Err(e);
                },
            }
            proof {
                let x = ids@[k as int] as int;
                lemma_activated_settled(before, self@, x, r);
                assert forall|q: int|
                    0 <= q < k + 1 implies #[trigger] values@[q] == self@[ids@[q] as int].activation && settled(self@, ids@[q] as int) by {
                    if q < k {
                        let y = ids@[q] as int;
                        assert(values@[q] == values0[q]);
                        assert(changes_evaluated(before, self@, y)) by {
                            assert forall|u: int|
                                0 <= u < before.len() && downstream_of(before, u, y) && before[u].kind.has_inputs()
                                    && #[trigger] self@[u] != before[u] implies self@[u].activation == node_value(self@, u) by {
                                assert(downstream_of(before, u, x));
                            }
                        }
                        lemma_activations_only_same_acyclic(old(self)@, before);
                        lemma_settled_kept(before, self@, y);
                        lemma_downstream_self(before, y);
                    }
                }
            }
            proof {
                lemma_activations_only_trans(old(self)@, before, self@);
                assert forall|i: int|
                    0 <= i < old(self)@.len() && #[trigger] self@[i] != old(self)@[i] implies exists|q: int|
                        0 <= q < k + 1 && downstream_of(old(self)@, i, #[trigger] ids@[q] as int) by {
                    if self@[i] != before[i] {
                        lemma_activations_only_wf(old(self)@, before);
                        lemma_downstream_same_structure(old(self)@, before, i, ids@[k as int] as int);
                    } else {
                        let q = choose|q: int| 0 <= q < k && downstream_of(old(self)@, i, #[trigger] ids@[q] as int);
                        assert(downstream_of(old(self)@, i, ids@[q] as int));
                    }
                }
            }
            k += 1;
        }
        Ok(values)
    }

    /// After node `ord[j]` alone changed its activation (from `before` to the
    /// current graph), a marked node at position `p <= j` that `before` held
    /// evaluated still is (or, at `p == j`, now is) evaluated: its producers
    /// all come before it.
    proof fn lemma_producers_before(
        &self,
        g0: Seq<Node<S>>,
        ord: Seq<usize>,
        before: Seq<Node<S>>,
        u: int,
        p: int,
        j: int,
    )
        requires
            nodes_wf(g0),
            is_topo_order(g0, ord),
            forall|v: usize| v < g0.len() ==> #[trigger] ord.contains(v),
            0 <= p <= j < g0.len(),
            u == ord[p] as int,
            activations_only(g0, before),
            activations_only(g0, self@),
            forall|i: int| 0 <= i < g0.len() && i != ord[j] as int ==> #[trigger] self@[i] == before[i],
            p < j ==> before[u].activation == node_value(before, u),
            p == j ==> self@[u].activation == node_value(before, u),
        ensures
            self@[u].activation == node_value(self@, u),
    {
        let v = ord[j] as int;
        assert forall|q: int| 0 <= q < g0[u].inputs@.len() implies (#[trigger] g0[u].inputs@[q]).node < g0.len() by {}
        assert forall|q: int|
            0 <= q < self@[u].inputs@.len() implies self@[(#[trigger] self@[u].inputs@[q]).node as int].activation
                == before[self@[u].inputs@[q].node as int].activation by {
            let w = g0[u].inputs@[q].node;
            assert(self@[u].inputs == g0[u].inputs);
            assert(ord.contains(w));
            let r = choose|r: int| 0 <= r < ord.len() && ord[r] == w;
            assert(wired(g0[ord[p] as int], ord[r] as int));
            assert(r < p);
            assert(w as int != v);
        }
        assert(before[u].inputs == g0[u].inputs);
        lemma_node_value_frame(self@, before, u);
        if p < j {
            assert(u != v);
        }
    }

    /// Node `v`'s activation from its producers' cached activations: the
    /// weighted sum, through the logistic function for a Sigmoid node.
    fn evaluate_node(&self, v: usize) -> (r: S)
        requires
            self.wf(),
            v < self@.len(),
        ensures
            r == node_value(self@, v as int),
    {
        let node = self.node(v);
        let m = node.inputs.len();
        let mut sum = S::zero();
        let mut k: usize = 0;
        while k < m
            invariant
                nodes_wf(self@),
                v < self@.len(),
                *node == self@[v as int],
                m == node.inputs@.len(),
                k <= m,
                sum == weighted_sum(self@, v as int, k as nat),
            decreases m - k,
        {
            let edge = &node.inputs[k];
            assert(*edge == self@[v as int].inputs@[k as int]);
            sum = sum.plus(edge.calc_weighted_activation(self.last_activation(edge.node)));
            k += 1;
        }
        match node.kind {
            NodeKind::Sigmoid => sum.logistic(),
            _ => sum,
        }
    }
}

} // verus!
