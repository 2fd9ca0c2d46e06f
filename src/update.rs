//! The gradient-descent step on edge weights.

use vstd::prelude::*;
use crate::graph::{Graph, Node, NodeKind, nodes_wf, same_shape, same_structure, lemma_same_structure_wf};
use crate::scalar::Scalar;

verus! {

/// `g1` differs from `g0` at most in edge weights.
pub open spec fn weights_only<S>(g0: Seq<Node<S>>, g1: Seq<Node<S>>) -> bool {
    &&& same_structure(g0, g1)
    &&& forall|i: int|
        0 <= i < g0.len() ==> {
            &&& (#[trigger] g1[i]).activation == g0[i].activation
            &&& g1[i].training_state == g0[i].training_state
        }
}

/// d(loss)/d(weighted sum) of node `n`: its cached derivative, times the
/// logistic's derivative `a * (1 - a)` for a Sigmoid node whose last
/// activation is `a`.
pub open spec fn sum_gradient<S: Scalar>(n: Node<S>) -> S {
    let d = n.training_state.dloss;
    if n.kind is Sigmoid {
        let a = n.activation;
        d.spec_times(a.spec_times(S::spec_one().spec_minus(a)))
    } else {
        d
    }
}

/// The weight of node `i`'s input edge `k` after one gradient-descent step
/// of size `step` in `g`: `weight - step * (sum_gradient * producer activation)`.
pub open spec fn updated_weight<S: Scalar>(g: Seq<Node<S>>, i: int, k: int, step: S) -> S {
    let e = g[i].inputs@[k];
    e.weight.spec_minus(step.spec_times(sum_gradient(g[i]).spec_times(g[e.node as int].activation)))
}

impl<S: Scalar> Graph<S> {
    /// One gradient-descent step on the input edges of node `id`, from its
    /// cached derivative and its producers' last activations: each weight
    /// becomes `weight - step_size * gradient`, where the gradient is
    /// `dloss * producer activation` for a Sum node and
    /// `dloss * a * (1 - a) * producer activation` for a Sigmoid node whose
    /// last activation is `a`. Input and Constant nodes have no weights.
    pub fn update_weights(&mut self, id: usize, step_size: S)
        requires
            old(self).wf(),
            id < old(self)@.len(),
        ensures
            final(self).wf(),
            weights_only(old(self)@, final(self)@),
            forall|i: int| 0 <= i < old(self)@.len() && i != id ==> #[trigger] final(self)@[i] == old(self)@[i],
            !old(self)@[id as int].kind.has_inputs() ==> final(self)@ == old(self)@,
            forall|k: int|
                0 <= k < old(self)@[id as int].inputs@.len() ==> (#[trigger] final(self)@[id as int].inputs@[k]).weight
                    == updated_weight(old(self)@, id as int, k, step_size),
    {
        let node = self.node(id);
        let kind = node.kind;
        let dloss = node.training_state.dloss;
        // d(activation)/d(weighted sum) times d(loss)/d(activation).
        let dloss_dsum = match kind {
            NodeKind::Sigmoid => {
                let a = node.activation;
                dloss.times(a.times(S::one().minus(a)))
            },
            _ => dloss,
        };
        let m = node.inputs.len();
        let ghost g0 = self@;
        let mut k: usize = 0;
        while k < m
            invariant
                nodes_wf(g0),
                id < g0.len(),
                m == g0[id as int].inputs@.len(),
                k <= m,
                weights_only(g0, self@),
                forall|i: int| 0 <= i < g0.len() && i != id ==> #[trigger] self@[i] == g0[i],
                !g0[id as int].kind.has_inputs() ==> self@ == g0,
                dloss_dsum == sum_gradient(g0[id as int]),
                forall|q: int| 0 <= q < k ==> (#[trigger] self@[id as int].inputs@[q]).weight == updated_weight(g0, id as int, q, step_size),
                forall|q: int| k <= q < m ==> #[trigger] self@[id as int].inputs@[q] == g0[id as int].inputs@[q],
            decreases m - k,
        {
            proof {
                lemma_same_structure_wf(g0, self@);
            }
            let edge = self.node(id).inputs[k];
            let gradient = dloss_dsum.times(self.last_activation(edge.node));
            let ghost before = self@;
            self.set_weight(id, k, edge.weight.minus(step_size.times(gradient)));
            proof {
                assert(same_shape(before[id as int], self@[id as int])) by {
                    assert forall|q: int| 0 <= q < before[id as int].inputs@.len() implies #[trigger] before[id as int].inputs@[q].node
                        == self@[id as int].inputs@[q].node by {
                        if q != k {
                            assert(self@[id as int].inputs@[q] == before[id as int].inputs@[q]);
                        }
                    }
                }
                assert forall|i: int| 0 <= i < g0.len() implies same_shape(#[trigger] g0[i], self@[i]) by {
                    assert(same_shape(g0[i], before[i]));
                    if i != id {
                        assert(self@[i] == before[i]);
                    } else {
                        assert forall|q: int| 0 <= q < g0[i].inputs@.len() implies #[trigger] g0[i].inputs@[q].node
                            == self@[i].inputs@[q].node by {
                            assert(before[i].inputs@[q].node == g0[i].inputs@[q].node);
                            assert(before[i].inputs@[q].node == self@[i].inputs@[q].node);
                        }
                    }
                }
                assert forall|i: int| 0 <= i < g0.len() implies (#[trigger] self@[i]).activation == g0[i].activation
                    && self@[i].training_state == g0[i].training_state by {
                    if i != id {
                        assert(self@[i] == before[i]);
                    }
                }
                assert(before[edge.node as int].activation == g0[edge.node as int].activation);
                assert forall|q: int| 0 <= q < k + 1 implies (#[trigger] self@[id as int].inputs@[q]).weight == updated_weight(g0, id as int, q, step_size) by {
                    if q < k {
                        assert(self@[id as int].inputs@[q] == before[id as int].inputs@[q]);
                    }
                }
                assert forall|q: int| k + 1 <= q < m implies #[trigger] self@[id as int].inputs@[q] == g0[id as int].inputs@[q] by {
                    assert(self@[id as int].inputs@[q] == before[id as int].inputs@[q]);
                }
            }
            k += 1;
        }
        proof {
            lemma_same_structure_wf(g0, self@);
        }
    }

    /// One gradient-descent step on the weights of every node (see
    /// `update_weights`), node by node in handle order.
    pub fn apply_updates(&mut self, step_size: S)
        requires
            old(self).wf(),
        ensures
            final(self).wf(),
            weights_only(old(self)@, final(self)@),
            forall|i: int|
                0 <= i < old(self)@.len() && !old(self)@[i].kind.has_inputs() ==> #[trigger] final(self)@[i] == old(
                    self,
                )@[i],
            forall|i: int, k: int|
                0 <= i < old(self)@.len() && 0 <= k < old(self)@[i].inputs@.len() ==> (#[trigger] final(self)@[i].inputs@[k]).weight
                    == updated_weight(old(self)@, i, k, step_size),
    {
        let n = self.len();
        let mut i: usize = 0;
        while i < n
            invariant
                self.wf(),
                n == old(self)@.len(),
                i <= n,
                weights_only(old(self)@, self@),
                forall|j: int|
                    0 <= j < old(self)@.len() && !old(self)@[j].kind.has_inputs() ==> #[trigger] self@[j] == old(
                        self,
                    )@[j],
                forall|j: int| i <= j < n ==> #[trigger] self@[j] == old(self)@[j],
                forall|j: int, k: int|
                    0 <= j < i && 0 <= k < old(self)@[j].inputs@.len() ==> (#[trigger] self@[j].inputs@[k]).weight
                        == updated_weight(old(self)@, j, k, step_size),
            decreases n - i,
        {
            let ghost before = self@;
            self.update_weights(i, step_size);
            proof {
                assert forall|j: int| 0 <= j < n implies same_shape(#[trigger] old(self)@[j], self@[j]) by {
                    assert(same_shape(old(self)@[j], before[j]));
                    assert(same_shape(before[j], self@[j]));
                    assert forall|q: int| 0 <= q < old(self)@[j].inputs@.len() implies #[trigger] old(self)@[j].inputs@[q].node
                        == self@[j].inputs@[q].node by {
                        assert(old(self)@[j].inputs@[q].node == before[j].inputs@[q].node);
                        assert(before[j].inputs@[q].node == self@[j].inputs@[q].node);
                    }
                }
                assert forall|j: int|
                    0 <= j < old(self)@.len() && !old(self)@[j].kind.has_inputs() implies #[trigger] self@[j] == old(
                        self,
                    )@[j] by {
                    assert(before[j] == old(self)@[j]);
                    if j != i {
                        assert(self@[j] == before[j]);
                    }
                }
                assert forall|j: int| 0 <= j < n implies (#[trigger] self@[j]).activation == old(self)@[j].activation
                    && self@[j].training_state == old(self)@[j].training_state by {
                    assert(before[j].activation == old(self)@[j].activation);
                }
                assert forall|j: int| i + 1 <= j < n implies #[trigger] self@[j] == old(self)@[j] by {
                    assert(self@[j] == before[j]);
                }
                assert forall|j: int, k: int|
                    0 <= j < i + 1 && 0 <= k < old(self)@[j].inputs@.len() implies (#[trigger] self@[j].inputs@[k]).weight
                        == updated_weight(old(self)@, j, k, step_size) by {
                    if j < i {
                        assert(self@[j] == before[j]);
                    } else {
                        let p = old(self)@[j].inputs@[k].node as int;
                        assert(old(self)@[j].inputs@[k] == before[j].inputs@[k]);
                        assert(0 <= p < n);
                        assert(before[p].activation == old(self)@[p].activation);
                        assert(updated_weight(before, j, k, step_size) == updated_weight(old(self)@, j, k, step_size));
                    }
                }
            }
            i += 1;
        }
    }
}

} // verus!
