//! Reverse-mode differentiation: d(loss)/d(activation) for every node,
//! memoized per iteration token.

use vstd::prelude::*;
use crate::graph::{local_derivative_spec, input_index, Graph, GraphError, Node, TrainingState, downstream_of, is_path, lemma_downstream_step, lemma_downstream_same_structure, feeds, nodes_wf, same_shape, same_structure, lemma_same_structure_wf, wired};
use crate::order::{acyclic, is_topo_order, lemma_topo_order_covers, lemma_topo_order_same_wiring};
use crate::scalar::Scalar;

verus! {

/// The boundary condition of one backward pass: its iteration token, and
/// d(loss)/d(activation) for the designated output nodes, by name.
pub struct DerivativeCalculationParams<S> {
    pub calc_derivative_iteration: i32,
    /// (node name, seeded derivative); where a name occurs twice, the first
    /// entry counts.
    pub output_nodes_loss_fn_derivative: Vec<(String, S)>,
}

/// Position `k` holds the first seed named `name`.
pub open spec fn first_seed_at<S>(seeds: Seq<(String, S)>, name: Seq<char>, k: int) -> bool {
    &&& 0 <= k < seeds.len()
    &&& seeds[k].0@ == name
    &&& forall|j: int| 0 <= j < k ==> (#[trigger] seeds[j]).0@ != name
}

/// The seeded derivative for `name`, if any.
pub open spec fn seed_for<S>(seeds: Seq<(String, S)>, name: Seq<char>) -> Option<S> {
    if exists|k: int| 0 <= k < seeds.len() && (#[trigger] seeds[k]).0@ == name {
        Some(seeds[choose|k: int| first_seed_at(seeds, name, k)].1)
    } else {
        None
    }
}

proof fn lemma_first_seed_unique<S>(seeds: Seq<(String, S)>, name: Seq<char>, k: int)
    requires
        first_seed_at(seeds, name, k),
    ensures
        seed_for(seeds, name) == Some(seeds[k].1),
{
    assert(0 <= k < seeds.len() && seeds[k].0@ == name);
    let k2 = choose|k: int| first_seed_at(seeds, name, k);
    assert(first_seed_at(seeds, name, k2));
    if k2 < k {
        assert(seeds[k2].0@ != name);
    } else if k < k2 {
        assert(seeds[k].0@ != name);
    }
}

impl<S: Scalar> DerivativeCalculationParams<S> {
    /// Seeds each named output node with `derivative_fn(name)`.
    pub fn new<F: Fn(&str) -> S>(
        calc_derivative_iteration: i32,
        output_layer_node_names: Vec<String>,
        derivative_fn: F,
    ) -> (r: Self)
        requires
            forall|s: &str| derivative_fn.requires((s,)),
        ensures
            r.calc_derivative_iteration == calc_derivative_iteration,
            r.output_nodes_loss_fn_derivative@.len() == output_layer_node_names@.len(),
            forall|k: int|
                0 <= k < output_layer_node_names@.len() ==> {
                    &&& (#[trigger] r.output_nodes_loss_fn_derivative@[k]).0@ == output_layer_node_names@[k]@
                    &&& exists|s: &str|
                        s@ == output_layer_node_names@[k]@ && derivative_fn.ensures(
                            (s,),
                            r.output_nodes_loss_fn_derivative@[k].1,
                        )
                },
    {
        let mut seeds: Vec<(String, S)> = Vec::new();
        let mut k: usize = 0;
        while k < output_layer_node_names.len()
            invariant
                forall|s: &str| derivative_fn.requires((s,)),
                k <= output_layer_node_names@.len(),
                seeds@.len() == k,
                forall|j: int|
                    0 <= j < k ==> {
                        &&& (#[trigger] seeds@[j]).0@ == output_layer_node_names@[j]@
                        &&& exists|s: &str|
                            s@ == output_layer_node_names@[j]@ && derivative_fn.ensures((s,), seeds@[j].1)
                    },
            decreases output_layer_node_names@.len() - k,
        {
            let name = &output_layer_node_names[k];
            let key = name.as_str();
            let value = derivative_fn(key);
            let ghost before = seeds@;
            seeds.push((name.clone(), value));
            proof {
                assert(key@ == output_layer_node_names@[k as int]@);
                assert forall|j: int| 0 <= j < k + 1 implies {
                    &&& (#[trigger] seeds@[j]).0@ == output_layer_node_names@[j]@
                    &&& exists|s: &str|
                        s@ == output_layer_node_names@[j]@ && derivative_fn.ensures((s,), seeds@[j].1)
                } by {
                    if j < k {
                        assert(seeds@[j] == before[j]);
                    } else {
                        assert(derivative_fn.ensures((key,), seeds@[j].1));
                    }
                }
            }
            k += 1;
        }
        DerivativeCalculationParams { calc_derivative_iteration, output_nodes_loss_fn_derivative: seeds }
    }

    /// The seeded derivative for `name`, if any.
    pub fn seed(&self, name: &String) -> (r: Option<S>)
        ensures
            r == seed_for(self.output_nodes_loss_fn_derivative@, name@),
    {
        let mut k: usize = 0;
        while k < self.output_nodes_loss_fn_derivative.len()
            invariant
                k <= self.output_nodes_loss_fn_derivative@.len(),
                forall|j: int| 0 <= j < k ==> (#[trigger] self.output_nodes_loss_fn_derivative@[j]).0@ != name@,
            decreases self.output_nodes_loss_fn_derivative@.len() - k,
        {
            if self.output_nodes_loss_fn_derivative[k].0 == *name {
                proof {
                    lemma_first_seed_unique(self.output_nodes_loss_fn_derivative@, name@, k as int);
                }
                return Some(self.output_nodes_loss_fn_derivative[k].1);
            }
            k += 1;
        }
        None
    }
}

/// The sum over the first `k` consumers `c` of node `v` of the derivative of
/// `c` against `v` times `c`'s cached derivative, added up in output order
/// from zero.
pub open spec fn chain_sum_spec<S: Scalar>(g: Seq<Node<S>>, v: int, k: nat) -> S
    decreases k,
{
    if k == 0 {
        S::spec_zero()
    } else {
        let c = g[v].outputs@[k - 1] as int;
        chain_sum_spec(g, v, (k - 1) as nat).spec_plus(
            local_derivative_spec(g[c], input_index(g[c], v)).spec_times(g[c].training_state.dloss),
        )
    }
}

/// d(loss)/d(activation) of node `v` by the chain rule over all its consumers
/// in `g`.
pub open spec fn chain_value<S: Scalar>(g: Seq<Node<S>>, v: int) -> S {
    chain_sum_spec(g, v, g[v].outputs@.len())
}

/// The chain-rule sum of node `v` reads only its output links and its
/// consumers.
proof fn lemma_chain_frame<S: Scalar>(g1: Seq<Node<S>>, g2: Seq<Node<S>>, v: int, k: nat)
    requires
        0 <= v < g1.len(),
        g1.len() == g2.len(),
        g1[v].outputs == g2[v].outputs,
        k <= g1[v].outputs@.len(),
        forall|q: int| 0 <= q < g1[v].outputs@.len() ==> (#[trigger] g1[v].outputs@[q]) < g1.len(),
        forall|q: int|
            0 <= q < g1[v].outputs@.len() ==> g1[(#[trigger] g1[v].outputs@[q]) as int] == g2[g1[v].outputs@[q] as int],
    ensures
        chain_sum_spec(g1, v, k) == chain_sum_spec(g2, v, k),
    decreases k,
{
    if k > 0 {
        lemma_chain_frame(g1, g2, v, (k - 1) as nat);
        let c = g1[v].outputs@[k - 1] as int;
        assert(g1[c] == g2[c]);
    }
}

/// `u` lists every node newly marked with `p`'s token since `g0` that has no
/// consumers and no seeded derivative in `p`.
pub open spec fn notes_unseeded<S: Scalar>(
    g0: Seq<Node<S>>,
    g: Seq<Node<S>>,
    p: DerivativeCalculationParams<S>,
    u: Seq<usize>,
) -> bool {
    forall|i: int|
        0 <= i < g0.len() && g0[i].training_state.calc_derivative_iteration != p.calc_derivative_iteration
            && (#[trigger] g[i]).training_state.calc_derivative_iteration == p.calc_derivative_iteration
            && g[i].outputs@.len() == 0 && seed_for(p.output_nodes_loss_fn_derivative@, g[i].name@) is None
            ==> u.contains(i as usize)
}

/// A pass that starts where no node carries its token marks every node
/// downstream of a node it marked.
proof fn lemma_pass_reaches<S: Scalar>(
    g0: Seq<Node<S>>,
    g1: Seq<Node<S>>,
    p: DerivativeCalculationParams<S>,
    path: Seq<int>,
    k: int,
)
    requires
        nodes_wf(g0),
        training_only(g0, g1),
        marks_pass(g0, g1, p),
        forall|j: int| 0 <= j < g0.len() ==> (#[trigger] g0[j]).training_state.calc_derivative_iteration != p.calc_derivative_iteration,
        is_path(g0, path),
        g1[path[0]].training_state.calc_derivative_iteration == p.calc_derivative_iteration,
        0 <= k < path.len(),
    ensures
        g1[path[k]].training_state.calc_derivative_iteration == p.calc_derivative_iteration,
    decreases k,
{
    if k > 0 {
        lemma_pass_reaches(g0, g1, p, path, k - 1);
        let a = path[k - 1];
        assert(feeds(g0[a], path[k]));
        assert(g1[a].outputs == g0[a].outputs);
        assert(feeds(g1[a], path[k]));
        assert(g0[a].training_state.calc_derivative_iteration != p.calc_derivative_iteration);
    }
}

/// In `g`, every node newly marked with `it` since `g0` that has consumers
/// holds the chain-rule sum over them.
pub open spec fn chain_holds<S: Scalar>(g0: Seq<Node<S>>, g: Seq<Node<S>>, it: i32) -> bool {
    forall|i: int|
        0 <= i < g0.len() && g0[i].training_state.calc_derivative_iteration != it
            && (#[trigger] g[i]).training_state.calc_derivative_iteration == it && g[i].outputs@.len() > 0
            ==> g[i].training_state.dloss == chain_value(g, i)
}

/// Giving node `ord[j]` its derivative (from `before` to `after`) keeps the
/// chain-rule sums of the nodes marked earlier in the backward walk: their
/// consumers, like those of `ord[j]`, come later in the order.
proof fn lemma_chain_step<S: Scalar>(
    g0: Seq<Node<S>>,
    ord: Seq<usize>,
    before: Seq<Node<S>>,
    after: Seq<Node<S>>,
    j: int,
    it: i32,
)
    requires
        nodes_wf(g0),
        is_topo_order(g0, ord),
        forall|v: usize| v < g0.len() ==> #[trigger] ord.contains(v),
        0 <= j < g0.len(),
        training_only(g0, before),
        training_only(g0, after),
        forall|i: int| 0 <= i < g0.len() && i != ord[j] as int ==> #[trigger] after[i] == before[i],
        forall|p: int| 0 <= p <= j ==> #[trigger] before[ord[p] as int] == g0[ord[p] as int],
        chain_holds(g0, before, it),
        after[ord[j] as int].outputs@.len() > 0 ==> after[ord[j] as int].training_state.dloss == chain_value(
            before,
            ord[j] as int,
        ),
    ensures
        chain_holds(g0, after, it),
{
    let v = ord[j] as int;
    assert forall|i: int|
        0 <= i < g0.len() && g0[i].training_state.calc_derivative_iteration != it
            && (#[trigger] after[i]).training_state.calc_derivative_iteration == it && after[i].outputs@.len() > 0
            implies after[i].training_state.dloss == chain_value(after, i) by {
        assert(ord.contains(i as usize));
        let q = choose|q: int| 0 <= q < ord.len() && ord[q] == i as usize;
        if i != v {
            assert(after[i] == before[i]);
            assert(before[i] != g0[i]);
            assert(q > j);
        } else {
            assert(q == j);
        }
        assert(after[i].outputs == g0[i].outputs);
        assert forall|k: int| 0 <= k < after[i].outputs@.len() implies (#[trigger] after[i].outputs@[k]) < after.len() by {
            assert(g0[i].outputs@[k] < g0.len());
        }
        assert forall|k: int|
            0 <= k < after[i].outputs@.len() implies after[(#[trigger] after[i].outputs@[k]) as int] == before[after[i].outputs@[k] as int] by {
            let c = g0[i].outputs@[k];
            assert(feeds(g0[i], c as int));
            assert(wired(g0[c as int], i));
            assert(ord.contains(c));
            let r = choose|r: int| 0 <= r < ord.len() && ord[r] == c;
            assert(wired(g0[ord[r] as int], ord[q] as int));
            assert(r > q);
            assert(c as int != v);
        }
        assert(before[i].outputs == after[i].outputs);
        lemma_chain_frame(after, before, i, after[i].outputs@.len());
    }
}

/// `g1` differs from `g0` at most in training states.
pub open spec fn training_only<S>(g0: Seq<Node<S>>, g1: Seq<Node<S>>) -> bool {
    &&& g1.len() == g0.len()
    &&& forall|i: int|
        0 <= i < g0.len() ==> {
            &&& (#[trigger] g1[i]).name == g0[i].name
            &&& g1[i].kind == g0[i].kind
            &&& g1[i].activation == g0[i].activation
            &&& g1[i].inputs == g0[i].inputs
            &&& g1[i].outputs == g0[i].outputs
        }
}

/// The effect of a backward pass with token `it` on the training states of
/// `g0`, giving `g1`: a node already marked with `it` keeps its state; a node
/// whose state changes gets marked with `it`; a newly marked node's
/// consumers are all marked; a newly marked node without consumers takes its
/// seeded derivative, or zero where none is seeded; and a newly marked node
/// with consumers takes the chain-rule sum over them.
pub open spec fn marks_pass<S: Scalar>(g0: Seq<Node<S>>, g1: Seq<Node<S>>, p: DerivativeCalculationParams<S>) -> bool {
    let it = p.calc_derivative_iteration;
    &&& forall|i: int|
        0 <= i < g0.len() && (#[trigger] g0[i]).training_state.calc_derivative_iteration == it ==> g1[i] == g0[i]
    &&& forall|i: int|
        0 <= i < g0.len() && (#[trigger] g1[i]).training_state != g0[i].training_state
            ==> g1[i].training_state.calc_derivative_iteration == it
    &&& forall|i: int, c: int|
        0 <= i < g0.len() && 0 <= c < g0.len() && g0[i].training_state.calc_derivative_iteration != it
            && (#[trigger] g1[i]).training_state.calc_derivative_iteration == it && feeds(g1[i], c)
            ==> (#[trigger] g1[c]).training_state.calc_derivative_iteration == it
    &&& forall|i: int|
        0 <= i < g0.len() && g0[i].training_state.calc_derivative_iteration != it
            && (#[trigger] g1[i]).training_state.calc_derivative_iteration == it && g1[i].outputs@.len() == 0
            && seed_for(p.output_nodes_loss_fn_derivative@, g1[i].name@) is Some
            ==> g1[i].training_state.dloss == seed_for(p.output_nodes_loss_fn_derivative@, g1[i].name@)->Some_0
    &&& forall|i: int|
        0 <= i < g0.len() && g0[i].training_state.calc_derivative_iteration != it
            && (#[trigger] g1[i]).training_state.calc_derivative_iteration == it && g1[i].outputs@.len() == 0
            && seed_for(p.output_nodes_loss_fn_derivative@, g1[i].name@) is None
            ==> g1[i].training_state.dloss == S::spec_zero()
    &&& forall|i: int|
        0 <= i < g0.len() && g0[i].training_state.calc_derivative_iteration != it
            && (#[trigger] g1[i]).training_state.calc_derivative_iteration == it && g1[i].outputs@.len() > 0
            ==> g1[i].training_state.dloss == chain_value(g1, i)
}

/// Changing training states only keeps the arena invariant.
pub proof fn lemma_training_only_wf<S>(g0: Seq<Node<S>>, g1: Seq<Node<S>>)
    requires
        nodes_wf(g0),
        training_only(g0, g1),
    ensures
        nodes_wf(g1),
        same_structure(g0, g1),
{
    assert forall|i: int| 0 <= i < g0.len() implies same_shape(#[trigger] g0[i], g1[i]) by {
        assert(g1[i].inputs == g0[i].inputs);
    }
    lemma_same_structure_wf(g0, g1);
}

/// Node `u` has no consumers and no seeded derivative in `p`, and was given
/// zero in the pass that `p` names.
pub open spec fn left_unseeded<S: Scalar>(g: Seq<Node<S>>, p: DerivativeCalculationParams<S>, u: int) -> bool {
    &&& 0 <= u < g.len()
    &&& g[u].outputs@.len() == 0
    &&& seed_for(p.output_nodes_loss_fn_derivative@, g[u].name@) is None
    &&& g[u].training_state.calc_derivative_iteration == p.calc_derivative_iteration
}

/// Marks closed under consumers reach every node on a path from a mark.
proof fn lemma_path_marked<S>(g: Seq<Node<S>>, reached: Seq<bool>, path: Seq<int>, k: int)
    requires
        closed_downstream(g, reached),
        is_path(g, path),
        reached[path[0]],
        0 <= k < path.len(),
    ensures
        reached[path[k]],
    decreases k,
{
    if k > 0 {
        lemma_path_marked(g, reached, path, k - 1);
        let v = path[k - 1];
        assert(feeds(g[v], path[k]));
        let q = choose|q: int| 0 <= q < g[v].outputs@.len() && g[v].outputs@[q] as int == path[k];
        assert(reached[g[v].outputs@[q] as int]);
    }
}


/// Every consumer of a marked node is marked.
pub open spec fn closed_downstream<S>(g: Seq<Node<S>>, reached: Seq<bool>) -> bool {
    forall|i: int, k: int|
        0 <= i < g.len() && reached[i] && 0 <= k < g[i].outputs@.len() ==> reached[#[trigger] g[i].outputs@[k] as int]
}

/// The outcome `r` of `propagate` from `id` with `p` on `g0`, giving `g1`.
pub open spec fn propagated<S: Scalar>(
    g0: Seq<Node<S>>,
    g1: Seq<Node<S>>,
    p: DerivativeCalculationParams<S>,
    id: int,
    r: Result<S, GraphError>,
) -> bool {
    let it = p.calc_derivative_iteration;
    &&& training_only(g0, g1)
    &&& marks_pass(g0, g1, p)
    &&& g0[id].training_state.calc_derivative_iteration == it ==> g1 == g0 && r == Ok::<S, GraphError>(
        g0[id].training_state.dloss,
    )
    &&& r is Ok <==> (g0[id].training_state.calc_derivative_iteration == it || acyclic(g0))
    &&& r is Err ==> r == Err::<S, GraphError>(GraphError::CycleDetected) && g1 == g0
    &&& r is Ok ==> g1[id].training_state.calc_derivative_iteration == it && r->Ok_0 == g1[id].training_state.dloss
    &&& forall|i: int| 0 <= i < g0.len() && #[trigger] g1[i] != g0[i] ==> downstream_of(g0, id, i)
    &&& r is Ok && g0[id].training_state.calc_derivative_iteration != it ==> forall|i: int|
        0 <= i < g0.len() && downstream_of(g0, id, i) ==> (#[trigger] g1[i]).training_state.calc_derivative_iteration
            == it
}

/// Memoization: once `propagate` from a node has succeeded for an iteration
/// token, propagating from that node again with the same token changes
/// nothing and returns the same derivative.
pub proof fn lemma_propagate_memoized<S: Scalar>(
    g0: Seq<Node<S>>,
    g1: Seq<Node<S>>,
    g2: Seq<Node<S>>,
    p: DerivativeCalculationParams<S>,
    id: int,
    r1: Result<S, GraphError>,
    r2: Result<S, GraphError>,
)
    requires
        nodes_wf(g0),
        0 <= id < g0.len(),
        propagated(g0, g1, p, id, r1),
        r1 is Ok,
        propagated(g1, g2, p, id, r2),
    ensures
        g2 == g1,
        r2 == r1,
{
}

/// Two passes with the same parameters, one after the other, make one pass.
pub proof fn lemma_passes_compose<S: Scalar>(
    g0: Seq<Node<S>>,
    g1: Seq<Node<S>>,
    g2: Seq<Node<S>>,
    p: DerivativeCalculationParams<S>,
)
    requires
        nodes_wf(g0),
        training_only(g0, g1),
        marks_pass(g0, g1, p),
        training_only(g1, g2),
        marks_pass(g1, g2, p),
    ensures
        training_only(g0, g2),
        marks_pass(g0, g2, p),
{
    let it = p.calc_derivative_iteration;
    assert forall|i: int| 0 <= i < g0.len() implies {
        &&& (#[trigger] g2[i]).name == g0[i].name
        &&& g2[i].kind == g0[i].kind
        &&& g2[i].activation == g0[i].activation
        &&& g2[i].inputs == g0[i].inputs
        &&& g2[i].outputs == g0[i].outputs
    } by {
        assert(g1[i].name == g0[i].name);
    }
    assert forall|i: int|
        0 <= i < g0.len() && (#[trigger] g0[i]).training_state.calc_derivative_iteration == it implies g2[i] == g0[i] by {
        assert(g1[i] == g0[i]);
        assert(g1[i].training_state.calc_derivative_iteration == it);
    }
    assert forall|i: int|
        0 <= i < g0.len() && (#[trigger] g2[i]).training_state != g0[i].training_state
            implies g2[i].training_state.calc_derivative_iteration == it by {
        if g2[i].training_state == g1[i].training_state {
            assert(g1[i].training_state != g0[i].training_state);
        }
    }
    assert forall|i: int, c: int|
        0 <= i < g0.len() && 0 <= c < g0.len() && g0[i].training_state.calc_derivative_iteration != it
            && (#[trigger] g2[i]).training_state.calc_derivative_iteration == it && feeds(g2[i], c)
            implies (#[trigger] g2[c]).training_state.calc_derivative_iteration == it by {
        assert(g1[i].outputs == g0[i].outputs);
        assert(g2[i].outputs == g1[i].outputs);
        if g1[i].training_state.calc_derivative_iteration == it {
            assert(g2[i] == g1[i]);
            assert(feeds(g1[i], c));
            assert(g1[c].training_state.calc_derivative_iteration == it);
            if 0 <= c < g0.len() {
                assert(g2[c] == g1[c]);
            }
        } else {
            assert(feeds(g2[i], c));
        }
    }
    assert forall|i: int|
        0 <= i < g0.len() && g0[i].training_state.calc_derivative_iteration != it
            && (#[trigger] g2[i]).training_state.calc_derivative_iteration == it && g2[i].outputs@.len() == 0
            && seed_for(p.output_nodes_loss_fn_derivative@, g2[i].name@) is Some
            implies g2[i].training_state.dloss == seed_for(p.output_nodes_loss_fn_derivative@, g2[i].name@)->Some_0 by {
        assert(g1[i].name == g0[i].name);
        if g1[i].training_state.calc_derivative_iteration == it {
            assert(g2[i] == g1[i]);
        }
    }
    assert forall|i: int|
        0 <= i < g0.len() && g0[i].training_state.calc_derivative_iteration != it
            && (#[trigger] g2[i]).training_state.calc_derivative_iteration == it && g2[i].outputs@.len() == 0
            && seed_for(p.output_nodes_loss_fn_derivative@, g2[i].name@) is None
            implies g2[i].training_state.dloss == S::spec_zero() by {
        assert(g1[i].name == g0[i].name);
        if g1[i].training_state.calc_derivative_iteration == it {
            assert(g2[i] == g1[i]);
        }
    }
    assert forall|i: int|
        0 <= i < g0.len() && g0[i].training_state.calc_derivative_iteration != it
            && (#[trigger] g2[i]).training_state.calc_derivative_iteration == it && g2[i].outputs@.len() > 0
            implies g2[i].training_state.dloss == chain_value(g2, i) by {
        if g1[i].training_state.calc_derivative_iteration == it {
            assert(g2[i] == g1[i]);
            assert(g1[i].outputs == g0[i].outputs);
            assert forall|k: int| 0 <= k < g1[i].outputs@.len() implies (#[trigger] g1[i].outputs@[k]) < g1.len() by {
                assert(g0[i].outputs@[k] < g0.len());
            }
            assert forall|k: int|
                0 <= k < g1[i].outputs@.len() implies g1[(#[trigger] g1[i].outputs@[k]) as int] == g2[g1[i].outputs@[k] as int] by {
                let c = g1[i].outputs@[k] as int;
                assert(g0[i].outputs@[k] < g0.len());
                assert(feeds(g1[i], c));
                assert(g1[c].training_state.calc_derivative_iteration == it);
            }
            lemma_chain_frame(g1, g2, i, g1[i].outputs@.len());
        }
    }
}

impl<S: Scalar> Graph<S> {
    /// d(loss)/d(activation) of node `id` for the pass `params` names.
    ///
    /// A node already marked with this pass's token gives its cached value at
    /// once and nothing changes. Otherwise every node downstream of `id` that
    /// is not yet marked gets its derivative and the mark: a node with
    /// consumers takes the sum over them of the consumer's derivative times
    /// the consumer's derivative against it; a node without consumers takes
    /// its seeded value, or zero where none is seeded. Fails, changing
    /// nothing, when the wiring holds a cycle.
    pub fn propagate(&mut self, id: usize, params: &DerivativeCalculationParams<S>) -> (r: Result<S, GraphError>)
        requires
            old(self).wf(),
            id < old(self)@.len(),
        ensures
            final(self).wf(),
            propagated(old(self)@, final(self)@, *params, id as int, r),
    {
        if self.node(id).training_state.calc_derivative_iteration == params.calc_derivative_iteration {
            return Ok(self.node(id).training_state.dloss);
        }
        let ord = match self.topological_order() {
            Ok(ord) => ord,
            Err(e) => {
                return Err(e);
            },
        };
        let mut unseeded: Vec<usize> = Vec::new();
        self.propagate_noting(id, params, &mut unseeded, &ord)
    }

    /// Runs `propagate` from every node of `inputs`, stopping at the first
    /// failure. Returns the nodes without consumers that had no seeded
    /// derivative and so were given zero.
    pub fn propagate_all(&mut self, inputs: &Vec<usize>, params: &DerivativeCalculationParams<S>) -> (r: Result<
        Vec<usize>,
        GraphError,
    >)
        requires
            old(self).wf(),
            forall|k: int| 0 <= k < inputs@.len() ==> #[trigger] inputs@[k] < old(self)@.len(),
        ensures
            final(self).wf(),
            training_only(old(self)@, final(self)@),
            marks_pass(old(self)@, final(self)@, *params),
            r is Ok <==> acyclic(old(self)@),
            r is Err ==> r == Err::<Vec<usize>, GraphError>(GraphError::CycleDetected) && final(self)@ == old(self)@,
            r is Ok ==> notes_unseeded(old(self)@, final(self)@, *params, r->Ok_0@),
            r is Ok && (forall|j: int|
                0 <= j < old(self)@.len() ==> (#[trigger] old(self)@[j]).training_state.calc_derivative_iteration
                    != params.calc_derivative_iteration) ==> forall|k: int, i: int|
                0 <= k < inputs@.len() && 0 <= i < old(self)@.len() && #[trigger] downstream_of(
                    old(self)@,
                    inputs@[k] as int,
                    i,
                ) ==> (#[trigger] final(self)@[i]).training_state.calc_derivative_iteration
                    == params.calc_derivative_iteration,
            r is Ok ==> forall|k: int|
                0 <= k < inputs@.len() ==> (#[trigger] final(self)@[inputs@[k] as int]).training_state.calc_derivative_iteration
                    == params.calc_derivative_iteration,
            r is Ok ==> forall|k: int| 0 <= k < r->Ok_0@.len() ==> left_unseeded(final(self)@, *params, #[trigger] r->Ok_0@[k] as int),
            forall|i: int|
                0 <= i < old(self)@.len() && #[trigger] final(self)@[i] != old(self)@[i] ==> exists|k: int|
                    0 <= k < inputs@.len() && downstream_of(old(self)@, #[trigger] inputs@[k] as int, i),
    {
        let ord = match self.topological_order() {
            Ok(ord) => ord,
            Err(e) => {
                return Err(e);
            },
        };
        proof {
            assert(is_topo_order(old(self)@, ord@));
        }
        let mut unseeded: Vec<usize> = Vec::new();
        let mut k: usize = 0;
        while k < inputs.len()
            invariant
                self.wf(),
                is_topo_order(old(self)@, ord@),
                nodes_wf(old(self)@),
                self@.len() == old(self)@.len(),
                forall|k: int| 0 <= k < inputs@.len() ==> #[trigger] inputs@[k] < old(self)@.len(),
                training_only(old(self)@, self@),
                marks_pass(old(self)@, self@, *params),
                k <= inputs@.len(),
                forall|j: int|
                    0 <= j < k ==> (#[trigger] self@[inputs@[j] as int]).training_state.calc_derivative_iteration
                        == params.calc_derivative_iteration,
                forall|j: int| 0 <= j < unseeded@.len() ==> left_unseeded(self@, *params, #[trigger] unseeded@[j] as int),
                notes_unseeded(old(self)@, self@, *params, unseeded@),
                acyclic(old(self)@),
                forall|i: int|
                    0 <= i < old(self)@.len() && #[trigger] self@[i] != old(self)@[i] ==> exists|q: int|
                        0 <= q < k && downstream_of(old(self)@, #[trigger] inputs@[q] as int, i),
            decreases inputs@.len() - k,
        {
            let ghost mid = self@;
            proof {
                lemma_topo_order_same_wiring(old(self)@, self@, ord@);
            }
            let ghost mid_u = unseeded@;
            let _dloss = self.propagate_noting(inputs[k], params, &mut unseeded, &ord);
            proof {
                assert forall|i: int|
                    0 <= i < old(self)@.len() && old(self)@[i].training_state.calc_derivative_iteration != params.calc_derivative_iteration
                        && (#[trigger] self@[i]).training_state.calc_derivative_iteration == params.calc_derivative_iteration
                        && self@[i].outputs@.len() == 0 && seed_for(params.output_nodes_loss_fn_derivative@, self@[i].name@) is None
                        implies unseeded@.contains(i as usize) by {
                    if mid[i].training_state.calc_derivative_iteration == params.calc_derivative_iteration {
                        assert(self@[i] == mid[i]);
                        assert(mid_u.contains(i as usize));
                    } else {
                        assert(self@[i].name == mid[i].name);
                    }
                }
                lemma_passes_compose(old(self)@, mid, self@, *params);
                assert forall|i: int|
                    0 <= i < old(self)@.len() && #[trigger] self@[i] != old(self)@[i] implies exists|q: int|
                        0 <= q < k + 1 && downstream_of(old(self)@, #[trigger] inputs@[q] as int, i) by {
                    if self@[i] != mid[i] {
                        lemma_training_only_wf(old(self)@, mid);
                        lemma_downstream_same_structure(old(self)@, mid, inputs@[k as int] as int, i);
                    } else {
                        let q = choose|q: int| 0 <= q < k && downstream_of(old(self)@, #[trigger] inputs@[q] as int, i);
                        assert(downstream_of(old(self)@, inputs@[q] as int, i));
                    }
                }
            }
            k += 1;
        }
        proof {
            if forall|j: int|
                0 <= j < old(self)@.len() ==> (#[trigger] old(self)@[j]).training_state.calc_derivative_iteration
                    != params.calc_derivative_iteration {
                assert forall|k: int, i: int|
                    0 <= k < inputs@.len() && 0 <= i < old(self)@.len() && #[trigger] downstream_of(
                        old(self)@,
                        inputs@[k] as int,
                        i,
                    ) implies (#[trigger] self@[i]).training_state.calc_derivative_iteration
                        == params.calc_derivative_iteration by {
                    let path = choose|path: Seq<int>|
                        is_path(old(self)@, path) && path[0] == inputs@[k] as int && path.last() == i;
                    lemma_pass_reaches(old(self)@, self@, *params, path, path.len() - 1);
                }
            }
        }
        Ok(unseeded)
    }

    #[verifier::rlimit(40)]
    fn propagate_noting(
        &mut self,
        id: usize,
        params: &DerivativeCalculationParams<S>,
        unseeded: &mut Vec<usize>,
        ord: &Vec<usize>,
    ) -> (r: Result<S, GraphError>)
        requires
            old(self).wf(),
            id < old(self)@.len(),
            is_topo_order(old(self)@, ord@),
            forall|j: int| 0 <= j < old(unseeded)@.len() ==> left_unseeded(old(self)@, *params, #[trigger] old(unseeded)@[j] as int),
        ensures
            final(self).wf(),
            propagated(old(self)@, final(self)@, *params, id as int, r),
            forall|j: int| 0 <= j < final(unseeded)@.len() ==> left_unseeded(final(self)@, *params, #[trigger] final(unseeded)@[j] as int),
            r is Ok,
            forall|x: usize| #[trigger] old(unseeded)@.contains(x) ==> final(unseeded)@.contains(x),
            notes_unseeded(old(self)@, final(self)@, *params, final(unseeded)@),
    {
        let it = params.calc_derivative_iteration;
        if self.node(id).training_state.calc_derivative_iteration == it {
            return Ok(self.node(id).training_state.dloss);
        }
        let ghost g0 = self@;
        let n = self.len();
        proof {
            lemma_topo_order_covers(g0, ord@);
            assert(acyclic(g0));
        }
        let reached = self.downstream(id, ord);
        // Producers after consumers: walk the order backwards.
        let mut j: usize = n;
        while j > 0
            invariant
                nodes_wf(g0),
                n == g0.len(),
                is_topo_order(g0, ord@),
                forall|v: usize| v < n ==> #[trigger] ord@.contains(v),
                reached@.len() == n,
                reached@[id as int],
                id < n,
                g0[id as int].training_state.calc_derivative_iteration != it,
                closed_downstream(g0, reached@),
                forall|x: int| 0 <= x < g0.len() && #[trigger] reached@[x] ==> downstream_of(g0, id as int, x),
                it == params.calc_derivative_iteration,
                j <= n,
                training_only(g0, self@),
                forall|i: int|
                    0 <= i < n && (#[trigger] self@[i]).training_state != g0[i].training_state ==> reached@[i]
                        && g0[i].training_state.calc_derivative_iteration != it && self@[i].training_state.calc_derivative_iteration == it,
                forall|p: int| 0 <= p < j ==> #[trigger] self@[ord@[p] as int] == g0[ord@[p] as int],
                forall|p: int|
                    j <= p < n && reached@[ord@[p] as int] ==> (#[trigger] self@[ord@[p] as int]).training_state.calc_derivative_iteration == it,
                forall|i: int| 0 <= i < n && g0[i].training_state.calc_derivative_iteration != it
                    && (#[trigger] self@[i]).training_state.calc_derivative_iteration == it && self@[i].outputs@.len() == 0
                    && seed_for(params.output_nodes_loss_fn_derivative@, self@[i].name@) is Some
                    ==> self@[i].training_state.dloss == seed_for(params.output_nodes_loss_fn_derivative@, self@[i].name@)->Some_0,
                forall|k: int| 0 <= k < unseeded@.len() ==> left_unseeded(self@, *params, #[trigger] unseeded@[k] as int),
                chain_holds(g0, self@, it),
                forall|x: usize| #[trigger] old(unseeded)@.contains(x) ==> unseeded@.contains(x),
                notes_unseeded(g0, self@, *params, unseeded@),
                forall|i: int| 0 <= i < n && g0[i].training_state.calc_derivative_iteration != it
                    && (#[trigger] self@[i]).training_state.calc_derivative_iteration == it && self@[i].outputs@.len() == 0
                    && seed_for(params.output_nodes_loss_fn_derivative@, self@[i].name@) is None
                    ==> self@[i].training_state.dloss == S::spec_zero(),
            decreases j,
        {
            j -= 1;
            let v = ord[j];
            proof {
                lemma_training_only_wf(g0, self@);
                assert(self@[ord@[j as int] as int] == g0[ord@[j as int] as int]);
            }
            if reached[v] && self.node(v).training_state.calc_derivative_iteration != it {
                let ghost before = self@;
                let ghost before_u = unseeded@;
                let dloss = self.chain_sum(v, params, unseeded, Ghost(g0));
                self.set_training_state(v, TrainingState { calc_derivative_iteration: it, dloss });
                proof {
                    assert forall|p: int| 0 <= p < j implies #[trigger] self@[ord@[p] as int] == g0[ord@[p] as int] by {
                        assert(ord@[p] != v);
                        assert(before[ord@[p] as int] == g0[ord@[p] as int]);
                    }
                    assert forall|p: int| j <= p < n && reached@[ord@[p] as int] implies (#[trigger] self@[ord@[p] as int]).training_state.calc_derivative_iteration == it by {
                        if p != j {
                            assert(ord@[p] != v);
                            assert(self@[ord@[p] as int] == before[ord@[p] as int]);
                        }
                    }
                    assert forall|i: int| 0 <= i < n implies #[trigger] self@[i].name == g0[i].name && self@[i].kind == g0[i].kind
                        && self@[i].activation == g0[i].activation && self@[i].inputs == g0[i].inputs && self@[i].outputs == g0[i].outputs by {
                        if i != v {
                            assert(self@[i] == before[i]);
                        }
                    }
                    assert forall|k: int| 0 <= k < unseeded@.len() implies left_unseeded(self@, *params, #[trigger] unseeded@[k] as int) by {
                        let u = unseeded@[k] as int;
                        if u != v {
                            assert(left_unseeded(before, *params, u));
                            assert(self@[u] == before[u]);
                        }
                    }
                    assert forall|i: int|
                        0 <= i < n && (#[trigger] self@[i]).training_state != g0[i].training_state implies reached@[i]
                            && g0[i].training_state.calc_derivative_iteration != it && self@[i].training_state.calc_derivative_iteration == it by {
                        if i != v {
                            assert(self@[i] == before[i]);
                        } else {
                            assert(before[i] == g0[i]);
                        }
                    }
                    assert forall|i: int| 0 <= i < n && g0[i].training_state.calc_derivative_iteration != it
                        && (#[trigger] self@[i]).training_state.calc_derivative_iteration == it && self@[i].outputs@.len() == 0
                        && seed_for(params.output_nodes_loss_fn_derivative@, self@[i].name@) is Some
                        implies self@[i].training_state.dloss == seed_for(params.output_nodes_loss_fn_derivative@, self@[i].name@)->Some_0 by {
                        if i != v {
                            assert(self@[i] == before[i]);
                        }
                    }
                    assert forall|i: int| 0 <= i < n && g0[i].training_state.calc_derivative_iteration != it
                        && (#[trigger] self@[i]).training_state.calc_derivative_iteration == it && self@[i].outputs@.len() == 0
                        && seed_for(params.output_nodes_loss_fn_derivative@, self@[i].name@) is None
                        implies self@[i].training_state.dloss == S::spec_zero() by {
                        if i != v {
                            assert(self@[i] == before[i]);
                        }
                    }
                    lemma_chain_step(g0, ord@, before, self@, j as int, it);
                    assert forall|x: usize| #[trigger] before_u.contains(x) implies unseeded@.contains(x) by {
                        let q = choose|q: int| 0 <= q < before_u.len() && before_u[q] == x;
                        assert(unseeded@[q] == x);
                    }
                    assert forall|x: usize| #[trigger] old(unseeded)@.contains(x) implies unseeded@.contains(x) by {
                        assert(before_u.contains(x));
                    }
                    assert forall|i: int|
                        0 <= i < g0.len() && g0[i].training_state.calc_derivative_iteration != it
                            && (#[trigger] self@[i]).training_state.calc_derivative_iteration == it
                            && self@[i].outputs@.len() == 0 && seed_for(params.output_nodes_loss_fn_derivative@, self@[i].name@) is None
                            implies unseeded@.contains(i as usize) by {
                        if i == v {
                            assert(unseeded@[before_u.len() as int] == v);
                        } else {
                            assert(self@[i] == before[i]);
                            assert(before_u.contains(i as usize));
                        }
                    }
                }
            } else {
                proof {
                    assert forall|p: int| j <= p < n && reached@[ord@[p] as int] implies (#[trigger] self@[ord@[p] as int]).training_state.calc_derivative_iteration == it by {
                        if p == j {
                            assert(self@[ord@[j as int] as int] == g0[ord@[j as int] as int]);
                        }
                    }
                }
            }
        }
        proof {
            lemma_training_only_wf(g0, self@);
            assert(self@[id as int].training_state.calc_derivative_iteration == it) by {
                assert(ord@.contains(id));
                let q = choose|q: int| 0 <= q < ord@.len() && ord@[q] == id;
                assert(reached@[ord@[q] as int]);
            }
            assert forall|i: int, c: int|
                0 <= i < g0.len() && 0 <= c < g0.len() && g0[i].training_state.calc_derivative_iteration != it
                    && (#[trigger] self@[i]).training_state.calc_derivative_iteration == it && feeds(self@[i], c)
                    implies (#[trigger] self@[c]).training_state.calc_derivative_iteration == it by {
                assert(self@[i].training_state != g0[i].training_state);
                assert(reached@[i]);
                assert(feeds(g0[i], c));
                let k = choose|k: int| 0 <= k < g0[i].outputs@.len() && g0[i].outputs@[k] as int == c;
                assert(reached@[g0[i].outputs@[k] as int]);
                assert(c < n);
                assert(ord@.contains(c as usize));
                let q = choose|q: int| 0 <= q < ord@.len() && ord@[q] == c as usize;
                assert(reached@[ord@[q] as int]);
            }
            assert forall|i: int| 0 <= i < g0.len() && downstream_of(g0, id as int, i) implies (#[trigger] self@[i]).training_state.calc_derivative_iteration == it by {
                let path = choose|path: Seq<int>| is_path(g0, path) && path[0] == id as int && path.last() == i;
                lemma_path_marked(g0, reached@, path, path.len() - 1);
                assert(ord@.contains(i as usize));
                let q = choose|q: int| 0 <= q < ord@.len() && ord@[q] == i as usize;
                assert(reached@[ord@[q] as int]);
            }
            assert forall|i: int| 0 <= i < g0.len() && #[trigger] self@[i] != g0[i] implies downstream_of(g0, id as int, i) by {
                assert(self@[i].training_state != g0[i].training_state);
                assert(reached@[i]);
            }
            assert forall|i: int|
                0 <= i < g0.len() && (#[trigger] g0[i]).training_state.calc_derivative_iteration == it implies self@[i] == g0[i] by {
                if self@[i] != g0[i] {
                    assert(self@[i].training_state != g0[i].training_state);
                }
            }
        }
        Ok(self.node(id).training_state.dloss)
    }

    /// The nodes downstream of `id` (itself included), as marks by handle.
    fn downstream(&self, id: usize, ord: &Vec<usize>) -> (reached: Vec<bool>)
        requires
            self.wf(),
            id < self@.len(),
            is_topo_order(self@, ord@),
            forall|v: usize| v < self@.len() ==> #[trigger] ord@.contains(v),
        ensures
            reached@.len() == self@.len(),
            reached@[id as int],
            closed_downstream(self@, reached@),
            forall|x: int| 0 <= x < self@.len() && #[trigger] reached@[x] ==> downstream_of(self@, id as int, x),
    {
        let n = self.len();
        let mut reached: Vec<bool> = Vec::new();
        while reached.len() < n
            invariant
                reached@.len() <= n,
                forall|x: int| 0 <= x < reached@.len() ==> !#[trigger] reached@[x],
            decreases n - reached@.len(),
        {
            reached.push(false);
        }
        reached[id] = true;
        let ghost g = self@;
        proof {
            let path = seq![id as int];
            assert(is_path(g, path));
            assert forall|x: int| 0 <= x < n && #[trigger] reached@[x] implies downstream_of(g, id as int, x) by {
                if x == id {
                    assert(path.last() == x);
                }
            }
        }
        let mut j: usize = 0;
        while j < n
            invariant
                nodes_wf(g),
                g == self@,
                n == g.len(),
                is_topo_order(g, ord@),
                forall|v: usize| v < n ==> #[trigger] ord@.contains(v),
                reached@.len() == n,
                id < n,
                reached@[id as int],
                j <= n,
                forall|p: int, k: int|
                    0 <= p < j && reached@[ord@[p] as int] && 0 <= k < g[ord@[p] as int].outputs@.len()
                        ==> reached@[#[trigger] g[ord@[p] as int].outputs@[k] as int],
                forall|x: int| 0 <= x < n && #[trigger] reached@[x] ==> downstream_of(g, id as int, x),
            decreases n - j,
        {
            let v = ord[j];
            if reached[v] {
                let node = self.node(v);
                let m = node.outputs.len();
                let ghost before = reached@;
                let mut k: usize = 0;
                while k < m
                    invariant
                        nodes_wf(g),
                        n == g.len(),
                        is_topo_order(g, ord@),
                        forall|v: usize| v < n ==> #[trigger] ord@.contains(v),
                        j < n,
                        v == ord@[j as int],
                        *node == g[v as int],
                        m == node.outputs@.len(),
                        reached@.len() == n,
                        id < n,
                        reached@[id as int],
                        k <= m,
                        forall|x: int| 0 <= x < n && #[trigger] before[x] ==> reached@[x],
                        forall|p: int| 0 <= p <= j ==> #[trigger] reached@[ord@[p] as int] == before[ord@[p] as int],
                        forall|k2: int| 0 <= k2 < k ==> reached@[#[trigger] node.outputs@[k2] as int],
                        before[v as int],
                        forall|x: int| 0 <= x < n && #[trigger] reached@[x] ==> downstream_of(g, id as int, x),
                    decreases m - k,
                {
                    let c = node.outputs[k];
                    proof {
                        assert(node.outputs@[k as int] == c);
                        assert(feeds(g[v as int], c as int));
                        assert(wired(g[c as int], v as int));
                        assert(ord@.contains(c));
                        let q = choose|q: int| 0 <= q < ord@.len() && ord@[q] == c;
                        assert(wired(g[ord@[q] as int], ord@[j as int] as int));
                        assert(j < q);
                        assert(reached@[v as int]);
                        lemma_downstream_step(g, id as int, v as int, c as int);
                    }
                    reached[c] = true;
                    k += 1;
                }
                proof {
                    assert forall|p: int, k: int|
                        0 <= p < j + 1 && reached@[ord@[p] as int] && 0 <= k < g[ord@[p] as int].outputs@.len()
                            implies reached@[#[trigger] g[ord@[p] as int].outputs@[k] as int] by {
                        if p < j {
                            assert(before[ord@[p] as int]);
                            assert(before[g[ord@[p] as int].outputs@[k] as int]);
                        }
                    }
                }
            }
            j += 1;
        }
        proof {
            assert forall|i: int, k: int| 0 <= i < n && reached@[i] && 0 <= k < g[i].outputs@.len() implies reached@[#[trigger] g[i].outputs@[k] as int] by {
                assert(ord@.contains(i as usize));
                let q = choose|q: int| 0 <= q < ord@.len() && ord@[q] == i as usize;
                assert(g[ord@[q] as int].outputs@[k] == g[i].outputs@[k]);
            }
        }
        reached
    }

    /// The derivative of node `v`: for a node with consumers, the sum over
    /// them of the consumer's derivative against `v` times the consumer's
    /// cached derivative; otherwise the seeded value, or zero (noting `v`
    /// among the unseeded) where none is seeded.
    fn chain_sum(
        &self,
        v: usize,
        params: &DerivativeCalculationParams<S>,
        unseeded: &mut Vec<usize>,
        Ghost(g0): Ghost<Seq<Node<S>>>,
    ) -> (dloss: S)
        requires
            self.wf(),
            v < self@.len(),
            training_only(g0, self@),
            g0[v as int].training_state.calc_derivative_iteration != params.calc_derivative_iteration,
            forall|k: int| 0 <= k < old(unseeded)@.len() ==> left_unseeded(self@, *params, #[trigger] old(unseeded)@[k] as int),
        ensures
            self@[v as int].outputs@.len() == 0 && seed_for(params.output_nodes_loss_fn_derivative@, self@[v as int].name@) is Some
                ==> dloss == seed_for(params.output_nodes_loss_fn_derivative@, self@[v as int].name@)->Some_0,
            forall|k: int| 0 <= k < final(unseeded)@.len() ==> (#[trigger] final(unseeded)@[k] == v
                || left_unseeded(self@, *params, final(unseeded)@[k] as int)),
            forall|k: int| 0 <= k < final(unseeded)@.len() && #[trigger] final(unseeded)@[k] == v ==> self@[v as int].outputs@.len() == 0
                && seed_for(params.output_nodes_loss_fn_derivative@, self@[v as int].name@) is None,
            self@[v as int].outputs@.len() == 0 && seed_for(params.output_nodes_loss_fn_derivative@, self@[v as int].name@) is None
                ==> dloss == S::spec_zero(),
            self@[v as int].outputs@.len() > 0 ==> dloss == chain_value(self@, v as int),
            final(unseeded)@ == if self@[v as int].outputs@.len() == 0 && seed_for(
                params.output_nodes_loss_fn_derivative@,
                self@[v as int].name@,
            ) is None {
                old(unseeded)@.push(v)
            } else {
                old(unseeded)@
            },
    {
        let node = self.node(v);
        let m = node.outputs.len();
        if m == 0 {
            return match params.seed(&node.name) {
                Some(d) => d,
                None => {
                    unseeded.push(v);
                    S::zero()
                },
            };
        }
        let mut sum = S::zero();
        let mut k: usize = 0;
        while k < m
            invariant
                self.wf(),
                v < self@.len(),
                *node == self@[v as int],
                m == node.outputs@.len(),
                k <= m,
                sum == chain_sum_spec(self@, v as int, k as nat),
            decreases m - k,
        {
            let c = node.outputs[k];
            proof {
                assert(node.outputs@[k as int] == c);
                assert(feeds(self@[v as int], c as int));
            }
            let e = self.input_position(c, v);
            let local = self.local_derivative(c, e);
            sum = sum.plus(local.times(self.node(c).training_state.dloss));
            k += 1;
        }
        sum
    }
}

} // verus!
