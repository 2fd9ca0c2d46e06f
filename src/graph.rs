//! The node arena: node kinds, wiring and name lookup.

use vstd::prelude::*;
use crate::scalar::Scalar;

verus! {

/// The closed set of node variants.
#[derive(Debug, Clone, Copy, PartialEq, Eq, Structural)]
pub enum NodeKind {
    /// Holds a value set from outside; has no inputs.
    Input,
    /// Holds a fixed value (a bias source); has no inputs.
    Constant,
    /// The weighted sum of its inputs.
    Sum,
    /// The logistic function of the weighted sum of its inputs.
    Sigmoid,
}

impl NodeKind {
    /// Whether nodes of this kind take weighted inputs.
    pub open spec fn has_inputs(self) -> bool {
        self is Sum || self is Sigmoid
    }

    /// Whether nodes of this kind take weighted inputs.
    pub fn accepts_inputs(&self) -> (r: bool)
        ensures
            r == self.has_inputs(),
    {
        match self {
            NodeKind::Sum | NodeKind::Sigmoid => true,
            NodeKind::Input | NodeKind::Constant => false,
        }
    }
}

/// The failures of graph operations.
#[derive(Debug, Clone, Copy, PartialEq, Eq, Structural)]
pub enum GraphError {
    /// A node with this name already exists.
    DuplicateName,
    /// Input and Constant nodes take no inputs.
    UnsupportedOperation,
    /// The node asked about is not wired as an input.
    NotAnInput,
    /// The node has no inputs to differentiate against.
    NoInputs,
    /// The wiring holds a cycle, so there is no evaluation order.
    CycleDetected,
}

/// One input edge of a node: the producer's handle and the edge weight.
#[derive(Clone, Copy)]
pub struct NodeWeight<S> {
    pub node: usize,
    pub weight: S,
}

impl<S: Scalar> NodeWeight<S> {
    pub fn new(node: usize, weight: S) -> (r: Self)
        ensures
            r.node == node,
            r.weight == weight,
    {
        NodeWeight { node, weight }
    }

    /// This edge's contribution to the consumer's weighted sum, given the
    /// producer's activation.
    pub fn calc_weighted_activation(&self, activation: S) -> (r: S)
        ensures
            r == activation.spec_times(self.weight),
    {
        activation.times(self.weight)
    }
}

/// Per-node state of the backward pass.
#[derive(Clone, Copy)]
pub struct TrainingState<S> {
    /// The iteration token of the last derivative computation; -1 before any.
    pub calc_derivative_iteration: i32,
    /// The last computed d(loss)/d(activation) of the node.
    pub dloss: S,
}

/// A node of the graph.
pub struct Node<S> {
    pub name: String,
    pub kind: NodeKind,
    /// The stored value of an Input or Constant node; the last evaluated
    /// activation of a Sum or Sigmoid node.
    pub activation: S,
    /// Weighted input edges, at most one per producer.
    pub inputs: Vec<NodeWeight<S>>,
    /// Handles of the consumers of this node, each once.
    pub outputs: Vec<usize>,
    pub training_state: TrainingState<S>,
}

/// Whether node `n` has producer `p` wired as an input.
pub open spec fn wired<S>(n: Node<S>, p: int) -> bool {
    exists|k: int| 0 <= k < n.inputs@.len() && n.inputs@[k].node as int == p
}

/// Whether node `n` lists consumer `c` among its outputs.
pub open spec fn feeds<S>(n: Node<S>, c: int) -> bool {
    exists|k: int| 0 <= k < n.outputs@.len() && n.outputs@[k] as int == c
}

/// The position of producer `p` among the inputs of `n` (meaningful when wired).
pub open spec fn input_index<S>(n: Node<S>, p: int) -> int {
    choose|k: int| 0 <= k < n.inputs@.len() && n.inputs@[k].node as int == p
}

/// The derivative of node `n`'s activation against the producer of its input
/// edge `k`: the edge weight for a Sum node, `a * (1 - a) * weight` for a
/// Sigmoid node whose last activation is `a`.
pub open spec fn local_derivative_spec<S: Scalar>(n: Node<S>, k: int) -> S {
    let w = n.inputs@[k].weight;
    if n.kind is Sigmoid {
        let a = n.activation;
        a.spec_times(S::spec_one().spec_minus(a)).spec_times(w)
    } else {
        w
    }
}

/// The sum over the first `k` input edges of node `v` of the producer's
/// activation times the edge weight, added up in edge order from zero.
pub open spec fn weighted_sum<S: Scalar>(g: Seq<Node<S>>, v: int, k: nat) -> S
    decreases k,
{
    if k == 0 {
        S::spec_zero()
    } else {
        let e = g[v].inputs@[k - 1];
        weighted_sum(g, v, (k - 1) as nat).spec_plus(g[e.node as int].activation.spec_times(e.weight))
    }
}

/// The activation node `v` evaluates to from its producers' activations in
/// `g`: the weighted sum of its inputs, through the logistic function for a
/// Sigmoid node.
pub open spec fn node_value<S: Scalar>(g: Seq<Node<S>>, v: int) -> S {
    let s = weighted_sum(g, v, g[v].inputs@.len());
    if g[v].kind is Sigmoid {
        s.spec_logistic()
    } else {
        s
    }
}

/// The arena invariant: unique names, source nodes without inputs, handles in
/// range, no duplicate edges, and back-links in step with input edges.
pub open spec fn nodes_wf<S>(g: Seq<Node<S>>) -> bool {
    &&& forall|i: int, j: int|
        0 <= i < g.len() && 0 <= j < g.len() && i != j ==> #[trigger] g[i].name@ != #[trigger] g[j].name@
    &&& forall|i: int| 0 <= i < g.len() && !(#[trigger] g[i].kind).has_inputs() ==> g[i].inputs@.len() == 0
    &&& forall|i: int, k: int|
        0 <= i < g.len() && 0 <= k < g[i].inputs@.len() ==> #[trigger] g[i].inputs@[k].node < g.len()
    &&& forall|i: int, k1: int, k2: int|
        0 <= i < g.len() && 0 <= k1 < g[i].inputs@.len() && 0 <= k2 < g[i].inputs@.len() && k1 != k2
            ==> #[trigger] g[i].inputs@[k1].node != #[trigger] g[i].inputs@[k2].node
    &&& forall|i: int, k: int|
        0 <= i < g.len() && 0 <= k < g[i].outputs@.len() ==> #[trigger] g[i].outputs@[k] < g.len()
    &&& forall|i: int, k1: int, k2: int|
        0 <= i < g.len() && 0 <= k1 < g[i].outputs@.len() && 0 <= k2 < g[i].outputs@.len() && k1 != k2
            ==> #[trigger] g[i].outputs@[k1] != #[trigger] g[i].outputs@[k2]
    &&& forall|p: int, c: int|
        0 <= p < g.len() && 0 <= c < g.len() ==> (feeds(#[trigger] g[p], c) <==> wired(#[trigger] g[c], p))
}

/// Two nodes agree on everything but their values (activation, edge weights,
/// training state).
pub open spec fn same_shape<S>(a: Node<S>, b: Node<S>) -> bool {
    &&& a.name == b.name
    &&& a.kind == b.kind
    &&& a.outputs == b.outputs
    &&& a.inputs@.len() == b.inputs@.len()
    &&& forall|k: int| 0 <= k < a.inputs@.len() ==> #[trigger] a.inputs@[k].node == b.inputs@[k].node
}

/// Two graphs have the same nodes and the same wiring.
pub open spec fn same_structure<S>(g0: Seq<Node<S>>, g1: Seq<Node<S>>) -> bool {
    &&& g0.len() == g1.len()
    &&& forall|i: int| 0 <= i < g0.len() ==> same_shape(#[trigger] g0[i], g1[i])
}

/// Changing values only keeps the arena invariant.
pub proof fn lemma_same_structure_wf<S>(g0: Seq<Node<S>>, g1: Seq<Node<S>>)
    requires
        nodes_wf(g0),
        same_structure(g0, g1),
    ensures
        nodes_wf(g1),
{
    assert forall|p: int, c: int| 0 <= p < g1.len() && 0 <= c < g1.len() implies (feeds(
        #[trigger] g1[p],
        c,
    ) <==> wired(#[trigger] g1[c], p)) by {
        assert(same_shape(g0[p], g1[p]));
        assert(same_shape(g0[c], g1[c]));
        if wired(g0[c], p) {
            let k = choose|k: int| 0 <= k < g0[c].inputs@.len() && g0[c].inputs@[k].node as int == p;
            assert(g1[c].inputs@[k].node == g0[c].inputs@[k].node);
        }
        if wired(g1[c], p) {
            let k = choose|k: int| 0 <= k < g1[c].inputs@.len() && g1[c].inputs@[k].node as int == p;
            assert(g1[c].inputs@[k].node == g0[c].inputs@[k].node);
        }
    }
    assert forall|i: int, k: int| 0 <= i < g1.len() && 0 <= k < g1[i].inputs@.len() implies #[trigger] g1[i].inputs@[k].node < g1.len() by {
        assert(same_shape(g0[i], g1[i]));
        assert(g1[i].inputs@[k].node == g0[i].inputs@[k].node);
    }
    assert forall|i: int, k1: int, k2: int|
        0 <= i < g1.len() && 0 <= k1 < g1[i].inputs@.len() && 0 <= k2 < g1[i].inputs@.len() && k1 != k2
            implies #[trigger] g1[i].inputs@[k1].node != #[trigger] g1[i].inputs@[k2].node by {
        assert(same_shape(g0[i], g1[i]));
        assert(g1[i].inputs@[k1].node == g0[i].inputs@[k1].node);
        assert(g1[i].inputs@[k2].node == g0[i].inputs@[k2].node);
    }
    assert forall|i: int, j: int| 0 <= i < g1.len() && 0 <= j < g1.len() && i != j implies #[trigger] g1[i].name@
        != #[trigger] g1[j].name@ by {
        assert(same_shape(g0[i], g1[i]));
        assert(same_shape(g0[j], g1[j]));
    }
    assert forall|i: int| 0 <= i < g1.len() && !(#[trigger] g1[i].kind).has_inputs() implies g1[i].inputs@.len()
        == 0 by {
        assert(same_shape(g0[i], g1[i]));
    }
    assert forall|i: int, k: int| 0 <= i < g1.len() && 0 <= k < g1[i].outputs@.len() implies #[trigger] g1[i].outputs@[k]
        < g1.len() by {
        assert(same_shape(g0[i], g1[i]));
    }
    assert forall|i: int, k1: int, k2: int|
        0 <= i < g1.len() && 0 <= k1 < g1[i].outputs@.len() && 0 <= k2 < g1[i].outputs@.len() && k1 != k2
            implies #[trigger] g1[i].outputs@[k1] != #[trigger] g1[i].outputs@[k2] by {
        assert(same_shape(g0[i], g1[i]));
    }
}

/// A node just created: the given name and kind, no edges, no derivative yet
/// (token -1, derivative zero).
pub open spec fn fresh_node<S: Scalar>(n: Node<S>, name: Seq<char>, kind: NodeKind) -> bool {
    &&& n.name@ == name
    &&& n.kind == kind
    &&& n.inputs@.len() == 0
    &&& n.outputs@.len() == 0
    &&& n.training_state.calc_derivative_iteration == -1
    &&& n.training_state.dloss == S::spec_zero()
}

/// The outcome of creating a node named `name` of kind `kind` in `g0`, giving `g1`:
/// it fails exactly when the name is taken, and then changes nothing; otherwise
/// the node is appended and its handle returned.
pub open spec fn created<S: Scalar>(
    g0: Seq<Node<S>>,
    g1: Seq<Node<S>>,
    r: Result<usize, GraphError>,
    name: Seq<char>,
    kind: NodeKind,
) -> bool {
    &&& r is Err <==> exists|i: int| 0 <= i < g0.len() && #[trigger] g0[i].name@ == name
    &&& r is Err ==> r == Err::<usize, GraphError>(GraphError::DuplicateName) && g1 == g0
    &&& r is Ok ==> {
        &&& r->Ok_0 == g0.len()
        &&& g1.len() == g0.len() + 1
        &&& g1.take(g0.len() as int) == g0
        &&& fresh_node(g1[g0.len() as int], name, kind)
    }
}

/// The outcome of wiring producer `a` into consumer `b` with `w` in `g0`, giving
/// `g1`: names, kinds, values and training state stay; if the edge was there
/// its weight becomes `w`, otherwise the edge is added in both directions.
pub open spec fn rewired<S>(g0: Seq<Node<S>>, g1: Seq<Node<S>>, a: int, b: int, w: S) -> bool {
    &&& g1.len() == g0.len()
    &&& forall|i: int| 0 <= i < g0.len() && i != a && i != b ==> #[trigger] g1[i] == g0[i]
    &&& forall|i: int|
        0 <= i < g0.len() ==> {
            &&& (#[trigger] g1[i]).name == g0[i].name
            &&& g1[i].kind == g0[i].kind
            &&& g1[i].activation == g0[i].activation
            &&& g1[i].training_state == g0[i].training_state
        }
    &&& a != b ==> g1[a].inputs == g0[a].inputs && g1[b].outputs == g0[b].outputs
    &&& if wired(g0[b], a) {
        &&& g1[a].outputs == g0[a].outputs
        &&& g1[b].inputs@ == g0[b].inputs@.update(
            input_index(g0[b], a),
            NodeWeight { node: a as usize, weight: w },
        )
    } else {
        &&& g1[a].outputs@ == g0[a].outputs@.push(b as usize)
        &&& g1[b].inputs@ == g0[b].inputs@.push(NodeWeight { node: a as usize, weight: w })
    }
}

/// `path` walks from consumer to consumer through `g`.
pub open spec fn is_path<S>(g: Seq<Node<S>>, path: Seq<int>) -> bool {
    &&& path.len() >= 1
    &&& forall|k: int| 0 <= k < path.len() ==> 0 <= #[trigger] path[k] < g.len()
    &&& forall|k: int| 0 <= k < path.len() - 1 ==> feeds(g[#[trigger] path[k]], path[k + 1])
}

/// Node `to` is `from` or lies downstream of it: a path of consumers leads
/// from `from` to `to`.
pub open spec fn downstream_of<S>(g: Seq<Node<S>>, from: int, to: int) -> bool {
    exists|path: Seq<int>| is_path(g, path) && path[0] == from && path.last() == to
}

/// A consumer of a node downstream of `from` is downstream of `from` too.
pub proof fn lemma_downstream_step<S>(g: Seq<Node<S>>, from: int, v: int, c: int)
    requires
        downstream_of(g, from, v),
        0 <= c < g.len(),
        feeds(g[v], c),
    ensures
        downstream_of(g, from, c),
{
    let path = choose|path: Seq<int>| is_path(g, path) && path[0] == from && path.last() == v;
    let longer = path.push(c);
    assert(longer[0] == from);
    assert(longer.last() == c);
    assert forall|k: int| 0 <= k < longer.len() implies 0 <= #[trigger] longer[k] < g.len() by {
        if k < path.len() {
            assert(longer[k] == path[k]);
        }
    }
    assert forall|k: int| 0 <= k < longer.len() - 1 implies feeds(g[#[trigger] longer[k]], longer[k + 1]) by {
        if k < path.len() - 1 {
            assert(longer[k] == path[k] && longer[k + 1] == path[k + 1]);
        } else {
            assert(longer[k] == v);
        }
    }
    assert(is_path(g, longer));
}

/// Paths only follow output links, so graphs with the same structure have the
/// same paths.
pub proof fn lemma_downstream_same_structure<S>(g0: Seq<Node<S>>, g1: Seq<Node<S>>, from: int, to: int)
    requires
        same_structure(g0, g1),
        downstream_of(g1, from, to),
    ensures
        downstream_of(g0, from, to),
{
    let path = choose|path: Seq<int>| is_path(g1, path) && path[0] == from && path.last() == to;
    assert forall|k: int| 0 <= k < path.len() - 1 implies feeds(g0[#[trigger] path[k]], path[k + 1]) by {
        assert(feeds(g1[path[k]], path[k + 1]));
        assert(same_shape(g0[path[k]], g1[path[k]]));
    }
    assert(is_path(g0, path));
}

/// A producer of a node upstream of `to` is upstream of `to` too.
pub proof fn lemma_downstream_prepend<S>(g: Seq<Node<S>>, p: int, v: int, to: int)
    requires
        downstream_of(g, v, to),
        0 <= p < g.len(),
        feeds(g[p], v),
    ensures
        downstream_of(g, p, to),
{
    let path = choose|path: Seq<int>| is_path(g, path) && path[0] == v && path.last() == to;
    let longer = seq![p].add(path);
    assert(longer[0] == p);
    assert(longer.last() == to);
    assert forall|k: int| 0 <= k < longer.len() implies 0 <= #[trigger] longer[k] < g.len() by {
        if k > 0 {
            assert(longer[k] == path[k - 1]);
        }
    }
    assert forall|k: int| 0 <= k < longer.len() - 1 implies feeds(g[#[trigger] longer[k]], longer[k + 1]) by {
        if k == 0 {
            assert(longer[1] == path[0]);
        } else {
            assert(longer[k] == path[k - 1] && longer[k + 1] == path[k]);
        }
    }
    assert(is_path(g, longer));
}

/// The graph: an append-only arena of nodes addressed by integer handles.
pub struct Graph<S> {
    nodes: Vec<Node<S>>,
}

impl<S> View for Graph<S> {
    type V = Seq<Node<S>>;

    closed spec fn view(&self) -> Seq<Node<S>> {
        self.nodes@
    }
}

impl<S: Scalar> Graph<S> {
    /// The arena invariant holds of this graph.
    pub open spec fn wf(&self) -> bool {
        nodes_wf(self@)
    }

    /// An empty graph.
    pub fn new() -> (g: Self)
        ensures
            g.wf(),
            g@.len() == 0,
    {
        Graph { nodes: Vec::new() }
    }

    /// The number of nodes.
    pub fn len(&self) -> (r: usize)
        ensures
            r == self@.len(),
    {
        self.nodes.len()
    }

    /// The node with handle `i`.
    pub fn node(&self, i: usize) -> (r: &Node<S>)
        requires
            i < self@.len(),
        ensures
            *r == self@[i as int],
    {
        &self.nodes[i]
    }

    /// The handle of the node named `name`, if there is one.
    pub fn lookup(&self, name: &str) -> (r: Option<usize>)
        ensures
            match r {
                Some(i) => i < self@.len() && self@[i as int].name@ == name@,
                None => forall|i: int| 0 <= i < self@.len() ==> #[trigger] self@[i].name@ != name@,
            },
    {
        let key = name.to_owned();
        let mut i: usize = 0;
        while i < self.nodes.len()
            invariant
                i <= self@.len(),
                self@ == self.nodes@,
                key@ == name@,
                forall|j: int| 0 <= j < i ==> #[trigger] self@[j].name@ != name@,
            decreases self@.len() - i,
        {
            if self.nodes[i].name == key {
                return Some(i);
            }
            i += 1;
        }
        None
    }

    /// Appends a node without inputs or outputs, unless its name is taken.
    fn add_node(&mut self, name: &str, kind: NodeKind, activation: S) -> (r: Result<usize, GraphError>)
        requires
            old(self).wf(),
        ensures
            final(self).wf(),
            match r {
                Err(e) => e == GraphError::DuplicateName && final(self)@ == old(self)@ && exists|i: int|
                    0 <= i < old(self)@.len() && #[trigger] old(self)@[i].name@ == name@,
                Ok(id) => {
                    &&& id == old(self)@.len()
                    &&& final(self)@.len() == old(self)@.len() + 1
                    &&& final(self)@.take(id as int) == old(self)@
                    &&& fresh_node(final(self)@[id as int], name@, kind)
                    &&& final(self)@[id as int].activation == activation
                },
            },
    {
        match self.lookup(name) {
            Some(_) => Err(GraphError::DuplicateName),
            None => {
                let node = Node {
                    name: name.to_owned(),
                    kind,
                    activation,
                    inputs: Vec::new(),
                    outputs: Vec::new(),
                    training_state: TrainingState { calc_derivative_iteration: -1, dloss: S::zero() },
                };
                let id = self.nodes.len();
                self.nodes.push(node);
                proof {
                    let g0 = old(self)@;
                    let g1 = self@;
                    assert(g1.take(id as int) =~= g0);
                    assert forall|p: int, c: int| 0 <= p < g1.len() && 0 <= c < g1.len() implies (feeds(
                        #[trigger] g1[p],
                        c,
                    ) <==> wired(#[trigger] g1[c], p)) by {
                        if p < id && c < id {
                            assert(g1[p] == g0[p]);
                            assert(g1[c] == g0[c]);
                        } else if p < id {
                            if feeds(g0[p], c) {
                                let k = choose|k: int| 0 <= k < g0[p].outputs@.len() && g0[p].outputs@[k] as int == c;
                                assert(g0[p].outputs@[k] < g0.len());
                            }
                        } else if c < id {
                            if wired(g0[c], p) {
                                let k = choose|k: int| 0 <= k < g0[c].inputs@.len() && g0[c].inputs@[k].node as int == p;
                                assert(g0[c].inputs@[k].node < g0.len());
                            }
                        }
                    }
                    assert forall|i: int, j: int| 0 <= i < g1.len() && 0 <= j < g1.len() && i != j implies #[trigger] g1[i].name@
                        != #[trigger] g1[j].name@ by {
                        if i < id && j < id {
                            assert(g1[i] == g0[i]);
                            assert(g1[j] == g0[j]);
                        } else if i < id {
                            assert(g1[i] == g0[i]);
                        } else if j < id {
                            assert(g1[j] == g0[j]);
                        }
                    }
                    assert forall|i: int, k: int| 0 <= i < g1.len() && 0 <= k < g1[i].inputs@.len() implies #[trigger] g1[i].inputs@[k].node < g1.len() by {
                        assert(i < id);
                        assert(g1[i] == g0[i]);
                    }
                    assert forall|i: int, k: int| 0 <= i < g1.len() && 0 <= k < g1[i].outputs@.len() implies #[trigger] g1[i].outputs@[k] < g1.len() by {
                        assert(i < id);
                        assert(g1[i] == g0[i]);
                    }
                    assert forall|i: int| 0 <= i < g1.len() && !(#[trigger] g1[i].kind).has_inputs() implies g1[i].inputs@.len() == 0 by {
                        if i < id {
                            assert(g1[i] == g0[i]);
                        }
                    }
                    assert forall|i: int, k1: int, k2: int|
                        0 <= i < g1.len() && 0 <= k1 < g1[i].inputs@.len() && 0 <= k2 < g1[i].inputs@.len() && k1 != k2
                            implies #[trigger] g1[i].inputs@[k1].node != #[trigger] g1[i].inputs@[k2].node by {
                        assert(i < id);
                        assert(g1[i] == g0[i]);
                    }
                    assert forall|i: int, k1: int, k2: int|
                        0 <= i < g1.len() && 0 <= k1 < g1[i].outputs@.len() && 0 <= k2 < g1[i].outputs@.len() && k1 != k2
                            implies #[trigger] g1[i].outputs@[k1] != #[trigger] g1[i].outputs@[k2] by {
                        assert(i < id);
                        assert(g1[i] == g0[i]);
                    }
                }
                Ok(id)
            },
        }
    }

    /// Adds an Input node holding `value`; fails if the name is taken.
    pub fn create_input(&mut self, name: &str, value: S) -> (r: Result<usize, GraphError>)
        requires
            old(self).wf(),
        ensures
            final(self).wf(),
            created(old(self)@, final(self)@, r, name@, NodeKind::Input),
            r is Ok ==> final(self)@[r->Ok_0 as int].activation == value,
    {
        self.add_node(name, NodeKind::Input, value)
    }

    /// Adds a Constant node holding `value`; fails if the name is taken.
    pub fn create_constant(&mut self, name: &str, value: S) -> (r: Result<usize, GraphError>)
        requires
            old(self).wf(),
        ensures
            final(self).wf(),
            created(old(self)@, final(self)@, r, name@, NodeKind::Constant),
            r is Ok ==> final(self)@[r->Ok_0 as int].activation == value,
    {
        self.add_node(name, NodeKind::Constant, value)
    }

    /// Adds a Sum node without inputs; fails if the name is taken.
    pub fn create_sum(&mut self, name: &str) -> (r: Result<usize, GraphError>)
        requires
            old(self).wf(),
        ensures
            final(self).wf(),
            created(old(self)@, final(self)@, r, name@, NodeKind::Sum),
            r is Ok ==> final(self)@[r->Ok_0 as int].activation == S::spec_zero(),
    {
        self.add_node(name, NodeKind::Sum, S::zero())
    }

    /// Adds a Sigmoid node without inputs; fails if the name is taken.
    pub fn create_sigmoid(&mut self, name: &str) -> (r: Result<usize, GraphError>)
        requires
            old(self).wf(),
        ensures
            final(self).wf(),
            created(old(self)@, final(self)@, r, name@, NodeKind::Sigmoid),
            r is Ok ==> final(self)@[r->Ok_0 as int].activation == S::spec_zero(),
    {
        self.add_node(name, NodeKind::Sigmoid, S::zero())
    }

    /// The last activation evaluated for (or stored in) node `i`, without
    /// recomputing it.
    pub fn last_activation(&self, i: usize) -> (r: S)
        requires
            i < self@.len(),
        ensures
            r == self@[i as int].activation,
    {
        self.nodes[i].activation
    }

    /// The derivative of node `i`'s activation against the producer of its
    /// input edge `k`: the edge weight for a Sum node, `a * (1 - a) * weight`
    /// for a Sigmoid node whose last activation is `a`.
    pub(crate) fn local_derivative(&self, i: usize, k: usize) -> (r: S)
        requires
            self.wf(),
            i < self@.len(),
            k < self@[i as int].inputs@.len(),
        ensures
            r == local_derivative_spec(self@[i as int], k as int),
    {
        let w = self.nodes[i].inputs[k].weight;
        match self.nodes[i].kind {
            NodeKind::Sigmoid => {
                let a = self.nodes[i].activation;
                a.times(S::one().minus(a)).times(w)
            },
            _ => w,
        }
    }

    /// The derivative of node `node`'s activation against the activation of
    /// `input`, one of its immediate inputs. Input and Constant nodes have no
    /// inputs to differentiate against; any other node fails when `input` is
    /// not wired into it.
    pub fn derivative_against(&self, node: usize, input: usize) -> (r: Result<S, GraphError>)
        requires
            self.wf(),
            node < self@.len(),
        ensures
            !self@[node as int].kind.has_inputs() ==> r == Err::<S, GraphError>(GraphError::NoInputs),
            self@[node as int].kind.has_inputs() && !wired(self@[node as int], input as int) ==> r == Err::<
                S,
                GraphError,
            >(GraphError::NotAnInput),
            r is Ok <==> self@[node as int].kind.has_inputs() && wired(self@[node as int], input as int),
            r is Ok ==> r->Ok_0 == local_derivative_spec(
                self@[node as int],
                input_index(self@[node as int], input as int),
            ),
    {
        if !self.nodes[node].kind.accepts_inputs() {
            return Err(GraphError::NoInputs);
        }
        let n = self.nodes[node].inputs.len();
        let mut k: usize = 0;
        while k < n && self.nodes[node].inputs[k].node != input
            invariant
                node < self@.len(),
                self@ == self.nodes@,
                n == self@[node as int].inputs@.len(),
                k <= n,
                forall|j: int| 0 <= j < k ==> #[trigger] self@[node as int].inputs@[j].node != input,
            decreases n - k,
        {
            k += 1;
        }
        if k == n {
            return Err(GraphError::NotAnInput);
        }
        proof {
            let nd = self@[node as int];
            assert(nd.inputs@[k as int].node == input);
            assert(wired(nd, input as int));
            let ki = input_index(nd, input as int);
            assert(nd.inputs@[ki].node == input);
            assert(ki == k) by {
                if ki != k {
                    assert(nd.inputs@[ki].node != nd.inputs@[k as int].node);
                }
            }
        }
        Ok(self.local_derivative(node, k))
    }

    /// The position of producer `p` among node `i`'s input edges.
    pub(crate) fn input_position(&self, i: usize, p: usize) -> (k: usize)
        requires
            self.wf(),
            i < self@.len(),
            wired(self@[i as int], p as int),
        ensures
            k < self@[i as int].inputs@.len(),
            self@[i as int].inputs@[k as int].node == p,
            k == input_index(self@[i as int], p as int),
    {
        let node = self.node(i);
        let n = node.inputs.len();
        let mut k: usize = 0;
        while k < n && node.inputs[k].node != p
            invariant
                *node == self@[i as int],
                n == node.inputs@.len(),
                k <= n,
                forall|j: int| 0 <= j < k ==> #[trigger] node.inputs@[j].node != p,
            decreases n - k,
        {
            k += 1;
        }
        proof {
            let nd = self@[i as int];
            let ki = input_index(nd, p as int);
            assert(nd.inputs@[k as int].node == p);
            assert(nd.inputs@[ki].node == p);
            if ki != k {
                assert(nd.inputs@[ki].node != nd.inputs@[k as int].node);
            }
        }
        k
    }

    /// Stores `v` as node `i`'s activation.
    pub(crate) fn set_activation(&mut self, i: usize, v: S)
        requires
            i < old(self)@.len(),
        ensures
            final(self)@.len() == old(self)@.len(),
            forall|j: int| 0 <= j < old(self)@.len() && j != i ==> #[trigger] final(self)@[j] == old(self)@[j],
            final(self)@[i as int].activation == v,
            final(self)@[i as int].name == old(self)@[i as int].name,
            final(self)@[i as int].kind == old(self)@[i as int].kind,
            final(self)@[i as int].inputs == old(self)@[i as int].inputs,
            final(self)@[i as int].outputs == old(self)@[i as int].outputs,
            final(self)@[i as int].training_state == old(self)@[i as int].training_state,
    {
        self.nodes[i].activation = v;
    }

    /// Stores `ts` as node `i`'s training state.
    pub(crate) fn set_training_state(&mut self, i: usize, ts: TrainingState<S>)
        requires
            i < old(self)@.len(),
        ensures
            final(self)@.len() == old(self)@.len(),
            forall|j: int| 0 <= j < old(self)@.len() && j != i ==> #[trigger] final(self)@[j] == old(self)@[j],
            final(self)@[i as int].training_state == ts,
            final(self)@[i as int].name == old(self)@[i as int].name,
            final(self)@[i as int].kind == old(self)@[i as int].kind,
            final(self)@[i as int].activation == old(self)@[i as int].activation,
            final(self)@[i as int].inputs == old(self)@[i as int].inputs,
            final(self)@[i as int].outputs == old(self)@[i as int].outputs,
    {
        self.nodes[i].training_state = ts;
    }

    /// Replaces the weight of node `i`'s input edge `k` with `w`.
    pub(crate) fn set_weight(&mut self, i: usize, k: usize, w: S)
        requires
            i < old(self)@.len(),
            k < old(self)@[i as int].inputs@.len(),
        ensures
            final(self)@.len() == old(self)@.len(),
            forall|j: int| 0 <= j < old(self)@.len() && j != i ==> #[trigger] final(self)@[j] == old(self)@[j],
            final(self)@[i as int].inputs@ == old(self)@[i as int].inputs@.update(
                k as int,
                NodeWeight { node: old(self)@[i as int].inputs@[k as int].node, weight: w },
            ),
            final(self)@[i as int].name == old(self)@[i as int].name,
            final(self)@[i as int].kind == old(self)@[i as int].kind,
            final(self)@[i as int].activation == old(self)@[i as int].activation,
            final(self)@[i as int].outputs == old(self)@[i as int].outputs,
            final(self)@[i as int].training_state == old(self)@[i as int].training_state,
    {
        self.nodes[i].inputs[k].weight = w;
    }

    /// Sets the value held by Input node `id`; only Input nodes take values
    /// from outside.
    pub fn set_value(&mut self, id: usize, value: S) -> (r: Result<(), GraphError>)
        requires
            old(self).wf(),
            id < old(self)@.len(),
        ensures
            final(self).wf(),
            r is Ok <==> old(self)@[id as int].kind is Input,
            r is Err ==> r == Err::<(), GraphError>(GraphError::UnsupportedOperation) && final(self)@ == old(self)@,
            r is Ok ==> final(self)@ == old(self)@.update(id as int, Node { activation: value, ..old(self)@[id as int] }),
    {
        match self.nodes[id].kind {
            NodeKind::Input => {},
            _ => {
                return Err(GraphError::UnsupportedOperation);
            },
        }
        let ghost g0 = self@;
        self.set_activation(id, value);
        proof {
            assert(self@ =~= g0.update(id as int, Node { activation: value, ..g0[id as int] }));
            assert(same_structure(g0, self@)) by {
                assert forall|i: int| 0 <= i < g0.len() implies same_shape(#[trigger] g0[i], self@[i]) by {
                    assert(self@[i].inputs == g0[i].inputs);
                }
            }
            lemma_same_structure_wf(g0, self@);
        }
        Ok(())
    }

    /// Wires the output of `a` into `b` with edge weight `weight`. Re-wiring
    /// an existing edge only replaces its weight. Input and Constant nodes
    /// take no inputs: wiring into one fails and leaves the graph unchanged.
    pub fn connect_init(&mut self, a: usize, b: usize, weight: S) -> (r: Result<(), GraphError>)
        requires
            old(self).wf(),
            a < old(self)@.len(),
            b < old(self)@.len(),
        ensures
            final(self).wf(),
            r is Err <==> !old(self)@[b as int].kind.has_inputs(),
            r is Err ==> r == Err::<(), GraphError>(GraphError::UnsupportedOperation) && final(self)@
                == old(self)@,
            r is Ok ==> rewired(old(self)@, final(self)@, a as int, b as int, weight),
    {
        if !self.nodes[b].kind.accepts_inputs() {
            return Err(GraphError::UnsupportedOperation);
        }
        let ghost g0 = self@;
        let n = self.nodes[b].inputs.len();
        let mut k: usize = 0;
        while k < n && self.nodes[b].inputs[k].node != a
            invariant
                self@ == g0,
                self.nodes@ == g0,
                b < g0.len(),
                n == g0[b as int].inputs@.len(),
                k <= n,
                forall|j: int| 0 <= j < k ==> #[trigger] g0[b as int].inputs@[j].node != a,
            decreases n - k,
        {
            k += 1;
        }
        if k < n {
            let nw = NodeWeight { node: a, weight };
            self.nodes[b].inputs[k] = nw;
            proof {
                let g1 = self@;
                let kk = k as int;
                assert(g0[b as int].inputs@[kk].node == a);
                assert(wired(g0[b as int], a as int));
                let ki = input_index(g0[b as int], a as int);
                assert(ki == kk) by {
                    assert(g0[b as int].inputs@[ki].node == a);
                }
                assert(g1[b as int].inputs@ == g0[b as int].inputs@.update(kk, nw));
                assert(same_structure(g0, g1)) by {
                    assert forall|i: int| 0 <= i < g0.len() implies same_shape(#[trigger] g0[i], g1[i]) by {
                        if i == b {
                            assert forall|j: int| 0 <= j < g0[i].inputs@.len() implies #[trigger] g0[i].inputs@[j].node
                                == g1[i].inputs@[j].node by {}
                        }
                    }
                }
                lemma_same_structure_wf(g0, g1);
            }
        } else {
            let nw = NodeWeight { node: a, weight };
            self.nodes[a].outputs.push(b);
            self.nodes[b].inputs.push(nw);
            proof {
                let g1 = self@;
                let ai = a as int;
                let bi = b as int;
                assert(!wired(g0[bi], ai));
                assert(!feeds(g0[ai], bi));
                assert(g1[ai].outputs@ == g0[ai].outputs@.push(b));
                assert(g1[bi].inputs@ == g0[bi].inputs@.push(nw));
                assert forall|p: int, c: int| 0 <= p < g1.len() && 0 <= c < g1.len() implies (feeds(
                    #[trigger] g1[p],
                    c,
                ) <==> wired(#[trigger] g1[c], p)) by {
                    if feeds(g0[p], c) {
                        let k = choose|k: int| 0 <= k < g0[p].outputs@.len() && g0[p].outputs@[k] as int == c;
                        assert(g1[p].outputs@[k] == g0[p].outputs@[k]);
                    }
                    if wired(g0[c], p) {
                        let k = choose|k: int| 0 <= k < g0[c].inputs@.len() && g0[c].inputs@[k].node as int == p;
                        assert(g1[c].inputs@[k] == g0[c].inputs@[k]);
                    }
                    if feeds(g1[p], c) {
                        let k = choose|k: int| 0 <= k < g1[p].outputs@.len() && g1[p].outputs@[k] as int == c;
                        if p == ai && k == g0[ai].outputs@.len() {
                            assert(g1[bi].inputs@[g0[bi].inputs@.len() as int] == nw);
                        } else {
                            assert(g1[p].outputs@[k] == g0[p].outputs@[k]);
                        }
                    }
                    if wired(g1[c], p) {
                        let k = choose|k: int| 0 <= k < g1[c].inputs@.len() && g1[c].inputs@[k].node as int == p;
                        if c == bi && k == g0[bi].inputs@.len() {
                            assert(g1[ai].outputs@[g0[ai].outputs@.len() as int] == b);
                        } else {
                            assert(g1[c].inputs@[k] == g0[c].inputs@[k]);
                        }
                    }
                }
                assert forall|i: int, j: int| 0 <= i < g1.len() && 0 <= j < g1.len() && i != j implies #[trigger] g1[i].name@
                    != #[trigger] g1[j].name@ by {
                    assert(g1[i].name == g0[i].name);
                    assert(g1[j].name == g0[j].name);
                }
                assert forall|i: int| 0 <= i < g1.len() && !(#[trigger] g1[i].kind).has_inputs() implies g1[i].inputs@.len()
                    == 0 by {
                    assert(g1[i].kind == g0[i].kind);
                }
                assert forall|i: int, k: int| 0 <= i < g1.len() && 0 <= k < g1[i].inputs@.len() implies #[trigger] g1[i].inputs@[k].node
                    < g1.len() by {
                    if !(i == bi && k == g0[bi].inputs@.len()) {
                        assert(g1[i].inputs@[k] == g0[i].inputs@[k]);
                    }
                }
                assert forall|i: int, k1: int, k2: int|
                    0 <= i < g1.len() && 0 <= k1 < g1[i].inputs@.len() && 0 <= k2 < g1[i].inputs@.len() && k1 != k2
                        implies #[trigger] g1[i].inputs@[k1].node != #[trigger] g1[i].inputs@[k2].node by {
                    let last = g0[bi].inputs@.len() as int;
                    if i == bi && (k1 == last || k2 == last) {
                        if k1 == last {
                            assert(g1[i].inputs@[k2] == g0[i].inputs@[k2]);
                        } else {
                            assert(g1[i].inputs@[k1] == g0[i].inputs@[k1]);
                        }
                    } else {
                        assert(g1[i].inputs@[k1] == g0[i].inputs@[k1]);
                        assert(g1[i].inputs@[k2] == g0[i].inputs@[k2]);
                    }
                }
                assert forall|i: int, k: int| 0 <= i < g1.len() && 0 <= k < g1[i].outputs@.len() implies #[trigger] g1[i].outputs@[k]
                    < g1.len() by {
                    if !(i == ai && k == g0[ai].outputs@.len()) {
                        assert(g1[i].outputs@[k] == g0[i].outputs@[k]);
                    }
                }
                assert forall|i: int, k1: int, k2: int|
                    0 <= i < g1.len() && 0 <= k1 < g1[i].outputs@.len() && 0 <= k2 < g1[i].outputs@.len() && k1 != k2
                        implies #[trigger] g1[i].outputs@[k1] != #[trigger] g1[i].outputs@[k2] by {
                    let last = g0[ai].outputs@.len() as int;
                    if i == ai && (k1 == last || k2 == last) {
                        if k1 == last {
                            assert(g1[i].outputs@[k2] == g0[i].outputs@[k2]);
                        } else {
                            assert(g1[i].outputs@[k1] == g0[i].outputs@[k1]);
                        }
                    } else {
                        assert(g1[i].outputs@[k1] == g0[i].outputs@[k1]);
                        assert(g1[i].outputs@[k2] == g0[i].outputs@[k2]);
                    }
                }
            }
        }
        Ok(())
    }
}

} // verus!
