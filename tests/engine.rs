use rusty_brain::{am, DerivativeCalculationParams, Graph, GraphError, NodeKind, Scalar};

#[derive(Clone, Copy, Debug, PartialEq)]
struct F(f64);

impl Scalar for F {
    fn spec_zero() -> Self {
        Self::zero()
    }

    fn spec_one() -> Self {
        Self::one()
    }

    fn spec_plus(self, other: Self) -> Self {
        self.plus(other)
    }

    fn spec_minus(self, other: Self) -> Self {
        self.minus(other)
    }

    fn spec_times(self, other: Self) -> Self {
        self.times(other)
    }

    fn spec_logistic(self) -> Self {
        self.logistic()
    }

    fn zero() -> Self {
        F(0.0)
    }

    fn one() -> Self {
        F(1.0)
    }

    fn plus(self, other: Self) -> Self {
        F(self.0 + other.0)
    }

    fn minus(self, other: Self) -> Self {
        F(self.0 - other.0)
    }

    fn times(self, other: Self) -> Self {
        F(self.0 * other.0)
    }

    fn logistic(self) -> Self {
        F(1.0 / (1.0 + (-self.0).exp()))
    }
}

fn seeds(iteration: i32, entries: &[(&str, f64)]) -> DerivativeCalculationParams<F> {
    DerivativeCalculationParams {
        calc_derivative_iteration: iteration,
        output_nodes_loss_fn_derivative: entries.iter().map(|(n, v)| (n.to_string(), F(*v))).collect(),
    }
}

/// A feeds B (weight 2) and C (weight 3); B and C feed D (weight 1 each).
fn diamond() -> (Graph<F>, [usize; 4]) {
    let mut g = Graph::new();
    let a = g.create_input("A", F(1.5)).unwrap();
    let b = g.create_sum("B").unwrap();
    let c = g.create_sum("C").unwrap();
    let d = g.create_sum("D").unwrap();
    g.connect_init(a, b, F(2.0)).unwrap();
    g.connect_init(a, c, F(3.0)).unwrap();
    g.connect_init(b, d, F(1.0)).unwrap();
    g.connect_init(c, d, F(1.0)).unwrap();
    (g, [a, b, c, d])
}

#[test]
fn sum_node_forward() {
    let mut g = Graph::new();
    let a = g.create_input("a", F(2.0)).unwrap();
    let b = g.create_input("b", F(4.0)).unwrap();
    let s = g.create_sum("s").unwrap();
    g.connect_init(a, s, F(0.5)).unwrap();
    g.connect_init(b, s, F(1.0)).unwrap();
    assert_eq!(g.activation(s), Ok(F(5.0)));
    assert_eq!(g.last_activation(s), F(5.0));
}

#[test]
fn sigmoid_forward_at_zero() {
    let mut g = Graph::new();
    let a = g.create_input("a", F(0.0)).unwrap();
    let s = g.create_sigmoid("s").unwrap();
    g.connect_init(a, s, F(0.7)).unwrap();
    assert_eq!(g.activation(s), Ok(F(0.5)));
}

#[test]
fn sigmoid_forward_saturates() {
    let mut g = Graph::new();
    let a = g.create_input("a", F(1000.0)).unwrap();
    let s = g.create_sigmoid("s").unwrap();
    g.connect_init(a, s, F(1.0)).unwrap();
    let v = g.activation(s).unwrap().0;
    assert!((v - 1.0).abs() < 1e-12);
    let mut g2 = Graph::new();
    let a2 = g2.create_input("a", F(20.0)).unwrap();
    let s2 = g2.create_sigmoid("s").unwrap();
    g2.connect_init(a2, s2, F(1.0)).unwrap();
    let v2 = g2.activation(s2).unwrap().0;
    assert!(v2 < 1.0 && v2 > 1.0 - 1e-8);
    assert!(v2 <= v);
}

#[test]
fn sigmoid_without_inputs_is_one_half() {
    let mut g = Graph::new();
    let s = g.create_sigmoid("s").unwrap();
    assert_eq!(g.activation(s), Ok(F(0.5)));
}

#[test]
fn propagate_twice_hits_memo() {
    let (mut g, [a, _b, _c, d]) = diamond();
    g.evaluate(&vec![d]).unwrap();
    let first = g.propagate(a, &seeds(7, &[("D", 1.0)])).unwrap();
    assert_eq!(first, F(5.0));
    // Same token, different seed: a recomputation would give 500.
    let second = g.propagate(a, &seeds(7, &[("D", 100.0)])).unwrap();
    assert_eq!(second, F(5.0));
    assert_eq!(g.node(d).training_state.dloss, F(1.0));
    // A new token recomputes.
    let third = g.propagate(a, &seeds(8, &[("D", 100.0)])).unwrap();
    assert_eq!(third, F(500.0));
}

#[test]
fn diamond_sums_both_paths() {
    let (mut g, [a, b, c, d]) = diamond();
    g.evaluate(&vec![d]).unwrap();
    let unseeded = g.propagate_all(&vec![a], &seeds(0, &[("D", 1.0)])).unwrap();
    assert!(unseeded.is_empty());
    assert_eq!(g.node(a).training_state.dloss, F(5.0));
    assert_eq!(g.node(b).training_state.dloss, F(1.0));
    assert_eq!(g.node(c).training_state.dloss, F(1.0));
    for n in [a, b, c, d] {
        assert_eq!(g.node(n).training_state.calc_derivative_iteration, 0);
    }
}

#[test]
fn sum_weight_update() {
    let mut g = Graph::new();
    let x = g.create_input("x", F(3.0)).unwrap();
    let s = g.create_sum("s").unwrap();
    g.connect_init(x, s, F(0.7)).unwrap();
    g.activation(s).unwrap();
    g.propagate_all(&vec![x], &seeds(1, &[("s", 2.0)])).unwrap();
    assert_eq!(g.node(s).training_state.dloss, F(2.0));
    g.apply_updates(F(0.1));
    assert_eq!(g.node(s).inputs[0].weight, F(0.7 - 0.1 * (2.0 * 3.0)));
    assert!((g.node(s).inputs[0].weight.0 - 0.1).abs() < 1e-12);
}

#[test]
fn sigmoid_weight_update_uses_local_derivative() {
    let mut g = Graph::new();
    let x = g.create_input("x", F(2.0)).unwrap();
    let s = g.create_sigmoid("s").unwrap();
    g.connect_init(x, s, F(0.0)).unwrap();
    assert_eq!(g.activation(s), Ok(F(0.5)));
    g.propagate_all(&vec![x], &seeds(1, &[("s", 4.0)])).unwrap();
    g.update_weights(s, F(0.5));
    // gradient = 4 * 0.5 * 0.5 * 2 = 2; weight = 0 - 0.5 * 2
    assert_eq!(g.node(s).inputs[0].weight, F(-1.0));
}

#[test]
fn activation_is_idempotent() {
    let mut g = Graph::new();
    let a = g.create_input("a", F(0.3)).unwrap();
    let b = g.create_constant("bias", F(1.0)).unwrap();
    let h = g.create_sigmoid("h").unwrap();
    let o = g.create_sum("o").unwrap();
    g.connect_init(a, h, F(0.17)).unwrap();
    g.connect_init(b, h, F(-0.4)).unwrap();
    g.connect_init(h, o, F(1.3)).unwrap();
    g.connect_init(a, o, F(0.1)).unwrap();
    let first = g.activation(o).unwrap();
    let second = g.activation(o).unwrap();
    assert_eq!(first.0.to_bits(), second.0.to_bits());
}

#[test]
fn wiring_into_input_is_refused() {
    let mut g = Graph::new();
    let x = g.create_sum("x").unwrap();
    let i = g.create_input("i", F(1.0)).unwrap();
    assert_eq!(g.connect_init(x, i, F(0.5)), Err(GraphError::UnsupportedOperation));
    assert!(g.node(i).inputs.is_empty());
    assert!(g.node(x).outputs.is_empty());
    let k = g.create_constant("k", F(1.0)).unwrap();
    assert_eq!(g.connect_init(x, k, F(0.5)), Err(GraphError::UnsupportedOperation));
    assert!(g.node(x).outputs.is_empty());
}

#[test]
fn duplicate_name_is_refused() {
    let mut g: Graph<F> = Graph::new();
    g.create_input("n", F(1.0)).unwrap();
    assert_eq!(g.create_sum("n"), Err(GraphError::DuplicateName));
    assert_eq!(g.create_sigmoid("n"), Err(GraphError::DuplicateName));
    assert_eq!(g.create_constant("n", F(2.0)), Err(GraphError::DuplicateName));
    assert_eq!(g.create_input("n", F(2.0)), Err(GraphError::DuplicateName));
    assert_eq!(g.len(), 1);
}

#[test]
fn lookup_by_name() {
    let (g, [_a, b, _c, d]) = diamond();
    assert_eq!(g.lookup("B"), Some(b));
    assert_eq!(g.lookup("D"), Some(d));
    assert_eq!(g.lookup("E"), None);
    assert_eq!(g.node(b).kind, NodeKind::Sum);
    assert_eq!(g.node(b).name, "B");
}

#[test]
fn rewiring_replaces_weight() {
    let mut g = Graph::new();
    let a = g.create_input("a", F(2.0)).unwrap();
    let s = g.create_sum("s").unwrap();
    g.connect_init(a, s, F(1.0)).unwrap();
    g.connect_init(a, s, F(3.0)).unwrap();
    assert_eq!(g.node(s).inputs.len(), 1);
    assert_eq!(g.node(a).outputs, vec![s]);
    assert_eq!(g.activation(s), Ok(F(6.0)));
}

#[test]
fn derivative_against_each_kind() {
    let mut g = Graph::new();
    let a = g.create_input("a", F(0.0)).unwrap();
    let k = g.create_constant("k", F(1.0)).unwrap();
    let s = g.create_sum("s").unwrap();
    let z = g.create_sigmoid("z").unwrap();
    g.connect_init(a, s, F(0.25)).unwrap();
    g.connect_init(a, z, F(3.0)).unwrap();
    g.activation(z).unwrap();
    assert_eq!(g.derivative_against(s, a), Ok(F(0.25)));
    assert_eq!(g.derivative_against(z, a), Ok(F(0.75)));
    assert_eq!(g.derivative_against(s, k), Err(GraphError::NotAnInput));
    assert_eq!(g.derivative_against(a, s), Err(GraphError::NoInputs));
    assert_eq!(g.derivative_against(k, a), Err(GraphError::NoInputs));
}

#[test]
fn cycle_is_reported() {
    let mut g = Graph::new();
    let a = g.create_input("a", F(1.0)).unwrap();
    let s = g.create_sum("s").unwrap();
    let t = g.create_sum("t").unwrap();
    g.connect_init(a, s, F(1.0)).unwrap();
    g.connect_init(s, t, F(1.0)).unwrap();
    g.connect_init(t, s, F(1.0)).unwrap();
    assert_eq!(g.activation(t), Err(GraphError::CycleDetected));
    assert_eq!(g.topological_order(), Err(GraphError::CycleDetected));
    assert_eq!(g.propagate(a, &seeds(0, &[])), Err(GraphError::CycleDetected));
    assert_eq!(g.node(a).training_state.calc_derivative_iteration, -1);
    assert_eq!(g.propagate_all(&vec![a], &seeds(0, &[])), Err(GraphError::CycleDetected));
    assert_eq!(g.evaluate(&vec![s]), Err(GraphError::CycleDetected));
}

#[test]
fn self_loop_is_a_cycle() {
    let mut g: Graph<F> = Graph::new();
    let s = g.create_sum("s").unwrap();
    g.connect_init(s, s, F(1.0)).unwrap();
    assert_eq!(g.activation(s), Err(GraphError::CycleDetected));
}

#[test]
fn topological_order_puts_producers_first() {
    let mut g = Graph::new();
    let d = g.create_sum("d").unwrap();
    let c = g.create_sum("c").unwrap();
    let a = g.create_input("a", F(1.0)).unwrap();
    g.connect_init(c, d, F(1.0)).unwrap();
    g.connect_init(a, c, F(1.0)).unwrap();
    let ord = g.topological_order().unwrap();
    assert_eq!(ord.len(), 3);
    let pos = |x: usize| ord.iter().position(|&y| y == x).unwrap();
    assert!(pos(a) < pos(c));
    assert!(pos(c) < pos(d));
}

#[test]
fn unseeded_terminal_defaults_to_zero() {
    let mut g = Graph::new();
    let a = g.create_input("a", F(1.0)).unwrap();
    let o1 = g.create_sum("o1").unwrap();
    let o2 = g.create_sum("o2").unwrap();
    g.connect_init(a, o1, F(2.0)).unwrap();
    g.connect_init(a, o2, F(5.0)).unwrap();
    g.evaluate(&vec![o1, o2]).unwrap();
    let unseeded = g.propagate_all(&vec![a], &seeds(3, &[("o1", 1.0)])).unwrap();
    assert_eq!(unseeded, vec![o2]);
    assert_eq!(g.node(o2).training_state.dloss, F(0.0));
    assert_eq!(g.node(a).training_state.dloss, F(2.0));
}

#[test]
fn evaluate_returns_in_order() {
    let (mut g, [a, b, c, d]) = diamond();
    assert_eq!(g.evaluate(&vec![d, b, c, a]), Ok(vec![F(7.5), F(3.0), F(4.5), F(1.5)]));
    assert_eq!(g.evaluate(&vec![]), Ok(vec![]));
}

#[test]
fn activation_recomputes_ancestors_only() {
    let (mut g, [_a, b, c, d]) = diamond();
    assert_eq!(g.activation(b), Ok(F(3.0)));
    assert_eq!(g.last_activation(c), F(0.0));
    assert_eq!(g.last_activation(d), F(0.0));
}

#[test]
fn params_from_callback() {
    let names = vec!["o1".to_string(), "o2".to_string()];
    let p: DerivativeCalculationParams<F> =
        DerivativeCalculationParams::new(4, names, |n: &str| if n == "o1" { F(1.0) } else { F(-2.0) });
    assert_eq!(p.calc_derivative_iteration, 4);
    assert_eq!(p.seed(&"o1".to_string()), Some(F(1.0)));
    assert_eq!(p.seed(&"o2".to_string()), Some(F(-2.0)));
    assert_eq!(p.seed(&"o3".to_string()), None);
}

#[test]
fn first_seed_entry_counts() {
    let p = seeds(0, &[("o", 1.0), ("o", 9.0)]);
    assert_eq!(p.seed(&"o".to_string()), Some(F(1.0)));
}

#[test]
fn weighted_activation_of_edge() {
    let e = rusty_brain::NodeWeight::new(3, F(0.5));
    assert_eq!(e.node, 3);
    assert_eq!(e.calc_weighted_activation(F(4.0)), F(2.0));
}

#[test]
fn shared_handle_wraps_value() {
    let g: Graph<F> = Graph::new();
    let shared = am(g);
    assert_eq!(shared.lock().unwrap().len(), 0);
}

#[test]
fn set_value_feeds_next_evaluation() {
    let mut g = Graph::new();
    let a = g.create_input("a", F(1.0)).unwrap();
    let s = g.create_sum("s").unwrap();
    g.connect_init(a, s, F(4.0)).unwrap();
    assert_eq!(g.activation(s), Ok(F(4.0)));
    assert_eq!(g.set_value(a, F(0.5)), Ok(()));
    assert_eq!(g.last_activation(a), F(0.5));
    assert_eq!(g.activation(s), Ok(F(2.0)));
}

#[test]
fn set_value_only_on_inputs() {
    let mut g = Graph::new();
    let k = g.create_constant("k", F(1.0)).unwrap();
    let s = g.create_sum("s").unwrap();
    assert_eq!(g.set_value(k, F(2.0)), Err(GraphError::UnsupportedOperation));
    assert_eq!(g.set_value(s, F(2.0)), Err(GraphError::UnsupportedOperation));
    assert_eq!(g.last_activation(k), F(1.0));
}

#[test]
fn propagate_all_on_cycle_changes_nothing() {
    let mut g = Graph::new();
    let a = g.create_input("a", F(1.0)).unwrap();
    let s = g.create_sum("s").unwrap();
    let t = g.create_sum("t").unwrap();
    g.connect_init(a, s, F(1.0)).unwrap();
    g.connect_init(s, t, F(1.0)).unwrap();
    g.connect_init(t, s, F(1.0)).unwrap();
    assert_eq!(g.propagate_all(&vec![a], &seeds(5, &[("t", 1.0)])), Err(GraphError::CycleDetected));
    for n in [a, s, t] {
        assert_eq!(g.node(n).training_state.calc_derivative_iteration, -1);
        assert_eq!(g.node(n).training_state.dloss, F(0.0));
    }
}
