//! A small computational-graph engine: scalar nodes wired into a DAG, with
//! forward evaluation, memoized reverse-mode differentiation and a
//! gradient-descent weight update.
//!
//! The engine is generic over the scalar it computes with (see [`Scalar`]).
//! Its contracts state both the structure (the node arena and its invariant,
//! wiring and its errors, cycle detection, which nodes each pass touches, the
//! per-iteration memo) and the values: each activation, derivative and new
//! weight is stated as the exact combination of the scalar's operations that
//! the rules of forward evaluation, the chain rule and gradient descent give.

use vstd::prelude::*;

pub mod scalar;
pub mod graph;
pub mod order;
pub mod forward;
pub mod backward;
pub mod update;

pub use scalar::Scalar;
pub use graph::{Graph, GraphError, Node, NodeKind, NodeWeight, TrainingState};
pub use backward::DerivativeCalculationParams;

verus! {

/// `std::sync::Mutex`, carried opaquely.
#[verifier::external_type_specification]
#[verifier::external_body]
#[verifier::reject_recursive_types(T)]
pub struct ExMutex<T: ?Sized>(std::sync::Mutex<T>);

/// Relies on `std::sync::Mutex::new`: it wraps the value in a fresh, unlocked mutex.
pub assume_specification<T>[ std::sync::Mutex::<T>::new ](t: T) -> (r: std::sync::Mutex<T>);

/// Shared, lockable ownership of a value: for holders that outlive one another,
/// such as a graph handed to a loss callback.
pub type AM<T> = std::sync::Arc<std::sync::Mutex<T>>;

/// Wraps `x` for shared, lockable ownership.
pub fn am<T>(x: T) -> (r: std::sync::Arc<std::sync::Mutex<T>>) {
    std::sync::Arc::new(std::sync::Mutex::new(x))
}

} // verus!
