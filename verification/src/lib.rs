//! Reactive signals with glitch-free propagation.
//!
//! A signal is a value cell that other signals can depend on. Updating a
//! signal arms the whole transitive fan-out first (each affected receiver
//! counts how many update paths reach it) and only then resolves the
//! pending notifications, so a derived signal recomputes exactly once per
//! update wave, never from a half-updated set of ancestors.
//!
//! All signals of one dependency graph live in a [`engine::Network`] arena
//! and are addressed by stable ids ([`engine::Signal`] handles). The
//! behaviour of every operation is stated against the mathematical model in
//! [`model`], and the glitch-freedom guarantees are proved in [`laws`].
//!
//! Dependency graphs must be acyclic. The engine enforces that by ranks:
//! every cell carries a topological height, and `add_receiver` only accepts
//! edges towards strictly greater ranks. `new` gives rank zero and `driven`
//! ranks a derived signal strictly above all of its dependencies, so wiring
//! each derived signal to be notified by its dependencies always satisfies
//! the rule.

use vstd::prelude::*;

pub mod engine;
pub mod laws;
pub mod model;
pub mod procs;

pub use engine::Network;
pub use engine::Signal;
pub use engine::Token;

verus! {

/// A pure computation that a derived signal runs over the current values of
/// its dependencies. `apply` is the mathematical meaning; `compute` is the
/// executable form, proved to agree with it.
pub trait Processor<T>: Sized {
    spec fn apply(&self, inputs: Seq<T>) -> T;

    fn compute(&self, inputs: &Vec<T>) -> (r: T)
        ensures
            r == self.apply(inputs@),
    ;
}

/// A deterministic observer attached to a derived signal. After each
/// recomputation it is handed the previous and the newly computed value and
/// moves to the state `step` describes.
pub trait Effect<T>: Sized {
    spec fn step(&self, before: T, after: T) -> Self;

    fn run(&mut self, before: T, after: T)
        ensures
            *final(self) == old(self).step(before, after),
    ;
}

} // verus!
