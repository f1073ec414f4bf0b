//! The seam through which caller-defined continuation bodies enter the
//! engine.
//!
//! The original runtime stores continuations as one-shot closures; here a
//! continuation body is a value of a caller-chosen type implementing
//! [`Continuation`], whose specification function pins down exactly what the
//! executable call returns.  The engine is verified for every implementation
//! of these traits.

use crate::promise::Promise;
use crate::val::Val;
use vstd::prelude::*;

verus! {

/// What a continuation body produces when it runs.
pub enum Outcome<F, M> {
    /// Settle immediately with an outcome and a new state.
    Settle(Result<Val, Val>, Val),
    /// Produce a further promise to await; its settlement becomes this
    /// promise's settlement (or, in a loop, the next input to the body).
    Wait(Promise<F, M>),
    /// Only meaningful inside a loop: run another iteration with this state.
    Next(Val),
}

/// A pure payload transform, the argument of `map`, `map_err` and
/// `map_state`.
pub trait Transform: Sized {
    /// What `apply` returns.
    spec fn spec_apply(&self, v: Val) -> Val;

    /// Apply the transform.
    fn apply(&self, v: Val) -> (r: Val)
        ensures
            r == self.spec_apply(v),
    ;
}

/// A continuation body: given the carried state and the settled outcome of
/// the step before it, decide how to go on.
pub trait Continuation<M: Transform>: Sized {
    /// What `call` returns.
    spec fn spec_call(&self, state: Val, input: Result<Val, Val>) -> Outcome<Self, M>;

    /// Run the body once.
    fn call(&self, state: Val, input: Result<Val, Val>) -> (o: Outcome<Self, M>)
        ensures
            o == self.spec_call(state, input),
    ;
}

} // verus!
