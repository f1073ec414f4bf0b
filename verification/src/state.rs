//! The state wrapper continuation bodies work with: a small vocabulary for
//! turning a carried state into the outcome of a step.

use crate::thunk::{Continuation, Outcome, Transform};
use crate::val::Val;
use vstd::prelude::*;

verus! {

/// The state a continuation body carries, with constructors for its next
/// outcome.
pub struct PromiseState {
    pub value: Val,
}

impl PromiseState {
    /// Wrap a state value.
    pub fn new(value: Val) -> (s: PromiseState)
        ensures
            s.value == value,
    {
        PromiseState { value }
    }

    /// Settle successfully with `result`, carrying the state onward.
    pub fn resolve<F: Continuation<M>, M: Transform>(self, result: Val) -> (o: Outcome<F, M>)
        ensures
            o == Outcome::<F, M>::Settle(Ok(result), self.value),
    {
        Outcome::Settle(Ok(result), self.value)
    }

    /// Settle successfully with `result`; a shorthand beside `resolve`.
    pub fn ok<F: Continuation<M>, M: Transform>(self, result: Val) -> (o: Outcome<F, M>)
        ensures
            o == Outcome::<F, M>::Settle(Ok(result), self.value),
    {
        Outcome::Settle(Ok(result), self.value)
    }

    /// Settle with the failure `error`, carrying the state onward.
    pub fn reject<F: Continuation<M>, M: Transform>(self, error: Val) -> (o: Outcome<F, M>)
        ensures
            o == Outcome::<F, M>::Settle(Err(error), self.value),
    {
        Outcome::Settle(Err(error), self.value)
    }

    /// Settle with the failure `error`; a shorthand beside `reject`.
    pub fn err<F: Continuation<M>, M: Transform>(self, error: Val) -> (o: Outcome<F, M>)
        ensures
            o == Outcome::<F, M>::Settle(Err(error), self.value),
    {
        Outcome::Settle(Err(error), self.value)
    }

    /// Settle with a ready-made outcome, carrying the state onward.
    pub fn result<F: Continuation<M>, M: Transform>(self, result: Result<Val, Val>) -> (o: Outcome<
        F,
        M,
    >)
        ensures
            o == Outcome::<F, M>::Settle(result, self.value),
    {
        Outcome::Settle(result, self.value)
    }

    /// Settle successfully with no payload.
    pub fn pass<F: Continuation<M>, M: Transform>(self) -> (o: Outcome<F, M>)
        ensures
            o == Outcome::<F, M>::Settle(Ok(Val::Unit), self.value),
    {
        Outcome::Settle(Ok(Val::Unit), self.value)
    }

    /// Replace the carried state.
    pub fn with(self, value: Val) -> (s: PromiseState)
        ensures
            s.value == value,
    {
        PromiseState { value }
    }
}

} // verus!
