//! Promise values: descriptions of continuation chains.
//!
//! A [`Promise`] is pure data — building one has no side effect.  It becomes
//! pending only when an engine registers it, at which point every node of the
//! tree receives a fresh identifier and a registry record.  The combinators
//! here mirror the classic algebra: `then`, `ok_then`, `catch`, `map`,
//! `map_err`, `map_state`, `repeat`, `any` and `all`.

use crate::thunk::{Continuation, Transform};
use crate::val::Val;
use vstd::prelude::*;

verus! {

/// How a child's settlement reaches the promise built on top of it.
pub enum Link<F, M> {
    /// Combined handler: the body sees the outcome, success or failure.
    Then(F),
    /// Split success handler; a failure arriving here finds no handler and
    /// triggers the orphan rule.
    ThenOk(F),
    /// Split failure handler; success is forwarded unchanged.
    Catch(F),
    /// Pure transform of a success payload; failures pass through.
    MapOk(M),
    /// Pure transform of a failure payload; successes pass through.
    MapErr(M),
    /// Pure transform of the carried state.
    MapState(M),
}

/// A promise value.  `F` is the caller's continuation-body type and `M` the
/// caller's transform type.
pub enum Promise<F, M> {
    /// External work: announced to the host as `(kind, arg)` when registered,
    /// settled later through the command queue, cancelled on discard.
    External(u64, u64),
    /// Settles immediately upon registration with the given outcome and
    /// state.
    Ready(Result<Val, Val>, Val),
    /// Runs the body once with the given state when its turn comes.
    Start(Val, F),
    /// Runs the body repeatedly: `Next` continues the loop, `Wait` awaits and
    /// feeds the result back to the body, `Settle` breaks.
    Loop(Val, F),
    /// A chain step: the inner promise runs first and its settlement is
    /// routed through the link.
    Chain(Box<Promise<F, M>>, Link<F, M>),
    /// Fan-in: the first arm to settle wins and every sibling is discarded.
    Any(Arms<F, M>),
    /// Fan-in: settles once every arm has settled, with the outcomes in arm
    /// order.
    All(Arms<F, M>),
}

/// The arms of a fan-in combinator, in order.
pub enum Arms<F, M> {
    Nil,
    Cons(Box<Promise<F, M>>, Box<Arms<F, M>>),
}

/// How many nodes a promise tree holds: the number of identifiers its
/// registration will issue.
pub open spec fn spec_size<F, M>(p: Promise<F, M>) -> nat
    decreases p,
{
    match p {
        Promise::External(_, _) => 1,
        Promise::Ready(_, _) => 1,
        Promise::Start(_, _) => 1,
        Promise::Loop(_, _) => 1,
        Promise::Chain(inner, _) => 1 + spec_size(*inner),
        Promise::Any(arms) => 1 + spec_arms_size(arms),
        Promise::All(arms) => 1 + spec_arms_size(arms),
    }
}

/// The node count of a list of arms.
pub open spec fn spec_arms_size<F, M>(arms: Arms<F, M>) -> nat
    decreases arms,
{
    match arms {
        Arms::Nil => 0,
        Arms::Cons(head, tail) => spec_size(*head) + spec_arms_size(*tail),
    }
}

/// The arms as a sequence, head first.
pub open spec fn spec_arm_seq<F, M>(arms: Arms<F, M>) -> Seq<Promise<F, M>>
    decreases arms,
{
    match arms {
        Arms::Nil => Seq::empty(),
        Arms::Cons(head, tail) => seq![*head] + spec_arm_seq(*tail),
    }
}

impl<F, M> Arms<F, M> {
    /// Collect promises into arms, preserving order.
    pub fn from_vec(items: Vec<Promise<F, M>>) -> (arms: Arms<F, M>)
        ensures
            spec_arm_seq(arms) == items@,
    {
        let mut items = items;
        let mut arms = Arms::Nil;
        let ghost orig = items@;
        loop
            invariant
                orig == items@ + spec_arm_seq(arms),
            ensures
                items@.len() == 0,
            decreases items@.len(),
        {
            match items.pop() {
                Some(p) => {
                    arms = Arms::Cons(Box::new(p), Box::new(arms));
                    proof {
                        assert(orig =~= items@ + spec_arm_seq(arms));
                    }
                },
                None => {
                    break ;
                },
            }
        }
        proof {
            assert(orig =~= spec_arm_seq(arms));
        }
        arms
    }
}

impl<F, M> Promise<F, M> where F: Continuation<M>, M: Transform {
    /// External work, to be completed later by a task adapter: announced
    /// as `(kind, arg)` on registration, cleaned up on discard.
    pub fn external(kind: u64, arg: u64) -> (p: Promise<F, M>)
        ensures
            p == Promise::<F, M>::External(kind, arg),
    {
        Promise::External(kind, arg)
    }

    /// A promise that resolves immediately with `result` and `state`.
    pub fn resolved(result: Val, state: Val) -> (p: Promise<F, M>)
        ensures
            p == Promise::<F, M>::Ready(Ok(result), state),
    {
        Promise::Ready(Ok(result), state)
    }

    /// A promise that rejects immediately with `error` and `state`.
    pub fn rejected(error: Val, state: Val) -> (p: Promise<F, M>)
        ensures
            p == Promise::<F, M>::Ready(Err(error), state),
    {
        Promise::Ready(Err(error), state)
    }

    /// A promise that carries `state` onward with a unit result.
    pub fn from_state(state: Val) -> (p: Promise<F, M>)
        ensures
            p == Promise::<F, M>::Ready(Ok(Val::Unit), state),
    {
        Promise::Ready(Ok(Val::Unit), state)
    }

    /// Run `func` once, starting from `state`, when the promise's turn
    /// comes.
    pub fn start(state: Val, func: F) -> (p: Promise<F, M>)
        ensures
            p == Promise::<F, M>::Start(state, func),
    {
        Promise::Start(state, func)
    }

    /// Encode a loop: `func` is re-run for as long as it keeps the loop
    /// going, and the loop settles with whatever `func` breaks with.
    pub fn repeat(state: Val, func: F) -> (p: Promise<F, M>)
        ensures
            p == Promise::<F, M>::Loop(state, func),
    {
        Promise::Loop(state, func)
    }

    /// Attach `func` as the combined resolve-or-reject handler.
    pub fn then(self, func: F) -> (p: Promise<F, M>)
        ensures
            p matches Promise::Chain(inner, link) && *inner == self && link == Link::<F, M>::Then(
                func,
            ),
    {
        Promise::Chain(Box::new(self), Link::Then(func))
    }

    /// Attach `func` as a success-only handler; a failure arriving here
    /// finds no handler and the engine applies the orphan rule.
    pub fn ok_then(self, func: F) -> (p: Promise<F, M>)
        ensures
            p matches Promise::Chain(inner, link) && *inner == self && link == Link::<F, M>::ThenOk(
                func,
            ),
    {
        Promise::Chain(Box::new(self), Link::ThenOk(func))
    }

    /// Attach `func` as a failure-only handler; success is forwarded
    /// unchanged.
    pub fn catch(self, func: F) -> (p: Promise<F, M>)
        ensures
            p matches Promise::Chain(inner, link) && *inner == self && link == Link::<F, M>::Catch(
                func,
            ),
    {
        Promise::Chain(Box::new(self), Link::Catch(func))
    }

    /// Transform the success payload, passing failures through unchanged.
    pub fn map(self, transform: M) -> (p: Promise<F, M>)
        ensures
            p matches Promise::Chain(inner, link) && *inner == self && link == Link::<F, M>::MapOk(
                transform,
            ),
    {
        Promise::Chain(Box::new(self), Link::MapOk(transform))
    }

    /// Transform the failure payload, passing successes through unchanged.
    pub fn map_err(self, transform: M) -> (p: Promise<F, M>)
        ensures
            p matches Promise::Chain(inner, link) && *inner == self && link == Link::<F, M>::MapErr(
                transform,
            ),
    {
        Promise::Chain(Box::new(self), Link::MapErr(transform))
    }

    /// Transform the carried state, passing the outcome through unchanged.
    pub fn map_state(self, transform: M) -> (p: Promise<F, M>)
        ensures
            p matches Promise::Chain(inner, link) && *inner == self && link
                == Link::<F, M>::MapState(transform),
    {
        Promise::Chain(Box::new(self), Link::MapState(transform))
    }

    /// Settle with whichever arm settles first and discard the rest.
    pub fn any(arms: Vec<Promise<F, M>>) -> (p: Promise<F, M>)
        ensures
            p matches Promise::Any(a) && spec_arm_seq(a) == arms@,
    {
        Promise::Any(Arms::from_vec(arms))
    }

    /// Settle once every arm has settled, with the outcomes in arm order.
    pub fn all(arms: Vec<Promise<F, M>>) -> (p: Promise<F, M>)
        ensures
            p matches Promise::All(a) && spec_arm_seq(a) == arms@,
    {
        Promise::All(Arms::from_vec(arms))
    }
}

} // verus!
