//! Ready-made continuation bodies and payload transforms.
//!
//! The engine accepts any implementation of [`Continuation`] and
//! [`Transform`]; these closed enums cover the everyday shapes — pass the
//! outcome through, settle with a constant, advance an integer state, await
//! further external work, drive a counting loop — and every one of them is
//! verified against its specification.

use crate::promise::Promise;
use crate::thunk::{Continuation, Outcome, Transform};
use crate::val::Val;
use vstd::prelude::*;

verus! {

/// A stock continuation body.
#[derive(Debug)]
pub enum Script {
    /// Settle with the incoming outcome and state unchanged.
    Pass,
    /// Resolve with the given payload, keeping the state.
    Resolve(Val),
    /// Reject with the given payload, keeping the state.
    Fail(Val),
    /// Add to an integer state and pass the outcome through; a non-integer
    /// state or an overflowing sum is left unchanged.
    IncrState(i64),
    /// Await external work `(kind, arg)`.
    AwaitExternal(u64, u64),
    /// Loop: count an integer state up to the bound, one iteration per
    /// call, and break with the final count; a non-integer state breaks at
    /// once with the state.
    LoopUpTo(i64),
    /// Loop forever: ask for another iteration with the state unchanged.
    LoopForever,
}

/// What adding `k` to a state does: integers move, within range; everything
/// else stays.
pub open spec fn spec_incr(state: Val, k: i64) -> Val {
    match state {
        Val::Int(n) => if i64::MIN <= n + k <= i64::MAX {
            Val::Int((n + k) as i64)
        } else {
            Val::Int(n)
        },
        _ => state,
    }
}

impl<M: Transform> Continuation<M> for Script {
    open spec fn spec_call(&self, state: Val, input: Result<Val, Val>) -> Outcome<Script, M> {
        match *self {
            Script::Pass => Outcome::Settle(input, state),
            Script::Resolve(v) => Outcome::Settle(Ok(v), state),
            Script::Fail(e) => Outcome::Settle(Err(e), state),
            Script::IncrState(k) => Outcome::Settle(input, spec_incr(state, k)),
            Script::AwaitExternal(kind, arg) => Outcome::Wait(Promise::External(kind, arg)),
            Script::LoopUpTo(bound) => match state {
                Val::Int(n) => if n < bound {
                    Outcome::Next(Val::Int((n + 1) as i64))
                } else {
                    Outcome::Settle(Ok(Val::Int(n)), Val::Int(n))
                },
                _ => Outcome::Settle(Ok(state), state),
            },
            Script::LoopForever => Outcome::Next(state),
        }
    }

    fn call(&self, state: Val, input: Result<Val, Val>) -> (o: Outcome<Script, M>) {
        match self {
            Script::Pass => Outcome::Settle(input, state),
            Script::Resolve(v) => Outcome::Settle(Ok(v.clone()), state),
            Script::Fail(e) => Outcome::Settle(Err(e.clone()), state),
            Script::IncrState(k) => {
                let state2 = match state {
                    Val::Int(n) => match n.checked_add(*k) {
                        Some(n2) => Val::Int(n2),
                        None => Val::Int(n),
                    },
                    other => other,
                };
                Outcome::Settle(input, state2)
            },
            Script::AwaitExternal(kind, arg) => Outcome::Wait(Promise::External(*kind, *arg)),
            Script::LoopUpTo(bound) => match state {
                Val::Int(n) => if n < *bound {
                    Outcome::Next(Val::Int(n + 1))
                } else {
                    Outcome::Settle(Ok(Val::Int(n)), Val::Int(n))
                },
                other => {
                    let copy = other.clone();
                    Outcome::Settle(Ok(copy), other)
                },
            },
            Script::LoopForever => Outcome::Next(state),
        }
    }
}

/// A stock payload transform.
#[derive(Debug)]
pub enum Mapper {
    /// Leave the payload unchanged.
    Ident,
    /// Replace the payload with a constant.
    Constant(Val),
    /// Add to an integer payload, as `spec_incr` does.
    AddInt(i64),
    /// Apply the first transform, then the second.
    Compose(Box<Mapper>, Box<Mapper>),
}

impl Transform for Mapper {
    open spec fn spec_apply(&self, v: Val) -> Val
        decreases *self,
    {
        match *self {
            Mapper::Ident => v,
            Mapper::Constant(c) => c,
            Mapper::AddInt(k) => spec_incr(v, k),
            Mapper::Compose(f, g) => g.spec_apply(f.spec_apply(v)),
        }
    }

    fn apply(&self, v: Val) -> (r: Val)
        decreases *self,
    {
        match self {
            Mapper::Ident => v,
            Mapper::Constant(c) => c.clone(),
            Mapper::AddInt(k) => match v {
                Val::Int(n) => match n.checked_add(*k) {
                    Some(n2) => Val::Int(n2),
                    None => Val::Int(n),
                },
                other => other,
            },
            Mapper::Compose(f, g) => g.apply(f.apply(v)),
        }
    }
}

} // verus!
