//! The deferred command queue.
//!
//! Work that completes outside the synchronous continuation-execution phase —
//! a background task, a timer pump, a UI event handler — does not touch the
//! registry directly.  It pushes a [`Command`] onto a [`CommandQueue`], and
//! the host drains the queue into the engine at its next synchronization
//! point; commands are applied in the order they were queued.

use crate::id::PromiseId;
use crate::val::Val;
use vstd::prelude::*;

verus! {

/// A resolve or reject request for a pending promise, carrying the payload
/// and the state to thread onward.
pub enum Command {
    Resolve(PromiseId, Val, Val),
    Reject(PromiseId, Val, Val),
}

impl Command {
    /// Request that `id` resolve with `result` and `state`.
    pub fn resolve(id: PromiseId, result: Val, state: Val) -> (c: Command)
        ensures
            c == Command::Resolve(id, result, state),
    {
        Command::Resolve(id, result, state)
    }

    /// Request that `id` reject with `error` and `state`.
    pub fn reject(id: PromiseId, error: Val, state: Val) -> (c: Command)
        ensures
            c == Command::Reject(id, error, state),
    {
        Command::Reject(id, error, state)
    }

    /// Request that `id` resolve with `result` and a unit state.
    pub fn ok(id: PromiseId, result: Val) -> (c: Command)
        ensures
            c == Command::Resolve(id, result, Val::Unit),
    {
        Command::Resolve(id, result, Val::Unit)
    }
}

/// A queue of deferred commands, drained by `Engine::sync`.
pub struct CommandQueue {
    items: Vec<Command>,
}

impl CommandQueue {
    /// The queued commands, oldest first.
    pub closed spec fn view(self) -> Seq<Command> {
        self.items@
    }

    /// An empty queue.
    pub fn new() -> (q: CommandQueue)
        ensures
            q@ == Seq::<Command>::empty(),
    {
        CommandQueue { items: Vec::new() }
    }

    /// Queue one command.
    pub fn push(&mut self, c: Command)
        ensures
            final(self)@ == old(self)@.push(c),
    {
        self.items.push(c);
    }

    /// How many commands are waiting.
    pub fn len(&self) -> (n: usize)
        ensures
            n == self@.len(),
    {
        self.items.len()
    }

    /// Take the oldest command, if any.
    pub fn pop_front(&mut self) -> (r: Option<Command>)
        ensures
            match r {
                Some(c) => old(self)@.len() > 0 && c == old(self)@[0] && final(self)@ == old(
                    self,
                )@.skip(1),
                None => old(self)@.len() == 0 && *final(self) == *old(self),
            },
    {
        if self.items.len() == 0 {
            None
        } else {
            let c = self.items.remove(0);
            proof {
                assert(self.items@ =~= old(self).items@.skip(1));
            }
            Some(c)
        }
    }
}

} // verus!
