//! The timer adapter: promises that resolve after a number of ticks.
//!
//! A timer promise only announces its duration; the host keeps a [`Timers`]
//! store, arms an entry when the engine logs the announcement, drops it on
//! cancellation, and pumps the store every tick.  Due entries turn into
//! deferred resolve commands, in the order the timers were armed.

use crate::command::{Command, CommandQueue};
use crate::id::PromiseId;
use crate::promise::Promise;
use crate::thunk::{Continuation, Transform};
use crate::val::Val;
use vstd::prelude::*;

verus! {

/// The task kind under which timer promises announce themselves.
pub const TIMER_TASK: u64 = 1;

/// A promise that asks the timer adapter to resolve it after `ticks` ticks.
pub fn timeout<F: Continuation<M>, M: Transform>(ticks: u64) -> (p: Promise<F, M>)
    ensures
        p == Promise::<F, M>::External(TIMER_TASK, ticks),
{
    Promise::External(TIMER_TASK, ticks)
}

/// The armed timers: each entry is a promise identifier and the tick at
/// which it falls due.
pub struct Timers {
    entries: Vec<(PromiseId, u64)>,
}

impl Timers {
    /// The armed entries, oldest first.
    pub closed spec fn view(self) -> Seq<(PromiseId, u64)> {
        self.entries@
    }

    /// An empty store.
    pub fn new() -> (t: Timers)
        ensures
            t@ == Seq::<(PromiseId, u64)>::empty(),
    {
        Timers { entries: Vec::new() }
    }

    /// Arm a timer for `id`, due at tick `due`.
    pub fn insert(&mut self, id: PromiseId, due: u64)
        ensures
            final(self)@ == old(self)@.push((id, due)),
    {
        self.entries.push((id, due));
    }

    /// Drop every timer armed for `id` (the discard side of the adapter
    /// contract).
    pub fn remove(&mut self, id: PromiseId)
        ensures
            final(self)@ == old(self)@.filter(|e: (PromiseId, u64)| e.0 != id),
    {
        let mut kept: Vec<(PromiseId, u64)> = Vec::new();
        let mut i: usize = 0;
        while i < self.entries.len()
            invariant
                i <= self.entries@.len(),
                kept@ == self.entries@.take(i as int).filter(|e: (PromiseId, u64)| e.0 != id),
            decreases self.entries@.len() - i,
        {
            let (eid, due) = self.entries[i];
            proof {
                assert(self.entries@.take(i + 1) =~= self.entries@.take(i as int) + seq![
                    self.entries@[i as int],
                ]);
                Seq::filter_distributes_over_add(
                    self.entries@.take(i as int),
                    seq![self.entries@[i as int]],
                    |e: (PromiseId, u64)| e.0 != id,
                );
                assert(seq![self.entries@[i as int]].filter(|e: (PromiseId, u64)| e.0 != id)
                    =~= if self.entries@[i as int].0 != id {
                    seq![self.entries@[i as int]]
                } else {
                    Seq::empty()
                }) by {
                    reveal_with_fuel(Seq::filter, 2);
                }
            }
            if eid != id {
                kept.push((eid, due));
            }
            i = i + 1;
        }
        proof {
            assert(self.entries@.take(self.entries@.len() as int) =~= self.entries@);
        }
        self.entries = kept;
    }

    /// Move every due timer (armed at or before `now`) into the command
    /// queue as a resolve command, in arming order, and keep the rest.
    pub fn pump(&mut self, now: u64, q: &mut CommandQueue)
        ensures
            final(self)@ == old(self)@.filter(|e: (PromiseId, u64)| e.1 > now),
            final(q)@ == old(q)@ + old(self)@.filter(|e: (PromiseId, u64)| e.1 <= now).map_values(
                |e: (PromiseId, u64)| Command::Resolve(e.0, Val::Unit, Val::Unit),
            ),
    {
        let mut kept: Vec<(PromiseId, u64)> = Vec::new();
        let mut i: usize = 0;
        while i < self.entries.len()
            invariant
                i <= self.entries@.len(),
                kept@ == self.entries@.take(i as int).filter(|e: (PromiseId, u64)| e.1 > now),
                q@ == old(q)@ + self.entries@.take(i as int).filter(
                    |e: (PromiseId, u64)| e.1 <= now,
                ).map_values(|e: (PromiseId, u64)| Command::Resolve(e.0, Val::Unit, Val::Unit)),
            decreases self.entries@.len() - i,
        {
            let (eid, due) = self.entries[i];
            proof {
                assert(self.entries@.take(i + 1) =~= self.entries@.take(i as int) + seq![
                    self.entries@[i as int],
                ]);
                Seq::filter_distributes_over_add(
                    self.entries@.take(i as int),
                    seq![self.entries@[i as int]],
                    |e: (PromiseId, u64)| e.1 > now,
                );
                Seq::filter_distributes_over_add(
                    self.entries@.take(i as int),
                    seq![self.entries@[i as int]],
                    |e: (PromiseId, u64)| e.1 <= now,
                );
                assert(seq![self.entries@[i as int]].filter(|e: (PromiseId, u64)| e.1 > now)
                    =~= if self.entries@[i as int].1 > now {
                    seq![self.entries@[i as int]]
                } else {
                    Seq::empty()
                }) by {
                    reveal_with_fuel(Seq::filter, 2);
                }
                assert(seq![self.entries@[i as int]].filter(|e: (PromiseId, u64)| e.1 <= now)
                    =~= if self.entries@[i as int].1 <= now {
                    seq![self.entries@[i as int]]
                } else {
                    Seq::empty()
                }) by {
                    reveal_with_fuel(Seq::filter, 2);
                }
            }
            if due <= now {
                q.push(Command::resolve(eid, Val::Unit, Val::Unit));
                proof {
                    let ghost done = self.entries@.take(i as int).filter(
                        |e: (PromiseId, u64)| e.1 <= now,
                    );
                    assert((done + seq![self.entries@[i as int]]).map_values(
                        |e: (PromiseId, u64)| Command::Resolve(e.0, Val::Unit, Val::Unit),
                    ) =~= done.map_values(
                        |e: (PromiseId, u64)| Command::Resolve(e.0, Val::Unit, Val::Unit),
                    ).push(Command::Resolve(eid, Val::Unit, Val::Unit)));
                }
            } else {
                kept.push((eid, due));
            }
            i = i + 1;
        }
        proof {
            assert(self.entries@.take(self.entries@.len() as int) =~= self.entries@);
        }
        self.entries = kept;
    }
}

} // verus!
