//! Loops and the timer adapter: bounded stepping of endless loops, exact
//! break values, simulated-tick timer scenarios, and transitive discard.

use promise_core::command::CommandQueue;
use promise_core::engine::{Engine, Event};
use promise_core::id::PromiseId;
use promise_core::promise::Promise;
use promise_core::script::{Mapper, Script};
use promise_core::timer::{timeout, Timers, TIMER_TASK};
use promise_core::val::Val;

type Eng = Engine<Script, Mapper>;

/// Drive the engine with a simulated clock: drain tasks, wire announced
/// timer work into the store, then advance one tick and pump, until the
/// registry empties or `max_ticks` have passed.  Returns the tick count.
fn tick(e: &mut Eng, max_ticks: u64) -> u64 {
    let mut timers = Timers::new();
    let mut q = CommandQueue::new();
    let mut cursor = 0;
    let mut now = 0;
    loop {
        e.run(10_000);
        while cursor < e.event_count() {
            match e.event_at(cursor) {
                Event::TaskStarted(id, k, d) if *k == TIMER_TASK => {
                    let (id, due) = (*id, now + *d);
                    timers.insert(id, due);
                }
                Event::TaskCancelled(id, k, _) if *k == TIMER_TASK => {
                    let id = *id;
                    timers.remove(id);
                }
                _ => {}
            }
            cursor += 1;
        }
        if e.pending_count() == 0 || now >= max_ticks {
            return now;
        }
        now += 1;
        timers.pump(now, &mut q);
        e.sync(&mut q);
    }
}

fn resolved_payload(e: &Eng, id: PromiseId) -> Option<(Val, Val)> {
    for i in 0..e.event_count() {
        if let Event::Resolved(j, v, s) = e.event_at(i) {
            if *j == id {
                return Some((v.clone(), s.clone()));
            }
        }
    }
    None
}

fn settle_count_of(e: &Eng, id: PromiseId) -> usize {
    let mut n = 0;
    for i in 0..e.event_count() {
        match e.event_at(i) {
            Event::Resolved(j, _, _) if *j == id => n += 1,
            Event::Rejected(j, _, _) if *j == id => n += 1,
            Event::Discarded(j) if *j == id => n += 1,
            _ => {}
        }
    }
    n
}

#[test]
fn a_loop_that_always_continues_is_bounded_only_by_the_host() {
    let mut e = Eng::new(1);
    let root = e.register(Promise::repeat(Val::Int(0), Script::LoopForever));
    let left = e.run(5000);
    assert_eq!(left, 0, "the loop must consume the whole budget");
    assert!(e.pending(root), "the loop never settles by itself");
    assert_eq!(settle_count_of(&e, root), 0);
    // Cancellation from outside is what ends it.
    e.discard(root);
    assert!(!e.pending(root));
    assert_eq!(settle_count_of(&e, root), 1);
}

#[test]
fn a_counting_loop_breaks_with_the_final_count() {
    let mut e = Eng::new(1);
    let root = e.register(Promise::repeat(Val::Int(0), Script::LoopUpTo(4)));
    e.run(1000);
    assert_eq!(resolved_payload(&e, root), Some((Val::Int(4), Val::Int(4))));
    assert_eq!(e.pending_count(), 0);
}

#[test]
fn timer_then_increment_resolves_once_with_the_advanced_state() {
    let mut e = Eng::new(1);
    let p = timeout(10)
        .map_state(Mapper::Constant(Val::Int(0)))
        .then(Script::IncrState(1));
    let root = e.register(p);
    let now = tick(&mut e, 100);
    assert!(now >= 10, "the chain must wait for the timer");
    assert_eq!(resolved_payload(&e, root), Some((Val::Unit, Val::Int(1))));
    assert_eq!(settle_count_of(&e, root), 1);
    assert_eq!(e.pending_count(), 0);
}

#[test]
fn any_of_two_timers_wins_with_the_short_one() {
    let mut e = Eng::new(1);
    let arms = vec![
        timeout(1).map_state(Mapper::Constant(Val::Int(0))),
        timeout(1000).map_state(Mapper::Constant(Val::Int(1))),
    ];
    let root = e.register(Promise::any(arms));
    let now = tick(&mut e, 50);
    assert!(now < 1000, "the long timer must not be waited for");
    let expected = Val::Pair(
        Box::new(Val::Int(0)),
        Box::new(Val::Pair(Box::new(Val::Bool(true)), Box::new(Val::Unit))),
    );
    assert_eq!(resolved_payload(&e, root), Some((expected, Val::Unit)));
    // The long timer's external work was cancelled.
    let mut cancelled = false;
    for i in 0..e.event_count() {
        if let Event::TaskCancelled(_, k, 1000) = e.event_at(i) {
            if *k == TIMER_TASK {
                cancelled = true;
            }
        }
    }
    assert!(cancelled);
    assert_eq!(e.pending_count(), 0);
}

#[test]
fn discarding_a_chain_discards_everything_nested_beneath_it() {
    let mut e = Eng::new(1);
    let p = Promise::from_state(Val::Int(0)).then(Script::AwaitExternal(9, 7));
    let root = e.register(p);
    e.run(1000);
    assert!(e.pending(root));
    let mut nested = None;
    for i in 0..e.event_count() {
        if let Event::TaskStarted(id, 9, 7) = e.event_at(i) {
            nested = Some(*id);
        }
    }
    let nested = nested.expect("the nested work must be announced");

    e.discard(root);
    assert_eq!(e.pending_count(), 0, "the whole subtree is gone");
    assert_eq!(settle_count_of(&e, root), 1);
    assert_eq!(settle_count_of(&e, nested), 1);
    assert_eq!(resolved_payload(&e, root), None);
    assert_eq!(resolved_payload(&e, nested), None);
    let (mut root_disc, mut nested_disc, mut cancel) = (false, false, false);
    for i in 0..e.event_count() {
        match e.event_at(i) {
            Event::Discarded(j) if *j == root => root_disc = true,
            Event::Discarded(j) if *j == nested => nested_disc = true,
            Event::TaskCancelled(j, 9, 7) if *j == nested => cancel = true,
            _ => {}
        }
    }
    assert!(root_disc && nested_disc && cancel);
}

#[test]
fn discarding_before_the_timer_fires_cancels_it_silently() {
    let mut e = Eng::new(1);
    let p = timeout(50).then(Script::Pass);
    let root = e.register(p);
    e.run(1000);
    e.discard(root);
    assert_eq!(e.pending_count(), 0);
    // No resolve or reject handler ever ran.
    for i in 0..e.event_count() {
        match e.event_at(i) {
            Event::Resolved(_, _, _) | Event::Rejected(_, _, _) => {
                panic!("a discarded chain must not settle normally");
            }
            _ => {}
        }
    }
}
