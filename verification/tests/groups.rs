//! Fan-in combinators: `all` aggregates every arm's outcome in arm order,
//! `any` settles with the first winner and discards the rest.

use promise_core::command::{Command, CommandQueue};
use promise_core::engine::{Engine, Event, Fault};
use promise_core::id::PromiseId;
use promise_core::promise::Promise;
use promise_core::script::{Mapper, Script};
use promise_core::val::Val;

type Eng = Engine<Script, Mapper>;

fn pair(a: Val, b: Val) -> Val {
    Val::Pair(Box::new(a), Box::new(b))
}

fn ok_val(v: Val) -> Val {
    pair(Val::Bool(true), v)
}

fn err_val(v: Val) -> Val {
    pair(Val::Bool(false), v)
}

fn arm_id(e: &Eng, kind: u64, arg: u64) -> PromiseId {
    for i in 0..e.event_count() {
        if let Event::TaskStarted(id, k, a) = e.event_at(i) {
            if *k == kind && *a == arg {
                return *id;
            }
        }
    }
    panic!("no announcement for the requested external work");
}

fn resolved_payload(e: &Eng, id: PromiseId) -> Option<(Val, Val)> {
    for i in 0..e.event_count() {
        if let Event::Resolved(j, v, s) = e.event_at(i) {
            if *j == id {
                return Some((v.clone(), s.clone()));
            }
        }
    }
    None
}

fn discard_count(e: &Eng, id: PromiseId) -> usize {
    let mut n = 0;
    for i in 0..e.event_count() {
        if let Event::Discarded(j) = e.event_at(i) {
            if *j == id {
                n += 1;
            }
        }
    }
    n
}

#[test]
fn all_aggregates_in_arm_order_whatever_the_completion_order() {
    let mut e = Eng::new(1);
    let arms = vec![
        Promise::external(9, 0),
        Promise::external(9, 1),
        Promise::external(9, 2),
    ];
    let root = e.register(Promise::all(arms));
    e.run(1000);
    let a0 = arm_id(&e, 9, 0);
    let a1 = arm_id(&e, 9, 1);
    let a2 = arm_id(&e, 9, 2);

    // Complete out of order: last arm first, first arm with a failure.
    e.resolve(a2, Val::Int(2), Val::Unit);
    e.run(1000);
    assert!(e.pending(root), "the group must wait for every arm");
    e.reject(a0, Val::Int(0), Val::Unit);
    e.run(1000);
    assert!(e.pending(root), "two arms are not enough");
    e.resolve(a1, Val::Int(1), Val::Unit);
    e.run(1000);

    let expected = pair(
        err_val(Val::Int(0)),
        pair(ok_val(Val::Int(1)), pair(ok_val(Val::Int(2)), Val::Unit)),
    );
    assert_eq!(resolved_payload(&e, root), Some((expected, Val::Unit)));
    assert_eq!(e.pending_count(), 0);
}

#[test]
fn any_resolves_with_the_winner_and_discards_the_rest() {
    let mut e = Eng::new(1);
    let arms = vec![
        Promise::external(9, 0),
        Promise::external(9, 1),
        Promise::external(9, 2),
    ];
    let root = e.register(Promise::any(arms));
    e.run(1000);
    let a0 = arm_id(&e, 9, 0);
    let a1 = arm_id(&e, 9, 1);
    let a2 = arm_id(&e, 9, 2);

    e.resolve(a1, Val::Int(7), Val::Int(1));
    e.run(1000);

    // The winner's state and outcome form the group's payload.
    let expected = pair(Val::Int(1), ok_val(Val::Int(7)));
    assert_eq!(resolved_payload(&e, root), Some((expected, Val::Unit)));

    // Every sibling receives exactly one discard, has its external work
    // cancelled, and never resolves.
    for loser in [a0, a2] {
        assert_eq!(discard_count(&e, loser), 1);
        assert_eq!(resolved_payload(&e, loser), None);
        assert!(!e.pending(loser));
    }
    let mut cancelled = 0;
    for i in 0..e.event_count() {
        if let Event::TaskCancelled(_, 9, _) = e.event_at(i) {
            cancelled += 1;
        }
    }
    assert_eq!(cancelled, 2);
    assert_eq!(e.pending_count(), 0);
}

#[test]
fn a_late_completion_for_a_discarded_arm_is_a_reported_fault() {
    let mut e = Eng::new(1);
    let arms = vec![Promise::external(9, 0), Promise::external(9, 1)];
    let _root = e.register(Promise::any(arms));
    e.run(1000);
    let a0 = arm_id(&e, 9, 0);
    let a1 = arm_id(&e, 9, 1);

    e.resolve(a0, Val::Unit, Val::Unit);
    // The loser's completion was already in flight when the winner settled.
    e.resolve(a1, Val::Unit, Val::Unit);
    e.run(1000);

    let mut reported = false;
    for i in 0..e.event_count() {
        if let Event::Fault(j, Fault::MissingRecord) = e.event_at(i) {
            if *j == a1 {
                reported = true;
            }
        }
    }
    assert!(reported, "the stale completion is reported, not fatal");
    assert_eq!(discard_count(&e, a1), 1);
}

#[test]
fn resolutions_apply_in_the_order_their_commands_were_queued() {
    let mut e = Eng::new(1);
    let a = e.register(Promise::external(9, 0));
    let b = e.register(Promise::external(9, 1));
    e.run(1000);

    let mut q = CommandQueue::new();
    q.push(Command::ok(b, Val::Int(2)));
    q.push(Command::ok(a, Val::Int(1)));
    e.sync(&mut q);
    e.run(1000);

    let mut order = Vec::new();
    for i in 0..e.event_count() {
        if let Event::Resolved(j, _, _) = e.event_at(i) {
            order.push(*j);
        }
    }
    assert_eq!(order, vec![b, a]);
}
