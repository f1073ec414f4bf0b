//! Chains built from `then`, `map` and `catch`: settlement discipline,
//! transform fusion, error recovery and the engine's internal-error
//! reporting.

use promise_core::engine::{Engine, Event, Fault};
use promise_core::id::PromiseId;
use promise_core::promise::Promise;
use promise_core::script::{Mapper, Script};
use promise_core::val::Val;

type Eng = Engine<Script, Mapper>;

fn settle_count_of(e: &Eng, id: PromiseId) -> usize {
    let mut n = 0;
    for i in 0..e.event_count() {
        match e.event_at(i) {
            Event::Resolved(j, _, _) if *j == id => n += 1,
            Event::Rejected(j, _, _) if *j == id => n += 1,
            Event::Discarded(j) if *j == id => n += 1,
            _ => {}
        }
    }
    n
}

fn registered_ids(e: &Eng) -> Vec<PromiseId> {
    let mut ids = Vec::new();
    for i in 0..e.event_count() {
        if let Event::Registered(id) = e.event_at(i) {
            ids.push(*id);
        }
    }
    ids
}

fn resolved_payload(e: &Eng, id: PromiseId) -> Option<(Val, Val)> {
    for i in 0..e.event_count() {
        if let Event::Resolved(j, v, s) = e.event_at(i) {
            if *j == id {
                return Some((v.clone(), s.clone()));
            }
        }
    }
    None
}

#[test]
fn chain_settles_every_node_exactly_once() {
    let mut e = Eng::new(1);
    let p = Promise::resolved(Val::Int(0), Val::Int(0))
        .then(Script::Pass)
        .map(Mapper::AddInt(2))
        .catch(Script::Resolve(Val::Int(9)));
    let root = e.register(p);
    e.run(1000);
    assert_eq!(e.pending_count(), 0);
    assert_eq!(e.task_count(), 0);
    let ids = registered_ids(&e);
    assert_eq!(ids.len(), 4);
    for id in ids {
        assert_eq!(settle_count_of(&e, id), 1);
    }
    // The chain came in on the success side, so the catch forwarded it.
    assert_eq!(resolved_payload(&e, root), Some((Val::Int(2), Val::Int(0))));
}

#[test]
fn map_then_map_equals_fused_map() {
    let mut e1 = Eng::new(1);
    let p1 = Promise::resolved(Val::Int(3), Val::Unit)
        .map(Mapper::AddInt(2))
        .map(Mapper::AddInt(5));
    let r1 = e1.register(p1);
    e1.run(1000);

    let mut e2 = Eng::new(2);
    let p2 = Promise::resolved(Val::Int(3), Val::Unit).map(Mapper::Compose(
        Box::new(Mapper::AddInt(2)),
        Box::new(Mapper::AddInt(5)),
    ));
    let r2 = e2.register(p2);
    e2.run(1000);

    let out1 = resolved_payload(&e1, r1).expect("chained maps must resolve");
    let out2 = resolved_payload(&e2, r2).expect("fused map must resolve");
    assert_eq!(out1, (Val::Int(10), Val::Unit));
    assert_eq!(out1, out2);
}

#[test]
fn map_passes_failures_through() {
    let mut e = Eng::new(1);
    let p = Promise::rejected(Val::Int(7), Val::Unit).map(Mapper::AddInt(1));
    let root = e.register(p);
    e.run(1000);
    let mut rejected = false;
    for i in 0..e.event_count() {
        if let Event::Rejected(j, v, _) = e.event_at(i) {
            if *j == root {
                rejected = true;
                assert_eq!(*v, Val::Int(7));
            }
        }
    }
    assert!(rejected);
}

#[test]
fn map_err_transforms_only_failures() {
    let mut e = Eng::new(1);
    let p = Promise::rejected(Val::Int(7), Val::Unit).map_err(Mapper::AddInt(1));
    let root = e.register(p);
    e.run(1000);
    let mut seen = false;
    for i in 0..e.event_count() {
        if let Event::Rejected(j, v, _) = e.event_at(i) {
            if *j == root {
                seen = true;
                assert_eq!(*v, Val::Int(8));
            }
        }
    }
    assert!(seen);
}

#[test]
fn catch_recovers_from_rejection() {
    let mut e = Eng::new(1);
    let p = Promise::rejected(Val::Int(3), Val::Unit).catch(Script::Resolve(Val::Int(8)));
    let root = e.register(p);
    e.run(1000);
    assert_eq!(resolved_payload(&e, root), Some((Val::Int(8), Val::Unit)));
}

#[test]
fn catch_rejecting_again_is_reported_and_stalls() {
    let mut e = Eng::new(1);
    let p = Promise::rejected(Val::Int(3), Val::Unit).catch(Script::Fail(Val::Int(1)));
    let root = e.register(p);
    e.run(1000);
    let mut reported = false;
    for i in 0..e.event_count() {
        if let Event::Fault(_, Fault::CatchRejected) = e.event_at(i) {
            reported = true;
        }
    }
    assert!(reported);
    // The misconfigured step is abandoned: the outer promise never settles.
    assert!(e.pending(root));
    assert_eq!(settle_count_of(&e, root), 0);
}

#[test]
fn orphaned_success_handler_discards_the_chain() {
    let mut e = Eng::new(1);
    let p = Promise::external(9, 0).ok_then(Script::Pass);
    let root = e.register(p);
    e.run(1000);
    // Find the external record the chain waits on.
    let mut inner = None;
    for i in 0..e.event_count() {
        if let Event::TaskStarted(id, 9, 0) = e.event_at(i) {
            inner = Some(*id);
        }
    }
    let inner = inner.expect("the external work must be announced");
    e.reject(inner, Val::Int(5), Val::Unit);
    e.run(1000);
    let (mut warned, mut cancelled) = (false, false);
    for i in 0..e.event_count() {
        match e.event_at(i) {
            Event::Fault(j, Fault::MissedReject) if *j == inner => warned = true,
            Event::TaskCancelled(j, 9, 0) if *j == inner => cancelled = true,
            _ => {}
        }
    }
    assert!(warned, "the orphaned success branch must be reported");
    assert!(cancelled, "the record's cleanup must run");
    assert_eq!(settle_count_of(&e, inner), 1);
    assert_eq!(settle_count_of(&e, root), 1);
    assert!(!e.pending(root), "the chain above the orphan is discarded");
    assert_eq!(resolved_payload(&e, root), None);
}

#[test]
fn settling_an_unknown_id_is_a_reported_fault() {
    let mut e = Eng::new(1);
    let ghost = PromiseId::new(1, 42);
    e.resolve(ghost, Val::Unit, Val::Unit);
    e.run(1000);
    let mut reported = false;
    for i in 0..e.event_count() {
        if let Event::Fault(j, Fault::MissingRecord) = e.event_at(i) {
            if *j == ghost {
                reported = true;
            }
        }
    }
    assert!(reported);
}

#[test]
fn asking_to_continue_outside_a_loop_is_a_reported_fault() {
    let mut e = Eng::new(1);
    // A loop body in a plain `then` position asks for another iteration,
    // which only a loop can grant.
    let p = Promise::from_state(Val::Int(0)).then(Script::LoopForever);
    let root = e.register(p);
    e.run(1000);
    let mut reported = false;
    for i in 0..e.event_count() {
        if let Event::Fault(j, Fault::ContinueOutsideLoop) = e.event_at(i) {
            if *j == root {
                reported = true;
            }
        }
    }
    assert!(reported);
    assert!(e.pending(root), "the misconfigured chain stalls rather than settles");
}

#[test]
fn nested_await_runs_before_the_outer_chain_settles() {
    let mut e = Eng::new(1);
    // The continuation answers with further external work to await.
    let p = Promise::from_state(Val::Int(0)).then(Script::AwaitExternal(9, 7));
    let root = e.register(p);
    e.run(1000);
    assert!(e.pending(root));
    let mut nested = None;
    for i in 0..e.event_count() {
        if let Event::TaskStarted(id, 9, 7) = e.event_at(i) {
            nested = Some(*id);
        }
    }
    let nested = nested.expect("the nested work must be announced");
    e.resolve(nested, Val::Int(11), Val::Unit);
    e.run(1000);
    assert_eq!(resolved_payload(&e, root), Some((Val::Int(11), Val::Unit)));
}
