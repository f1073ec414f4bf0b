//! The building blocks around the engine: request descriptions, the
//! move-once cell, the state wrapper, identifiers and payload values.

use promise_core::command::CommandQueue;
use promise_core::engine::{Engine, Event};
use promise_core::id::PromiseId;
use promise_core::once::OnceValue;
use promise_core::promise::Promise;
use promise_core::request::{get, post, Request, Requests, HTTP_TASK};
use promise_core::script::{Mapper, Script};
use promise_core::state::PromiseState;
use promise_core::thunk::Outcome;
use promise_core::timer::Timers;
use promise_core::val::{outcome_val, Val};

type Eng = Engine<Script, Mapper>;

#[test]
fn request_builder_collects_the_description() {
    let r = Request::new()
        .method("PUT".to_string())
        .url("https://example.test/x".to_string())
        .header("accept".to_string(), "text/plain".to_string())
        .body(vec![1, 2, 3]);
    assert_eq!(r.method, "PUT");
    assert_eq!(r.url, "https://example.test/x");
    assert_eq!(r.headers.len(), 1);
    assert_eq!(r.headers[0].0, "accept");
    assert_eq!(r.body, vec![1, 2, 3]);
    let g = get("https://example.test/y".to_string());
    assert_eq!(g.method, "GET");
    let p = post("https://example.test/z".to_string(), vec![9]);
    assert_eq!(p.method, "POST");
    assert_eq!(p.body, vec![9]);
}

#[test]
fn sending_a_request_files_it_and_completing_it_resolves_the_chain() {
    let mut e = Eng::new(1);
    let mut store = Requests::new();
    let p: Promise<Script, Mapper> =
        get("https://example.test/data".to_string()).send(&mut store);
    let root = e.register(p.map(Mapper::AddInt(1)));
    e.run(1000);

    // The announcement carries the description's position in the store.
    let mut slot = None;
    let mut id = None;
    for i in 0..e.event_count() {
        if let Event::TaskStarted(j, k, a) = e.event_at(i) {
            if *k == HTTP_TASK {
                slot = Some(*a);
                id = Some(*j);
            }
        }
    }
    assert_eq!(slot, Some(0));
    let filed = store.get(0).expect("the description must be on file");
    assert_eq!(filed.url, "https://example.test/data");

    // The host performs the transfer and reports a status code.
    e.resolve(id.unwrap(), Val::Int(200), Val::Unit);
    e.run(1000);
    let mut seen = false;
    for i in 0..e.event_count() {
        if let Event::Resolved(j, v, _) = e.event_at(i) {
            if *j == root {
                seen = true;
                assert_eq!(*v, Val::Int(201));
            }
        }
    }
    assert!(seen);
}

#[test]
fn once_value_is_taken_at_most_once() {
    let mut c = OnceValue::new(5u32);
    assert!(c.is_valid());
    assert_eq!(c.get(), Some(5));
    assert!(!c.is_valid());
    assert_eq!(c.get(), None);
    let mut d: OnceValue<u32> = OnceValue::empty();
    assert_eq!(d.get(), None);
}

#[test]
fn state_wrapper_builds_the_classic_outcomes() {
    let s = PromiseState::new(Val::Int(3));
    let o: Outcome<Script, Mapper> = s.resolve(Val::Int(9));
    match o {
        Outcome::Settle(Ok(v), st) => {
            assert_eq!(v, Val::Int(9));
            assert_eq!(st, Val::Int(3));
        }
        _ => panic!("resolve must settle successfully"),
    }
    let o: Outcome<Script, Mapper> = PromiseState::new(Val::Int(3)).reject(Val::Int(1));
    assert!(matches!(o, Outcome::Settle(Err(_), _)));
    let o: Outcome<Script, Mapper> = PromiseState::new(Val::Unit).pass();
    assert!(matches!(o, Outcome::Settle(Ok(Val::Unit), Val::Unit)));
    let o: Outcome<Script, Mapper> =
        PromiseState::new(Val::Unit).with(Val::Int(2)).result(Err(Val::Int(4)));
    match o {
        Outcome::Settle(Err(v), st) => {
            assert_eq!(v, Val::Int(4));
            assert_eq!(st, Val::Int(2));
        }
        _ => panic!("result must keep the failure side"),
    }
}

#[test]
fn identifiers_from_different_lanes_never_collide() {
    let mut e1 = Eng::new(1);
    let mut e2 = Eng::new(2);
    let a = e1.register(Promise::from_state(Val::Unit));
    let b = e2.register(Promise::from_state(Val::Unit));
    assert_ne!(a, b);
    assert_eq!(a, PromiseId::new(1, 0));
    assert_eq!(b, PromiseId::new(2, 0));
}

#[test]
fn outcome_values_tag_success_and_failure() {
    assert_eq!(
        outcome_val(Ok(Val::Int(1))),
        Val::Pair(Box::new(Val::Bool(true)), Box::new(Val::Int(1)))
    );
    assert_eq!(
        outcome_val(Err(Val::Int(2))),
        Val::Pair(Box::new(Val::Bool(false)), Box::new(Val::Int(2)))
    );
}

#[test]
fn timers_pump_only_due_entries_in_arming_order() {
    let mut t = Timers::new();
    let mut q = CommandQueue::new();
    t.insert(PromiseId::new(1, 0), 5);
    t.insert(PromiseId::new(1, 1), 2);
    t.insert(PromiseId::new(1, 2), 9);
    t.pump(5, &mut q);
    assert_eq!(q.len(), 2);
    // Due entries come out in the order they were armed.
    match q.pop_front() {
        Some(promise_core::command::Command::Resolve(id, _, _)) => {
            assert_eq!(id, PromiseId::new(1, 0));
        }
        _ => panic!("the first armed due timer comes first"),
    }
    match q.pop_front() {
        Some(promise_core::command::Command::Resolve(id, _, _)) => {
            assert_eq!(id, PromiseId::new(1, 1));
        }
        _ => panic!("the second armed due timer comes second"),
    }
    t.pump(9, &mut q);
    assert_eq!(q.len(), 1);
}
