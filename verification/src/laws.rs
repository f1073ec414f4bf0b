//! The engine's laws, stated and proved over its public specifications.

use crate::engine::{
    any_arm_tail, discarded_since, invoke_post, is_registered, settle_count, spec_map_ok, Body,
    Engine, Event, Fault, Handler, Task,
};
use crate::id::PromiseId;
use crate::thunk::{Continuation, Outcome, Transform};
use crate::val::{
    lemma_list_nth, spec_list_nth, spec_outcome_val, spec_slots_full, spec_slots_list, Val,
};
use vstd::prelude::*;

verus! {

/// Law: a promise settles at most once.  However a registered identifier
/// fared — resolved, rejected or discarded — the log never holds a second
/// settlement for it.
pub proof fn lemma_settles_at_most_once<F: Continuation<M>, M: Transform>(
    e: Engine<F, M>,
    id: PromiseId,
)
    requires
        e.wf(),
    ensures
        settle_count(e.events(), id) <= 1,
{
    if e.records().dom().contains(id) {
    } else if is_registered(e.events(), id) {
    } else {
        if settle_count(e.events(), id) != 0 {
            assert(is_registered(e.events(), id));
        }
    }
}

/// Law: a promise settles at least once — never zero times.  Every
/// registered identifier that is no longer pending has exactly one
/// settlement on the log; so when the registry is empty, every promise ever
/// registered has settled exactly once.
pub proof fn lemma_settled_promise_settled_once<F: Continuation<M>, M: Transform>(
    e: Engine<F, M>,
    id: PromiseId,
)
    requires
        e.wf(),
        is_registered(e.events(), id),
        !e.records().dom().contains(id),
    ensures
        settle_count(e.events(), id) == 1,
{
}

/// Law: only a registered promise can settle; the log never settles an
/// identifier it has not registered.
pub proof fn lemma_settle_needs_registration<F: Continuation<M>, M: Transform>(
    e: Engine<F, M>,
    id: PromiseId,
)
    requires
        e.wf(),
        settle_count(e.events(), id) != 0,
    ensures
        is_registered(e.events(), id),
{
}

/// Law: mapping twice is mapping the composition.  Routing a success
/// through a transform `f` and then a transform `g` carries exactly the
/// payload that one fused transform `h` carries, for every outcome — the
/// observable resolution of `p.map(f).map(g)` equals that of `p.map(h)`.
pub proof fn lemma_map_fusion<M: Transform>(f: M, g: M, h: M, x: Result<Val, Val>)
    requires
        forall|v: Val| h.spec_apply(v) == g.spec_apply(#[trigger] f.spec_apply(v)),
    ensures
        spec_map_ok(g, spec_map_ok(f, x)) == spec_map_ok(h, x),
{
}

/// Law: an aggregation preserves arm order.  The value an all-group
/// resolves with lists, at position `i`, exactly the outcome stored in slot
/// `i` — and the engine only ever writes arm `i`'s settlement there, so the
/// result vector follows the arms' original order no matter in which order
/// they completed.
pub proof fn lemma_all_preserves_order(slots: Seq<Option<Val>>, i: int)
    requires
        spec_slots_full(slots),
        0 <= i < slots.len(),
    ensures
        spec_list_nth(spec_slots_list(slots), i) == slots[i].unwrap(),
{
    let vals = slots.map_values(|o: Option<Val>| o.unwrap());
    lemma_list_nth(vals, i);
}

/// Law: an aggregation settles only once every arm has.  While any slot is
/// still empty after an arm's outcome is stored, no settlement is queued
/// for the group and it stays pending.
pub proof fn lemma_all_waits_for_every_arm<F: Continuation<M>, M: Transform>(
    b: Engine<F, M>,
    post: Engine<F, M>,
    o: PromiseId,
    i: usize,
    res: Result<Val, Val>,
    arms: Vec<PromiseId>,
    slots: Vec<Option<Val>>,
)
    requires
        b.records().dom().contains(o),
        b.records()[o].body == Body::<F>::AllOwner(arms, slots),
        i < slots@.len(),
        slots@[i as int] is None,
        !crate::val::spec_slots_full(slots@.update(i as int, Some(spec_outcome_val(res)))),
        crate::engine::all_arm_tail(b, post, o, i, res),
    ensures
        post.queue() == b.queue(),
        post.events() == b.events(),
        post.records().dom().contains(o),
{
}

/// Law: when an arm of a first-one-wins group settles, the group resolves
/// once with exactly the winner's state and outcome, and every sibling arm
/// that was still pending is discarded — each gains a discard notice, and
/// none of them is pending afterwards.
pub proof fn lemma_any_winner_cleanup<F: Continuation<M>, M: Transform>(
    b: Engine<F, M>,
    post: Engine<F, M>,
    o: PromiseId,
    res: Result<Val, Val>,
    st: Val,
    arms: Vec<PromiseId>,
)
    requires
        b.wf(),
        b.records().dom().contains(o),
        b.records()[o].body == Body::<F>::AnyOwner(arms),
        any_arm_tail(b, post, o, res, st),
    ensures
        post.queue().len() > 0,
        post.queue().last() == Task::Settle(
            o,
            Ok(Val::Pair(Box::new(st), Box::new(spec_outcome_val(res)))),
            Val::Unit,
        ),
        forall|x: int|
            0 <= x < arms@.len() ==> !post.records().dom().contains(#[trigger] arms@[x]),
        forall|x: int|
            0 <= x < arms@.len() && b.records().dom().contains(#[trigger] arms@[x]) && arms@[x]
                != o ==> discarded_since(post.events(), b.events().len() as int, arms@[x]),
{
    assert(b.records()[o].body == Body::<F>::AnyOwner(arms));
    assert(crate::engine::any_owner_tail(b, post, o, res, st, arms));
    let (m1, m2) = choose|m1: Engine<F, M>, m2: Engine<F, M>|
        #![auto]
        crate::engine::body_set(b, m1, o, Body::Idle) && crate::engine::discard_frame(m1, m2)
            && crate::engine::arms_scoped(m1, m2, arms@) && (forall|x: int|
            0 <= x < arms@.len() ==> !m2.records().dom().contains(#[trigger] arms@[x]))
            && crate::engine::routed(
            m2,
            post,
            o,
            Ok(Val::Pair(Box::new(st), Box::new(spec_outcome_val(res)))),
            Val::Unit,
        );
    assert forall|x: int|
        0 <= x < arms@.len() && b.records().dom().contains(#[trigger] arms@[x]) && arms@[x]
            != o implies discarded_since(post.events(), b.events().len() as int, arms@[x]) by {
        assert(m1.records().dom().contains(arms@[x]));
        assert(!m2.records().dom().contains(arms@[x]));
        assert(discarded_since(m2.events(), m1.events().len() as int, arms@[x]));
        let k = choose|k: int|
            m1.events().len() <= k < m2.events().len() && m2.events()[k] == Event::Discarded(
                arms@[x],
            );
        assert(post.events()[k] == Event::Discarded(arms@[x]));
    }
}

/// Law: a loop whose body continues `k` times and then breaks runs its body
/// exactly `k + 1` times, one machine step per invocation, each invocation
/// receiving the state the previous one produced — and then, with nothing
/// yet written to the log, exactly one settlement carrying the broken value
/// and final state is queued for the loop.
pub proof fn lemma_loop_runs_k_iterations<F: Continuation<M>, M: Transform>(
    e0: Engine<F, M>,
    ek: Engine<F, M>,
    id: PromiseId,
    f: F,
    states: Seq<Val>,
    r: Result<Val, Val>,
    sk: Val,
    k: nat,
)
    requires
        e0.records().dom().contains(id),
        e0.records()[id].body == Body::Looping(states[0], f),
        e0.queue() == seq![Task::Invoke(id)],
        states.len() == k + 1,
        forall|i: int|
            0 <= i < k ==> f.spec_call(#[trigger] states[i], Ok(Val::Unit)) == Outcome::<F,
            M>::Next(states[i + 1]),
        f.spec_call(states[k as int], Ok(Val::Unit)) == Outcome::<F, M>::Settle(r, sk),
        crate::engine::steps_between(e0, ek, (k + 1) as nat),
    ensures
        ek.events() == e0.events(),
        ek.queue() == seq![Task::Settle(id, r, sk)],
        ek.records() == e0.records().insert(
            id,
            crate::engine::Record { handler: e0.records()[id].handler, body: Body::Idle },
        ),
    decreases k,
{
    let mid = choose|mid: Engine<F, M>|
        #![auto]
        crate::engine::step_post(e0, mid) && crate::engine::steps_between(mid, ek, k);
    let a = choose|a: Engine<F, M>|
        #![auto]
        crate::engine::popped(e0, a) && invoke_post(a, mid, id);
    assert(a.records().dom().contains(id));
    assert(a.records()[id].body == Body::Looping(states[0], f));
    assert(crate::engine::loop_step_post(a, mid, id, f, f.spec_call(states[0], Ok(Val::Unit))));
    if k == 0 {
        let m = choose|m: Engine<F, M>|
            #![auto]
            crate::engine::body_set(a, m, id, Body::Idle) && crate::engine::routed(
                m,
                mid,
                id,
                r,
                sk,
            );
        assert(mid.queue() =~= seq![Task::Settle(id, r, sk)]);
        assert(ek == mid);
    } else {
        let m = choose|m: Engine<F, M>|
            #![auto]
            crate::engine::body_set(a, m, id, Body::Looping(states[1], f))
                && crate::engine::invoke_queued(m, mid, id);
        assert(mid.queue() =~= seq![Task::Invoke(id)]);
        assert(mid.records() == e0.records().insert(
            id,
            crate::engine::Record {
                handler: e0.records()[id].handler,
                body: Body::Looping(states[1], f),
            },
        ));
        let states2 = states.skip(1);
        assert(mid.records()[id].body == Body::Looping(states2[0], f));
        assert forall|i: int|
            0 <= i < k - 1 implies f.spec_call(#[trigger] states2[i], Ok(Val::Unit)) == Outcome::<
            F,
            M,
        >::Next(states2[i + 1]) by {
            assert(states2[i] == states[i + 1]);
            assert(states2[i + 1] == states[i + 2]);
        }
        assert(states2[k - 1] == states[k as int]);
        lemma_loop_runs_k_iterations(mid, ek, id, f, states2, r, sk, (k - 1) as nat);
        assert(mid.records()[id].handler == e0.records()[id].handler);
        assert(ek.records() =~= e0.records().insert(
            id,
            crate::engine::Record { handler: e0.records()[id].handler, body: Body::Idle },
        ));
    }
}

/// Law: the settlement a finished loop queued is delivered exactly once.
/// Stepping an engine whose only work is the loop's final settlement, with
/// no continuation above the loop, writes that one resolution to the log
/// and retires the record — it can never settle again.
pub proof fn lemma_loop_final_settle<F: Continuation<M>, M: Transform>(
    ek: Engine<F, M>,
    ef: Engine<F, M>,
    id: PromiseId,
    r: Result<Val, Val>,
    sk: Val,
)
    requires
        ek.records().dom().contains(id),
        ek.records()[id].handler is Drop,
        ek.queue() == seq![Task::Settle(id, r, sk)],
        crate::engine::step_post(ek, ef),
    ensures
        ef.events() == ek.events().push(crate::engine::spec_settle_event(id, r, sk)),
        !ef.records().dom().contains(id),
        ef.queue() == Seq::<Task>::empty(),
{
    let a = choose|a: Engine<F, M>|
        #![auto]
        crate::engine::popped(ek, a) && crate::engine::settle_post(a, ef, id, r, sk);
    assert(a.records().dom().contains(id));
    assert(a.records()[id].handler is Drop);
    let b = choose|b: Engine<F, M>|
        #![auto]
        crate::engine::settled_base(a, b, id, r, sk) && ef == b;
    assert(ef.queue() =~= Seq::<Task>::empty());
}

/// Law: a rejection arriving at a success-only handler does not vanish.
/// The orphaned record is not handled but discarded — its cleanup runs, the
/// miss is reported — and the chain built on top of it is discarded too,
/// never resolved.
pub proof fn lemma_orphan_rule<F: Continuation<M>, M: Transform>(
    a: Engine<F, M>,
    post: Engine<F, M>,
    id: PromiseId,
    f: F,
    o: PromiseId,
    res: Result<Val, Val>,
    st: Val,
)
    requires
        a.wf(),
        a.records().dom().contains(id),
        a.records()[id].handler == Handler::<F, M>::ThenOk(f, o),
        res is Err,
        crate::engine::settle_post(a, post, id, res, st),
    ensures
        !post.records().dom().contains(id),
        !post.records().dom().contains(o),
        discarded_since(post.events(), a.events().len() as int, id),
        exists|k: int|
            a.events().len() <= k < post.events().len() && post.events()[k] == Event::Fault(
                id,
                Fault::MissedReject,
            ),
{
    let m = choose|m: Engine<F, M>|
        #![auto]
        crate::engine::orphan_base(a, m, id, a.records()[id].body) && crate::engine::discard_frame(
            m,
            post,
        ) && !post.records().dom().contains(o);
    let evs = crate::engine::orphan_events(id, a.records()[id].body);
    assert(m.events() == a.events() + evs);
    assert(m.events()[m.events().len() - 1] == Event::Discarded(id));
    assert(m.events().is_prefix_of(post.events()));
    assert(post.events()[m.events().len() - 1] == Event::Discarded(id));
    assert(evs[0] == Event::Fault(id, Fault::MissedReject));
    assert(m.events()[a.events().len() as int] == Event::Fault(id, Fault::MissedReject));
    assert(post.events()[a.events().len() as int] == Event::Fault(id, Fault::MissedReject));
    if post.records().dom().contains(id) {
        assert(m.records().dom().contains(id));
    }
}

/// Law: a loop that asks to continue settles nothing.  When the loop body
/// answers `Next`, no settlement is written, the loop stays pending with
/// its new state, and its next iteration is queued — so a loop that always
/// continues runs for as long as the host keeps stepping, and is stopped
/// only from outside, by a discard.
pub proof fn lemma_loop_continue_settles_nothing<F: Continuation<M>, M: Transform>(
    a: Engine<F, M>,
    post: Engine<F, M>,
    id: PromiseId,
    f: F,
    s0: Val,
    s2: Val,
)
    requires
        a.records().dom().contains(id),
        a.records()[id].body == Body::Looping(s0, f),
        f.spec_call(s0, Ok(Val::Unit)) == Outcome::<F, M>::Next(s2),
        invoke_post(a, post, id),
    ensures
        post.events() == a.events(),
        post.records().dom().contains(id),
        post.records()[id] == (crate::engine::Record {
            handler: a.records()[id].handler,
            body: Body::Looping(s2, f),
        }),
        post.queue() == a.queue().push(Task::Invoke(id)),
{
    let m = choose|m: Engine<F, M>|
        #![auto]
        crate::engine::body_set(a, m, id, Body::Looping(s2, f)) && crate::engine::invoke_queued(
            m,
            post,
            id,
        );
    assert(post.records()[id] == m.records()[id]);
}

/// Law: a loop that breaks settles once with the broken value.  When the
/// loop body answers with a settlement, the loop goes idle and exactly that
/// settlement is queued for it.
pub proof fn lemma_loop_break_settles<F: Continuation<M>, M: Transform>(
    a: Engine<F, M>,
    post: Engine<F, M>,
    id: PromiseId,
    f: F,
    s0: Val,
    r2: Result<Val, Val>,
    s2: Val,
)
    requires
        a.records().dom().contains(id),
        a.records()[id].body == Body::Looping(s0, f),
        f.spec_call(s0, Ok(Val::Unit)) == Outcome::<F, M>::Settle(r2, s2),
        invoke_post(a, post, id),
    ensures
        post.events() == a.events(),
        post.queue() == a.queue().push(Task::Settle(id, r2, s2)),
{
    let m = choose|m: Engine<F, M>|
        #![auto]
        crate::engine::body_set(a, m, id, Body::Idle) && crate::engine::routed(
            m,
            post,
            id,
            r2,
            s2,
        );
}

} // verus!
