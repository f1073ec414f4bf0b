//! The resolution engine: the registry of pending continuations, the event
//! log, and the task queue that drives synchronous propagation.
//!
//! An engine owns one execution lane.  Registering a promise tree gives every
//! node a fresh identifier and a registry record; from then on each record
//! settles exactly once — it is resolved, rejected or discarded — and is
//! removed at that moment.  All observable behaviour is written to the event
//! log: registrations, settlements, announcements of external work, and the
//! internal faults that the engine reports instead of failing.
//!
//! Propagation is small-step: `resolve`, `reject` and registration queue
//! micro-tasks, and each call of `step` processes one of them.  A chain that
//! loops forever therefore never wedges the host: the host decides how many
//! steps to spend.

use crate::command::{Command, CommandQueue};
use crate::id::PromiseId;
use crate::promise::{spec_arm_seq, spec_arms_size, spec_size, Arms, Link, Promise};
use crate::table::Table;
use crate::thunk::{Continuation, Outcome, Transform};
use crate::val::{outcome_val, spec_outcome_val, spec_slots_full, spec_slots_list, Val};
use vstd::prelude::*;

verus! {

/// An internal error, reported on the log and otherwise skipped, so that one
/// malformed chain cannot take the host loop down.
#[derive(Clone, Copy, PartialEq, Eq, Debug)]
pub enum Fault {
    /// An operation named an identifier with no pending record.
    MissingRecord,
    /// A record's body or a routing target did not have the expected shape.
    Misconfigured,
    /// A `catch` handler produced a new rejection.
    CatchRejected,
    /// A rejection arrived at a success-only handler; the record's cleanup
    /// ran instead and the chain above it was discarded.
    MissedReject,
    /// A continuation asked for another loop iteration outside a loop.
    ContinueOutsideLoop,
    /// The lane's identifier space cannot hold the promise tree a
    /// continuation produced.
    Exhausted,
}

/// One entry of the engine's observable history.
#[derive(PartialEq, Eq, Debug)]
pub enum Event {
    /// The identifier was issued and its record inserted.
    Registered(PromiseId),
    /// The record settled successfully, with its payload and state.
    Resolved(PromiseId, Val, Val),
    /// The record settled with a failure, with its payload and state.
    Rejected(PromiseId, Val, Val),
    /// The record was cancelled before settling normally.
    Discarded(PromiseId),
    /// External work `(kind, arg)` was begun on behalf of the identifier;
    /// the host's task adapter is expected to complete it later.
    TaskStarted(PromiseId, u64, u64),
    /// External work was abandoned; the host's task adapter should clean up.
    TaskCancelled(PromiseId, u64, u64),
    /// An internal error was reported and the offending step skipped.
    Fault(PromiseId, Fault),
}

/// A queued micro-task.
pub enum Task {
    /// Run the stored body of a `Start` or `Loop` record.
    Invoke(PromiseId),
    /// Deliver a settlement to a record.
    Settle(PromiseId, Result<Val, Val>, Val),
}

/// How a record's settlement is routed onward.  The identifier in each
/// variant is the record built on top of this one.
pub enum Handler<F, M> {
    /// No continuation: a fire-and-forget record.
    Drop,
    /// Forward the settlement verbatim.
    Forward(PromiseId),
    /// Run the body with the full outcome.
    Then(F, PromiseId),
    /// Run the body on success only; a rejection triggers the orphan rule.
    ThenOk(F, PromiseId),
    /// Run the body on failure only; success is forwarded unchanged.
    Catch(F, PromiseId),
    /// Transform a success payload; failures pass through.
    MapOk(M, PromiseId),
    /// Transform a failure payload; successes pass through.
    MapErr(M, PromiseId),
    /// Transform the carried state.
    MapState(M, PromiseId),
    /// Report to a first-one-wins group as its numbered arm.
    ArmAny(PromiseId, usize),
    /// Report to an all-must-settle group as its numbered arm.
    ArmAll(PromiseId, usize),
    /// Feed the settlement back into a loop's body.
    LoopBack(PromiseId),
}

/// What a pending record is doing.
pub enum Body<F> {
    /// Waiting for a queued task or an external command.
    Idle,
    /// Waiting for external work `(kind, arg)`; cancellation must tell the
    /// host's adapter.
    External(u64, u64),
    /// A one-shot body waiting for its `Invoke` task.
    Starting(Val, F),
    /// A loop body waiting for its next `Invoke` task.
    Looping(Val, F),
    /// Awaiting the settlement of a nested record.
    Waiting(PromiseId),
    /// A loop awaiting a nested record; the body runs again on its result.
    LoopWait(PromiseId, F),
    /// A first-one-wins group over the listed arms.
    AnyOwner(Vec<PromiseId>),
    /// An all-must-settle group: its arms and one outcome slot per arm.
    AllOwner(Vec<PromiseId>, Vec<Option<Val>>),
}

/// One pending promise.
pub struct Record<F, M> {
    pub handler: Handler<F, M>,
    pub body: Body<F>,
}

/// Whether an event settles `id` (resolves, rejects or discards it).
pub open spec fn is_settle_event(e: Event, id: PromiseId) -> bool {
    ||| e matches Event::Resolved(i, _, _) && i == id
    ||| e matches Event::Rejected(i, _, _) && i == id
    ||| e == Event::Discarded(id)
}

/// How many events of the log settle `id`.
pub open spec fn settle_count(log: Seq<Event>, id: PromiseId) -> nat
    decreases log.len(),
{
    if log.len() == 0 {
        0
    } else {
        settle_count(log.drop_last(), id) + (if is_settle_event(log.last(), id) {
            1nat
        } else {
            0nat
        })
    }
}

/// Whether the log records a registration of `id`.
pub open spec fn is_registered(log: Seq<Event>, id: PromiseId) -> bool {
    exists|i: int| 0 <= i < log.len() && log[i] == Event::Registered(id)
}

/// Appending one event raises the settle count of exactly the settled
/// identifier.
pub broadcast proof fn lemma_settle_count_push(log: Seq<Event>, e: Event, id: PromiseId)
    ensures
        #[trigger] settle_count(log.push(e), id) == settle_count(log, id) + (if is_settle_event(
            e,
            id,
        ) {
            1nat
        } else {
            0nat
        }),
{
    assert(log.push(e).drop_last() =~= log);
}

/// Appending one event registers exactly the identifier it names, if any.
pub broadcast proof fn lemma_registered_push(log: Seq<Event>, e: Event, id: PromiseId)
    ensures
        #[trigger] is_registered(log.push(e), id) <==> (is_registered(log, id) || e
            == Event::Registered(id)),
{
    let l2 = log.push(e);
    if is_registered(log, id) {
        let i = choose|i: int| 0 <= i < log.len() && log[i] == Event::Registered(id);
        assert(l2[i] == Event::Registered(id));
    }
    if e == Event::Registered(id) {
        assert(l2[log.len() as int] == Event::Registered(id));
    }
    if is_registered(l2, id) && !(e == Event::Registered(id)) {
        let i = choose|i: int| 0 <= i < l2.len() && l2[i] == Event::Registered(id);
        assert(log[i] == Event::Registered(id));
    }
}

/// Settle counts distribute over concatenation.
pub proof fn lemma_settle_count_add(a: Seq<Event>, b: Seq<Event>, id: PromiseId)
    ensures
        settle_count(a + b, id) == settle_count(a, id) + settle_count(b, id),
    decreases b.len(),
{
    if b.len() == 0 {
        assert(a + b =~= a);
    } else {
        assert((a + b).drop_last() =~= a + b.drop_last());
        assert((a + b).last() == b.last());
        lemma_settle_count_add(a, b.drop_last(), id);
    }
}

/// Registration in a concatenation comes from one of the parts.
pub proof fn lemma_registered_add(a: Seq<Event>, b: Seq<Event>, id: PromiseId)
    ensures
        is_registered(a + b, id) <==> (is_registered(a, id) || is_registered(b, id)),
{
    let c = a + b;
    if is_registered(a, id) {
        let i = choose|i: int| 0 <= i < a.len() && a[i] == Event::Registered(id);
        assert(c[i] == Event::Registered(id));
    }
    if is_registered(b, id) {
        let i = choose|i: int| 0 <= i < b.len() && b[i] == Event::Registered(id);
        assert(c[a.len() + i] == Event::Registered(id));
    }
    if is_registered(c, id) {
        let i = choose|i: int| 0 <= i < c.len() && c[i] == Event::Registered(id);
        if i < a.len() {
            assert(a[i] == Event::Registered(id));
        } else {
            assert(b[i - a.len()] == Event::Registered(id));
        }
    }
}

/// The continuation engine for one execution lane.
pub struct Engine<F, M> {
    lane: u64,
    next: u64,
    table: Table<Record<F, M>>,
    tasks: Vec<Task>,
    log: Vec<Event>,
}

impl<F, M> Engine<F, M> where F: Continuation<M>, M: Transform {
    /// The lane tag carried by every identifier this engine issues.
    pub closed spec fn lane(self) -> u64 {
        self.lane
    }

    /// The serial number the next registration will use.
    pub closed spec fn next_serial(self) -> u64 {
        self.next
    }

    /// The registry of pending records.
    pub closed spec fn records(self) -> Map<PromiseId, Record<F, M>> {
        self.table@
    }

    /// The queued micro-tasks, oldest first.
    pub closed spec fn queue(self) -> Seq<Task> {
        self.tasks@
    }

    /// The event log, oldest first.
    pub closed spec fn events(self) -> Seq<Event> {
        self.log@
    }

    /// The registry's keys are distinct.
    pub closed spec fn store_ok(self) -> bool {
        self.table.wf()
    }

    /// The engine invariant.  Every pending record is registered and not yet
    /// settled; every registered identifier that is no longer pending has
    /// settled exactly once; settlements only happen to registered
    /// identifiers; and every registered identifier was issued by this lane,
    /// below the running serial counter.
    pub open spec fn wf(self) -> bool {
        &&& self.store_ok()
        &&& forall|id: PromiseId| #[trigger]
            self.records().dom().contains(id) ==> is_registered(self.events(), id)
                && settle_count(self.events(), id) == 0
        &&& forall|id: PromiseId| #[trigger]
            is_registered(self.events(), id) && !self.records().dom().contains(id) ==> settle_count(
                self.events(),
                id,
            ) == 1
        &&& forall|id: PromiseId| #[trigger]
            settle_count(self.events(), id) != 0 ==> is_registered(self.events(), id)
        &&& forall|id: PromiseId| #[trigger]
            is_registered(self.events(), id) ==> id.lane == self.lane() && id.serial
                < self.next_serial()
    }

    /// A fresh engine for the given lane: nothing registered, nothing queued.
    pub fn new(lane: u64) -> (e: Engine<F, M>)
        ensures
            e.wf(),
            e.lane() == lane,
            e.next_serial() == 0,
            e.records() == Map::<PromiseId, Record<F, M>>::empty(),
            e.queue() == Seq::<Task>::empty(),
            e.events() == Seq::<Event>::empty(),
    {
        Engine { lane, next: 0, table: Table::new(), tasks: Vec::new(), log: Vec::new() }
    }

    /// Whether `id` is pending.
    pub fn pending(&self, id: PromiseId) -> (b: bool)
        requires
            self.wf(),
        ensures
            b == self.records().dom().contains(id),
    {
        self.table.contains(id)
    }

    /// How many records are pending.
    pub fn pending_count(&self) -> (n: usize)
        requires
            self.wf(),
        ensures
            n == self.records().dom().len(),
            n == 0 ==> self.records() == Map::<PromiseId, Record<F, M>>::empty(),
    {
        self.table.len()
    }

    /// How many micro-tasks are waiting.
    pub fn task_count(&self) -> (n: usize)
        ensures
            n == self.queue().len(),
    {
        self.tasks.len()
    }

    /// How many events the log holds.
    pub fn event_count(&self) -> (n: usize)
        ensures
            n == self.events().len(),
    {
        self.log.len()
    }

    /// Read one event of the log.
    pub fn event_at(&self, i: usize) -> (e: &Event)
        requires
            i < self.events().len(),
        ensures
            *e == self.events()[i as int],
    {
        &self.log[i]
    }

    /// Queue a resolution for `id`, to be applied by a later `step`.
    pub fn resolve(&mut self, id: PromiseId, result: Val, state: Val)
        requires
            old(self).wf(),
        ensures
            final(self).wf(),
            final(self).queue() == old(self).queue().push(Task::Settle(id, Ok(result), state)),
            final(self).records() == old(self).records(),
            final(self).events() == old(self).events(),
            final(self).lane() == old(self).lane(),
            final(self).next_serial() == old(self).next_serial(),
    {
        self.tasks.push(Task::Settle(id, Ok(result), state));
        proof {
            assert(self.table == old(self).table);
            assert(self.log == old(self).log);
            assert(self.events() == old(self).events());
            assert(self.records() == old(self).records());
            assert(self.wf());
        }
    }

    /// Queue a rejection for `id`, to be applied by a later `step`.
    pub fn reject(&mut self, id: PromiseId, error: Val, state: Val)
        requires
            old(self).wf(),
        ensures
            final(self).wf(),
            final(self).queue() == old(self).queue().push(Task::Settle(id, Err(error), state)),
            final(self).records() == old(self).records(),
            final(self).events() == old(self).events(),
            final(self).lane() == old(self).lane(),
            final(self).next_serial() == old(self).next_serial(),
    {
        self.tasks.push(Task::Settle(id, Err(error), state));
        proof {
            assert(self.table == old(self).table);
            assert(self.log == old(self).log);
            assert(self.events() == old(self).events());
            assert(self.records() == old(self).records());
            assert(self.wf());
        }
    }

    /// Drain a deferred command queue into the task queue, oldest first, so
    /// that resolutions apply in the order their commands were queued.
    pub fn sync(&mut self, q: &mut CommandQueue)
        requires
            old(self).wf(),
        ensures
            final(self).wf(),
            final(q)@ == Seq::<Command>::empty(),
            final(self).queue() == old(self).queue() + old(q)@.map_values(
                |c: Command| spec_command_task(c),
            ),
            final(self).records() == old(self).records(),
            final(self).events() == old(self).events(),
            final(self).lane() == old(self).lane(),
            final(self).next_serial() == old(self).next_serial(),
    {
        let ghost orig = q@;
        let ghost done: Seq<Command> = Seq::empty();
        loop
            invariant
                self.wf(),
                orig == done + q@,
                self.queue() == old(self).queue() + done.map_values(
                    |c: Command| spec_command_task(c),
                ),
                self.records() == old(self).records(),
                self.events() == old(self).events(),
                self.lane() == old(self).lane(),
                self.next_serial() == old(self).next_serial(),
            ensures
                q@.len() == 0,
                done == orig,
            decreases q@.len(),
        {
            match q.pop_front() {
                Some(c) => {
                    let t = match c {
                        Command::Resolve(id, v, s) => Task::Settle(id, Ok(v), s),
                        Command::Reject(id, e, s) => Task::Settle(id, Err(e), s),
                    };
                    self.tasks.push(t);
                    proof {
                        let done2 = done.push(c);
                        assert(orig =~= done2 + q@);
                        assert(done2.map_values(|c: Command| spec_command_task(c))
                            =~= done.map_values(|c: Command| spec_command_task(c)).push(
                            spec_command_task(c),
                        ));
                        done = done2;
                    }
                },
                None => {
                    break ;
                },
            }
        }
        proof {
            assert(done =~= orig);
        }
    }
}

/// The task a deferred command turns into.
pub open spec fn spec_command_task(c: Command) -> Task {
    match c {
        Command::Resolve(id, v, s) => Task::Settle(id, Ok(v), s),
        Command::Reject(id, e, s) => Task::Settle(id, Err(e), s),
    }
}

/// The runtime handler a chain link becomes, once the record above it exists.
pub open spec fn spec_link_handler<F, M>(link: Link<F, M>, to: PromiseId) -> Handler<F, M> {
    match link {
        Link::Then(f) => Handler::Then(f, to),
        Link::ThenOk(f) => Handler::ThenOk(f, to),
        Link::Catch(f) => Handler::Catch(f, to),
        Link::MapOk(m) => Handler::MapOk(m, to),
        Link::MapErr(m) => Handler::MapErr(m, to),
        Link::MapState(m) => Handler::MapState(m, to),
    }
}

/// What every registration call leaves untouched or extends: the invariant
/// holds again, already-pending records are unchanged, the new identifiers
/// are exactly the issued serial range (all pending, all registered), no
/// settlement is added, and log and task queue only grow at the end.
pub open spec fn reg_frame<F: Continuation<M>, M: Transform>(
    pre: Engine<F, M>,
    post: Engine<F, M>,
) -> bool {
    &&& post.wf()
    &&& post.lane() == pre.lane()
    &&& pre.next_serial() <= post.next_serial()
    &&& forall|j: PromiseId| #[trigger]
        pre.records().dom().contains(j) ==> post.records().dom().contains(j) && post.records()[j]
            == pre.records()[j]
    &&& forall|j: PromiseId| #[trigger]
        post.records().dom().contains(j) ==> pre.records().dom().contains(j) || (j.lane
            == pre.lane() && pre.next_serial() <= j.serial < post.next_serial())
    &&& forall|j: PromiseId|
        j.lane == pre.lane() && pre.next_serial() <= j.serial < post.next_serial()
            ==> #[trigger] post.records().dom().contains(j)
    &&& forall|j: PromiseId| #[trigger]
        is_registered(post.events(), j) <==> (is_registered(pre.events(), j) || (j.lane
            == pre.lane() && pre.next_serial() <= j.serial < post.next_serial()))
    &&& forall|j: PromiseId| #[trigger]
        settle_count(post.events(), j) == settle_count(pre.events(), j)
    &&& pre.events().is_prefix_of(post.events())
    &&& pre.queue().is_prefix_of(post.queue())
}

/// Registration frames compose.
pub proof fn lemma_reg_frame_trans<F: Continuation<M>, M: Transform>(
    a: Engine<F, M>,
    b: Engine<F, M>,
    c: Engine<F, M>,
)
    requires
        reg_frame(a, b),
        reg_frame(b, c),
    ensures
        reg_frame(a, c),
{
    assert(a.events() =~= c.events().subrange(0, a.events().len() as int)) by {
        assert(a.events() =~= b.events().subrange(0, a.events().len() as int));
        assert(b.events() =~= c.events().subrange(0, b.events().len() as int));
    }
    assert(a.queue() =~= c.queue().subrange(0, a.queue().len() as int)) by {
        assert(a.queue() =~= b.queue().subrange(0, a.queue().len() as int));
        assert(b.queue() =~= c.queue().subrange(0, b.queue().len() as int));
    }
    assert forall|j: PromiseId|
        j.lane == a.lane() && a.next_serial() <= j.serial < c.next_serial() implies #[trigger] c.records().dom().contains(j) by {
        if j.serial < b.next_serial() {
            assert(b.records().dom().contains(j));
        }
    }
}

/// The identifier the node at preorder position `n` of this lane receives.
pub open spec fn node_id(lane: u64, n: int) -> PromiseId {
    PromiseId { lane, serial: n as u64 }
}

/// The events one registration appends, in order: each node's registration
/// notice, preorder, with external work announced as it is met.
pub open spec fn reg_events<F, M>(p: Promise<F, M>, lane: u64, n: int) -> Seq<Event>
    decreases p,
{
    let root = node_id(lane, n);
    match p {
        Promise::External(k, a) => seq![Event::Registered(root), Event::TaskStarted(root, k, a)],
        Promise::Ready(_, _) => seq![Event::Registered(root)],
        Promise::Start(_, _) => seq![Event::Registered(root)],
        Promise::Loop(_, _) => seq![Event::Registered(root)],
        Promise::Chain(inner, _) => seq![Event::Registered(root)] + reg_events(*inner, lane, n + 1),
        Promise::Any(arms) => seq![Event::Registered(root)] + reg_arms_events(arms, lane, n + 1),
        Promise::All(arms) => seq![Event::Registered(root)] + reg_arms_events(arms, lane, n + 1),
    }
}

/// The events a list of arms appends, arm after arm.
pub open spec fn reg_arms_events<F, M>(arms: Arms<F, M>, lane: u64, n: int) -> Seq<Event>
    decreases arms,
{
    match arms {
        Arms::Nil => Seq::empty(),
        Arms::Cons(head, tail) => reg_events(*head, lane, n) + reg_arms_events(
            *tail,
            lane,
            n + spec_size(*head),
        ),
    }
}

/// The micro-tasks one registration queues, in order: ready nodes queue
/// their settlement, started and looping nodes their first invocation.
pub open spec fn reg_tasks<F, M>(p: Promise<F, M>, lane: u64, n: int) -> Seq<Task>
    decreases p,
{
    let root = node_id(lane, n);
    match p {
        Promise::External(_, _) => Seq::empty(),
        Promise::Ready(r, st) => seq![Task::Settle(root, r, st)],
        Promise::Start(_, _) => seq![Task::Invoke(root)],
        Promise::Loop(_, _) => seq![Task::Invoke(root)],
        Promise::Chain(inner, _) => reg_tasks(*inner, lane, n + 1),
        Promise::Any(arms) => reg_arms_tasks(arms, lane, n + 1),
        Promise::All(arms) => reg_arms_tasks(arms, lane, n + 1),
    }
}

/// The micro-tasks a list of arms queues, arm after arm.
pub open spec fn reg_arms_tasks<F, M>(arms: Arms<F, M>, lane: u64, n: int) -> Seq<Task>
    decreases arms,
{
    match arms {
        Arms::Nil => Seq::empty(),
        Arms::Cons(head, tail) => reg_tasks(*head, lane, n) + reg_arms_tasks(
            *tail,
            lane,
            n + spec_size(*head),
        ),
    }
}

/// The root identifiers of a list of arms, in arm order.
pub open spec fn spec_arm_ids<F, M>(arms: Arms<F, M>, lane: u64, n: int) -> Seq<PromiseId>
    decreases arms,
{
    match arms {
        Arms::Nil => Seq::empty(),
        Arms::Cons(head, tail) => seq![node_id(lane, n)] + spec_arm_ids(
            *tail,
            lane,
            n + spec_size(*head),
        ),
    }
}

/// Every node of `p` stands in `post`'s registry: the node at preorder
/// position `n` carries handler `h` and the body its kind prescribes, chain
/// children route through their link, and group arms route to their owner
/// under their position.
pub open spec fn reg_recs<F: Continuation<M>, M: Transform>(
    post: Engine<F, M>,
    p: Promise<F, M>,
    h: Handler<F, M>,
    lane: u64,
    n: int,
) -> bool
    decreases p,
{
    let root = node_id(lane, n);
    &&& post.records().dom().contains(root)
    &&& post.records()[root].handler == h
    &&& match p {
        Promise::External(k, a) => post.records()[root].body == Body::<F>::External(k, a),
        Promise::Ready(_, _) => post.records()[root].body == Body::<F>::Idle,
        Promise::Start(s0, f) => post.records()[root].body == Body::<F>::Starting(s0, f),
        Promise::Loop(s0, f) => post.records()[root].body == Body::<F>::Looping(s0, f),
        Promise::Chain(inner, link) => post.records()[root].body == Body::<F>::Waiting(
            node_id(lane, n + 1),
        ) && reg_recs(post, *inner, spec_link_handler(link, root), lane, n + 1),
        Promise::Any(arms) => (post.records()[root].body matches Body::AnyOwner(ids) && ids@
            == spec_arm_ids(arms, lane, n + 1)) && reg_arms_recs(post, arms, root, 0, true, lane, n + 1),
        Promise::All(arms) => (post.records()[root].body matches Body::AllOwner(ids, slots) && ids@
            == spec_arm_ids(arms, lane, n + 1) && slots@.len() == spec_arm_seq(arms).len() && (
        forall|i: int| 0 <= i < slots@.len() ==> slots@[i] is None)) && reg_arms_recs(
            post,
            arms,
            root,
            0,
            false,
            lane,
            n + 1,
        ),
    }
}

/// As `reg_recs`, for each arm of a group in turn.
pub open spec fn reg_arms_recs<F: Continuation<M>, M: Transform>(
    post: Engine<F, M>,
    arms: Arms<F, M>,
    owner: PromiseId,
    idx: int,
    any: bool,
    lane: u64,
    n: int,
) -> bool
    decreases arms,
{
    match arms {
        Arms::Nil => true,
        Arms::Cons(head, tail) => reg_recs(
            post,
            *head,
            if any {
                Handler::<F, M>::ArmAny(owner, idx as usize)
            } else {
                Handler::<F, M>::ArmAll(owner, idx as usize)
            },
            lane,
            n,
        ) && reg_arms_recs(post, *tail, owner, idx + 1, any, lane, n + spec_size(*head)),
    }
}

/// Everything one registration call does.
pub open spec fn reg_post<F: Continuation<M>, M: Transform>(
    pre: Engine<F, M>,
    post: Engine<F, M>,
    p: Promise<F, M>,
    h: Handler<F, M>,
    root: PromiseId,
) -> bool {
    &&& reg_frame(pre, post)
    &&& post.next_serial() == pre.next_serial() + spec_size(p)
    &&& root == node_id(pre.lane(), pre.next_serial() as int)
    &&& post.events() == pre.events() + reg_events(p, pre.lane(), pre.next_serial() as int)
    &&& post.queue() == pre.queue() + reg_tasks(p, pre.lane(), pre.next_serial() as int)
    &&& reg_recs(post, p, h, pre.lane(), pre.next_serial() as int)
}

/// A list of arms has one root identifier per arm.
pub proof fn lemma_arm_ids_len<F, M>(arms: Arms<F, M>, lane: u64, n: int)
    ensures
        spec_arm_ids(arms, lane, n).len() == spec_arm_seq(arms).len(),
    decreases arms,
{
    match arms {
        Arms::Nil => {},
        Arms::Cons(head, tail) => {
            lemma_arm_ids_len(*tail, lane, n + spec_size(*head));
        },
    }
}

/// `reg_recs` reads only the records of the registered range, so it
/// transfers to any engine that agrees with `e1` on that range.
proof fn lemma_reg_recs_frame<F: Continuation<M>, M: Transform>(
    e1: Engine<F, M>,
    e2: Engine<F, M>,
    p: Promise<F, M>,
    h: Handler<F, M>,
    lane: u64,
    n: int,
)
    requires
        reg_recs(e1, p, h, lane, n),
        0 <= n,
        n + spec_size(p) <= u64::MAX,
        forall|j: PromiseId|
            j.lane == lane && n <= j.serial < n + spec_size(p) && #[trigger] e1.records().dom().contains(
                j,
            ) ==> e2.records().dom().contains(j) && e2.records()[j] == e1.records()[j],
    ensures
        reg_recs(e2, p, h, lane, n),
    decreases p,
{
    let root = node_id(lane, n);
    assert(root.serial == n);
    assert(e2.records().dom().contains(root) && e2.records()[root] == e1.records()[root]);
    match p {
        Promise::Chain(inner, link) => {
            lemma_reg_recs_frame(e1, e2, *inner, spec_link_handler(link, root), lane, n + 1);
        },
        Promise::Any(arms) => {
            lemma_reg_arms_recs_frame(e1, e2, arms, root, 0, true, lane, n + 1);
        },
        Promise::All(arms) => {
            lemma_reg_arms_recs_frame(e1, e2, arms, root, 0, false, lane, n + 1);
        },
        _ => {},
    }
}

/// As `lemma_reg_recs_frame`, for the arms of a group in turn.
proof fn lemma_reg_arms_recs_frame<F: Continuation<M>, M: Transform>(
    e1: Engine<F, M>,
    e2: Engine<F, M>,
    arms: Arms<F, M>,
    owner: PromiseId,
    idx: int,
    any: bool,
    lane: u64,
    n: int,
)
    requires
        reg_arms_recs(e1, arms, owner, idx, any, lane, n),
        0 <= n,
        n + spec_arms_size(arms) <= u64::MAX,
        forall|j: PromiseId|
            j.lane == lane && n <= j.serial < n + spec_arms_size(arms) && #[trigger] e1.records().dom().contains(
                j,
            ) ==> e2.records().dom().contains(j) && e2.records()[j] == e1.records()[j],
    ensures
        reg_arms_recs(e2, arms, owner, idx, any, lane, n),
    decreases arms,
{
    match arms {
        Arms::Nil => {},
        Arms::Cons(head, tail) => {
            let hh = if any {
                Handler::<F, M>::ArmAny(owner, idx as usize)
            } else {
                Handler::<F, M>::ArmAll(owner, idx as usize)
            };
            lemma_reg_recs_frame(e1, e2, *head, hh, lane, n);
            lemma_reg_arms_recs_frame(e1, e2, *tail, owner, idx + 1, any, lane, n + spec_size(*head));
        },
    }
}

impl<F, M> Engine<F, M> where F: Continuation<M>, M: Transform {
    /// Insert a promise tree into the registry, issuing a fresh identifier
    /// for every node, and return the root's identifier.  No continuation
    /// body runs yet: ready and started nodes only queue their first task.
    pub fn register(&mut self, p: Promise<F, M>) -> (root: PromiseId)
        requires
            old(self).wf(),
            old(self).next_serial() + spec_size(p) <= u64::MAX,
            spec_size(p) <= usize::MAX,
        ensures
            reg_post(*old(self), *final(self), p, Handler::<F, M>::Drop, root),
    {
        self.reg(p, Handler::Drop)
    }

    /// Register `p` if the lane can still issue identifiers for the whole
    /// tree, and say so otherwise instead of demanding it of the caller.
    pub fn try_register(&mut self, p: Promise<F, M>) -> (r: Option<PromiseId>)
        requires
            old(self).wf(),
        ensures
            final(self).wf(),
            match r {
                Some(root) => fits(*old(self), p) && reg_post(
                    *old(self),
                    *final(self),
                    p,
                    Handler::<F, M>::Drop,
                    root,
                ),
                None => !fits(*old(self), p) && *final(self) == *old(self),
            },
    {
        let n = tree_size(&p);
        if n == u64::MAX || self.next > u64::MAX - n || n > (usize::MAX as u64) {
            proof {
                assert(!fits(*old(self), p));
            }
            None
        } else {
            proof {
                assert(fits(*old(self), p));
            }
            Some(self.reg(p, Handler::Drop))
        }
    }

    /// Registration worker: attach handler `h` to the root of `p`.
    fn reg(&mut self, p: Promise<F, M>, h: Handler<F, M>) -> (root: PromiseId)
        requires
            old(self).wf(),
            old(self).next_serial() + spec_size(p) <= u64::MAX,
            spec_size(p) <= usize::MAX,
        ensures
            reg_post(*old(self), *final(self), p, h, root),
        decreases spec_size(p), 0nat,
    {
        broadcast use {lemma_settle_count_push, lemma_registered_push};

        let ghost pre = *old(self);
        let ghost p0 = p;
        let ghost nn = pre.next_serial() as int;
        let root = PromiseId { lane: self.lane, serial: self.next };
        proof {
            assert(root == node_id(pre.lane(), nn));
            if self.records().dom().contains(root) {
                assert(is_registered(self.events(), root));
            }
        }
        self.next = self.next + 1;
        match p {
            Promise::External(k, a) => {
                self.table.insert(root, Record { handler: h, body: Body::External(k, a) });
                self.log.push(Event::Registered(root));
                self.log.push(Event::TaskStarted(root, k, a));
                proof {
                    assert(self.events() =~= pre.events() + reg_events(p0, pre.lane(), nn));
                    assert(self.queue() =~= pre.queue() + reg_tasks(p0, pre.lane(), nn));
                    assert(pre.events() =~= self.events().subrange(0, pre.events().len() as int));
                    assert(pre.queue() =~= self.queue().subrange(0, pre.queue().len() as int));
                    assert(reg_post(pre, *self, p0, h, root));
                }
                root
            },
            Promise::Ready(r, s) => {
                self.table.insert(root, Record { handler: h, body: Body::Idle });
                self.log.push(Event::Registered(root));
                self.tasks.push(Task::Settle(root, r, s));
                proof {
                    assert(self.events() =~= pre.events() + reg_events(p0, pre.lane(), nn));
                    assert(self.queue() =~= pre.queue() + reg_tasks(p0, pre.lane(), nn));
                    assert(pre.events() =~= self.events().subrange(0, pre.events().len() as int));
                    assert(pre.queue() =~= self.queue().subrange(0, pre.queue().len() as int));
                    assert(reg_post(pre, *self, p0, h, root));
                }
                root
            },
            Promise::Start(s0, f) => {
                self.table.insert(root, Record { handler: h, body: Body::Starting(s0, f) });
                self.log.push(Event::Registered(root));
                self.tasks.push(Task::Invoke(root));
                proof {
                    assert(self.events() =~= pre.events() + reg_events(p0, pre.lane(), nn));
                    assert(self.queue() =~= pre.queue() + reg_tasks(p0, pre.lane(), nn));
                    assert(pre.events() =~= self.events().subrange(0, pre.events().len() as int));
                    assert(pre.queue() =~= self.queue().subrange(0, pre.queue().len() as int));
                    assert(reg_post(pre, *self, p0, h, root));
                }
                root
            },
            Promise::Loop(s0, f) => {
                self.table.insert(root, Record { handler: h, body: Body::Looping(s0, f) });
                self.log.push(Event::Registered(root));
                self.tasks.push(Task::Invoke(root));
                proof {
                    assert(self.events() =~= pre.events() + reg_events(p0, pre.lane(), nn));
                    assert(self.queue() =~= pre.queue() + reg_tasks(p0, pre.lane(), nn));
                    assert(pre.events() =~= self.events().subrange(0, pre.events().len() as int));
                    assert(pre.queue() =~= self.queue().subrange(0, pre.queue().len() as int));
                    assert(reg_post(pre, *self, p0, h, root));
                }
                root
            },
            Promise::Chain(inner, link) => {
                let ghost inner0 = *inner;
                let ghost link0 = link;
                self.table.insert(root, Record { handler: h, body: Body::Idle });
                self.log.push(Event::Registered(root));
                let ghost mid = *self;
                proof {
                    assert(pre.events() =~= mid.events().subrange(0, pre.events().len() as int));
                    assert(pre.queue() =~= mid.queue().subrange(0, pre.queue().len() as int));
                    assert(reg_frame(pre, mid));
                }
                let hch = link_handler(link, root);
                let child = self.reg(*inner, hch);
                let ghost done = *self;
                proof {
                    lemma_reg_frame_trans(pre, mid, *self);
                    assert(reg_post(mid, done, inner0, hch, child));
                    assert(child == node_id(pre.lane(), nn + 1));
                }
                let rec = self.table.remove(root);
                match rec {
                    Some(rec) => {
                        self.table.insert(root, Record { handler: rec.handler, body: Body::Waiting(child) });
                    },
                    None => {
                        proof {
                            assert(false);
                        }
                    },
                }
                proof {
                    assert(self.records() =~= done.records().insert(
                        root,
                        Record { handler: h, body: Body::Waiting(child) },
                    ));
                    assert(self.events() =~= pre.events() + reg_events(p0, pre.lane(), nn)) by {
                        assert(done.events() =~= mid.events() + reg_events(inner0, pre.lane(), nn + 1));
                    }
                    assert(self.queue() =~= pre.queue() + reg_tasks(p0, pre.lane(), nn)) by {
                        assert(done.queue() =~= mid.queue() + reg_tasks(inner0, pre.lane(), nn + 1));
                    }
                    assert(reg_recs(*self, p0, h, pre.lane(), nn)) by {
                        assert forall|j: PromiseId|
                            j.lane == pre.lane() && nn + 1 <= j.serial < nn + 1 + spec_size(inner0)
                                && #[trigger] done.records().dom().contains(j) implies self.records().dom().contains(
                            j,
                        ) && self.records()[j] == done.records()[j] by {
                            assert(j != root);
                        }
                        lemma_reg_recs_frame(done, *self, inner0, hch, pre.lane(), nn + 1);
                    }
                    assert(reg_post(pre, *self, p0, h, root));
                }
                root
            },
            Promise::Any(arms) => {
                let ghost arms0 = arms;
                self.table.insert(root, Record { handler: h, body: Body::Idle });
                self.log.push(Event::Registered(root));
                let ghost mid = *self;
                proof {
                    assert(pre.events() =~= mid.events().subrange(0, pre.events().len() as int));
                    assert(pre.queue() =~= mid.queue().subrange(0, pre.queue().len() as int));
                    assert(reg_frame(pre, mid));
                }
                let ids = self.reg_arms(arms, root, 0, true);
                let ghost done = *self;
                let ghost ids_seq = ids@;
                proof {
                    lemma_reg_frame_trans(pre, mid, *self);
                }
                let rec = self.table.remove(root);
                match rec {
                    Some(rec) => {
                        self.table.insert(root, Record { handler: rec.handler, body: Body::AnyOwner(ids) });
                    },
                    None => {
                        proof {
                            assert(false);
                        }
                    },
                }
                proof {
                    assert(self.records() =~= done.records().insert(
                        root,
                        self.records()[root],
                    ));
                    assert(self.events() =~= pre.events() + reg_events(p0, pre.lane(), nn)) by {
                        assert(done.events() =~= mid.events() + reg_arms_events(arms0, pre.lane(), nn + 1));
                    }
                    assert(self.queue() =~= pre.queue() + reg_tasks(p0, pre.lane(), nn)) by {
                        assert(done.queue() =~= mid.queue() + reg_arms_tasks(arms0, pre.lane(), nn + 1));
                    }
                    assert(reg_recs(*self, p0, h, pre.lane(), nn)) by {
                        assert(ids_seq == spec_arm_ids(arms0, pre.lane(), nn + 1));
                        assert forall|j: PromiseId|
                            j.lane == pre.lane() && nn + 1 <= j.serial < nn + 1 + spec_arms_size(
                                arms0,
                            ) && #[trigger] done.records().dom().contains(
                            j,
                        ) implies self.records().dom().contains(j) && self.records()[j]
                            == done.records()[j] by {
                            assert(j != root);
                        }
                        lemma_reg_arms_recs_frame(done, *self, arms0, root, 0, true, pre.lane(), nn + 1);
                    }
                    assert(reg_post(pre, *self, p0, h, root));
                }
                root
            },
            Promise::All(arms) => {
                let ghost arms0 = arms;
                self.table.insert(root, Record { handler: h, body: Body::Idle });
                self.log.push(Event::Registered(root));
                let ghost mid = *self;
                proof {
                    assert(pre.events() =~= mid.events().subrange(0, pre.events().len() as int));
                    assert(pre.queue() =~= mid.queue().subrange(0, pre.queue().len() as int));
                    assert(reg_frame(pre, mid));
                }
                let ids = self.reg_arms(arms, root, 0, false);
                let ghost done = *self;
                let ghost ids_seq = ids@;
                proof {
                    lemma_reg_frame_trans(pre, mid, *self);
                }
                let mut slots: Vec<Option<Val>> = Vec::new();
                let n = ids.len();
                while slots.len() < n
                    invariant
                        slots@.len() <= n,
                        forall|i: int| 0 <= i < slots@.len() ==> slots@[i] is None,
                    decreases n - slots@.len(),
                {
                    slots.push(None);
                }
                let rec = self.table.remove(root);
                match rec {
                    Some(rec) => {
                        self.table.insert(
                            root,
                            Record { handler: rec.handler, body: Body::AllOwner(ids, slots) },
                        );
                    },
                    None => {
                        proof {
                            assert(false);
                        }
                    },
                }
                proof {
                    assert(self.records() =~= done.records().insert(
                        root,
                        self.records()[root],
                    ));
                    assert(self.events() =~= pre.events() + reg_events(p0, pre.lane(), nn)) by {
                        assert(done.events() =~= mid.events() + reg_arms_events(arms0, pre.lane(), nn + 1));
                    }
                    assert(self.queue() =~= pre.queue() + reg_tasks(p0, pre.lane(), nn)) by {
                        assert(done.queue() =~= mid.queue() + reg_arms_tasks(arms0, pre.lane(), nn + 1));
                    }
                    assert(reg_recs(*self, p0, h, pre.lane(), nn)) by {
                        assert(ids_seq == spec_arm_ids(arms0, pre.lane(), nn + 1));
                        lemma_arm_ids_len(arms0, pre.lane(), nn + 1);
                        assert forall|j: PromiseId|
                            j.lane == pre.lane() && nn + 1 <= j.serial < nn + 1 + spec_arms_size(
                                arms0,
                            ) && #[trigger] done.records().dom().contains(
                            j,
                        ) implies self.records().dom().contains(j) && self.records()[j]
                            == done.records()[j] by {
                            assert(j != root);
                        }
                        lemma_reg_arms_recs_frame(done, *self, arms0, root, 0, false, pre.lane(), nn + 1);
                    }
                    assert(reg_post(pre, *self, p0, h, root));
                }
                root
            },
        }
    }

    /// Register every arm of a fan-in group, routing arm `i` to `owner`
    /// under position `idx + i`.
    fn reg_arms(&mut self, arms: Arms<F, M>, owner: PromiseId, idx: usize, any: bool) -> (ids: Vec<
        PromiseId,
    >)
        requires
            old(self).wf(),
            old(self).next_serial() + spec_arms_size(arms) <= u64::MAX,
            idx + spec_arms_size(arms) <= usize::MAX,
        ensures
            reg_frame(*old(self), *final(self)),
            final(self).next_serial() == old(self).next_serial() + spec_arms_size(arms),
            final(self).events() == old(self).events() + reg_arms_events(
                arms,
                old(self).lane(),
                old(self).next_serial() as int,
            ),
            final(self).queue() == old(self).queue() + reg_arms_tasks(
                arms,
                old(self).lane(),
                old(self).next_serial() as int,
            ),
            ids@ == spec_arm_ids(arms, old(self).lane(), old(self).next_serial() as int),
            reg_arms_recs(
                *final(self),
                arms,
                owner,
                idx as int,
                any,
                old(self).lane(),
                old(self).next_serial() as int,
            ),
        decreases spec_arms_size(arms), 1nat,
    {
        let ghost pre = *old(self);
        let ghost arms0 = arms;
        let ghost nn = pre.next_serial() as int;
        match arms {
            Arms::Nil => {
                let ids: Vec<PromiseId> = Vec::new();
                proof {
                    assert(pre.events() =~= self.events().subrange(0, pre.events().len() as int));
                    assert(pre.queue() =~= self.queue().subrange(0, pre.queue().len() as int));
                    assert(self.events() =~= pre.events() + reg_arms_events(arms0, pre.lane(), nn));
                    assert(self.queue() =~= pre.queue() + reg_arms_tasks(arms0, pre.lane(), nn));
                    assert(ids@ =~= spec_arm_ids(arms0, pre.lane(), nn));
                }
                ids
            },
            Arms::Cons(head, tail) => {
                let ghost head0 = *head;
                let ghost tail0 = *tail;
                let hdl = if any {
                    Handler::ArmAny(owner, idx)
                } else {
                    Handler::ArmAll(owner, idx)
                };
                let first = self.reg(*head, hdl);
                let ghost mid = *self;
                let rest = self.reg_arms(*tail, owner, idx + 1, any);
                let ghost fin = *self;
                proof {
                    lemma_reg_frame_trans(pre, mid, *self);
                    assert(reg_post(pre, mid, head0, hdl, first));
                    assert(first == node_id(pre.lane(), nn));
                    assert(mid.next_serial() as int == nn + spec_size(head0));
                }
                let mut ids = rest;
                ids.insert(0, first);
                proof {
                    assert(spec_arm_seq(arms0) =~= seq![head0] + spec_arm_seq(tail0));
                    assert(ids@ =~= seq![first] + spec_arm_ids(tail0, pre.lane(), nn + spec_size(head0)));
                    assert(ids@ =~= spec_arm_ids(arms0, pre.lane(), nn));
                    assert(fin.events() =~= pre.events() + reg_arms_events(arms0, pre.lane(), nn)) by {
                        assert(mid.events() =~= pre.events() + reg_events(head0, pre.lane(), nn));
                        assert(fin.events() =~= mid.events() + reg_arms_events(
                            tail0,
                            pre.lane(),
                            nn + spec_size(head0),
                        ));
                    }
                    assert(fin.queue() =~= pre.queue() + reg_arms_tasks(arms0, pre.lane(), nn)) by {
                        assert(mid.queue() =~= pre.queue() + reg_tasks(head0, pre.lane(), nn));
                        assert(fin.queue() =~= mid.queue() + reg_arms_tasks(
                            tail0,
                            pre.lane(),
                            nn + spec_size(head0),
                        ));
                    }
                    assert(reg_arms_recs(fin, arms0, owner, idx as int, any, pre.lane(), nn)) by {
                        assert(reg_arms_recs(
                            fin,
                            tail0,
                            owner,
                            idx as int + 1,
                            any,
                            pre.lane(),
                            nn + spec_size(head0),
                        ));
                        assert forall|j: PromiseId|
                            j.lane == pre.lane() && nn <= j.serial < nn + spec_size(head0)
                                && #[trigger] mid.records().dom().contains(j) implies fin.records().dom().contains(
                            j,
                        ) && fin.records()[j] == mid.records()[j] by {}
                        lemma_reg_recs_frame(mid, fin, head0, hdl, pre.lane(), nn);
                        assert(hdl == (if any {
                            Handler::<F, M>::ArmAny(owner, (idx as int) as usize)
                        } else {
                            Handler::<F, M>::ArmAll(owner, (idx as int) as usize)
                        }));
                    }
                }
                ids
            },
        }
    }
}

/// Whether an event belongs to a cancellation: the discard notice itself or
/// the cancellation of external work.
pub open spec fn is_discard_event(e: Event) -> bool {
    ||| e matches Event::Discarded(_)
    ||| e matches Event::TaskCancelled(_, _, _)
}

/// Whether the log gains a `Discarded(j)` notice at or after position
/// `from`.
pub open spec fn discarded_since(log: Seq<Event>, from: int, j: PromiseId) -> bool {
    exists|k: int| from <= k < log.len() && log[k] == Event::Discarded(j)
}

/// If the record's body was waiting on external work, the host has been
/// told to cancel it: a matching `TaskCancelled` notice stands at or after
/// position `from`.
pub open spec fn external_cancelled<F>(b: Body<F>, log: Seq<Event>, from: int, j: PromiseId) -> bool {
    match b {
        Body::External(k, a) => exists|i: int|
            from <= i < log.len() && log[i] == Event::TaskCancelled(j, k, a),
        _ => true,
    }
}

/// Whether this body names `j` as a directly nested record.
pub open spec fn body_links_to<F>(b: Body<F>, j: PromiseId) -> bool {
    match b {
        Body::Waiting(c) => c == j,
        Body::LoopWait(c, _) => c == j,
        Body::AnyOwner(arms) => arms@.contains(j),
        Body::AllOwner(arms, _) => arms@.contains(j),
        _ => false,
    }
}

/// Cancellation starting from `id` stays inside `id`'s subtree: every other
/// removed record is named by the body of some removed record, so nothing
/// outside what the promise spawned is touched.
pub open spec fn discard_scoped<F: Continuation<M>, M: Transform>(
    pre: Engine<F, M>,
    post: Engine<F, M>,
    id: PromiseId,
) -> bool {
    forall|j: PromiseId|
        pre.records().dom().contains(j) && !(#[trigger] post.records().dom().contains(j)) && j
            != id ==> exists|p: PromiseId|
            #![auto]
            pre.records().dom().contains(p) && !post.records().dom().contains(p) && body_links_to(
                pre.records()[p].body,
                j,
            )
}

/// As `discard_scoped`, for a pass over a list of arms: every removed
/// record is one of the arms or is named by the body of a removed record.
pub open spec fn arms_scoped<F: Continuation<M>, M: Transform>(
    pre: Engine<F, M>,
    post: Engine<F, M>,
    arms: Seq<PromiseId>,
) -> bool {
    forall|j: PromiseId|
        pre.records().dom().contains(j) && !(#[trigger] post.records().dom().contains(j))
            ==> arms.contains(j) || exists|p: PromiseId|
            #![auto]
            pre.records().dom().contains(p) && !post.records().dom().contains(p) && body_links_to(
                pre.records()[p].body,
                j,
            )
}

/// Every identifier directly nested beneath a record with this body is gone.
pub open spec fn children_gone<F: Continuation<M>, M: Transform>(
    b: Body<F>,
    post: Engine<F, M>,
) -> bool {
    match b {
        Body::Waiting(c) => !post.records().dom().contains(c),
        Body::LoopWait(c, _) => !post.records().dom().contains(c),
        Body::AnyOwner(arms) => forall|i: int|
            0 <= i < arms@.len() ==> !post.records().dom().contains(#[trigger] arms@[i]),
        Body::AllOwner(arms, _) => forall|i: int|
            0 <= i < arms@.len() ==> !post.records().dom().contains(#[trigger] arms@[i]),
        _ => true,
    }
}

/// The bookkeeping of one cancellation pass: records are only removed, a
/// record is removed exactly when a discard notice for it is appended, only
/// cancellation events are appended, and every removed record that was
/// waiting on external work has its cancellation announced to the host.
pub open spec fn discard_core<F: Continuation<M>, M: Transform>(
    pre: Engine<F, M>,
    post: Engine<F, M>,
) -> bool {
    &&& post.wf()
    &&& post.lane() == pre.lane()
    &&& post.next_serial() == pre.next_serial()
    &&& post.queue() == pre.queue()
    &&& pre.events().is_prefix_of(post.events())
    &&& forall|j: PromiseId| #[trigger]
        post.records().dom().contains(j) ==> pre.records().dom().contains(j) && post.records()[j]
            == pre.records()[j]
    &&& forall|j: PromiseId|
        (pre.records().dom().contains(j) && !post.records().dom().contains(j))
            <==> #[trigger] discarded_since(post.events(), pre.events().len() as int, j)
    &&& forall|k: int|
        pre.events().len() <= k < post.events().len() ==> is_discard_event(
            #[trigger] post.events()[k],
        )
    &&& forall|j: PromiseId|
        pre.records().dom().contains(j) && !(#[trigger] post.records().dom().contains(j))
            ==> external_cancelled(pre.records()[j].body, post.events(), pre.events().len() as int, j)
}

/// A full cancellation pass: the bookkeeping above, and in addition every
/// removed record's nested identifiers are gone afterwards — cancellation
/// reaches the whole subtree, transitively.
pub open spec fn discard_frame<F: Continuation<M>, M: Transform>(
    pre: Engine<F, M>,
    post: Engine<F, M>,
) -> bool {
    &&& discard_core(pre, post)
    &&& forall|j: PromiseId|
        pre.records().dom().contains(j) && !(#[trigger] post.records().dom().contains(j))
            ==> children_gone(pre.records()[j].body, post)
}

/// The bookkeeping of cancellation passes composes.
pub proof fn lemma_discard_core_trans<F: Continuation<M>, M: Transform>(
    a: Engine<F, M>,
    b: Engine<F, M>,
    c: Engine<F, M>,
)
    requires
        discard_core(a, b),
        discard_core(b, c),
    ensures
        discard_core(a, c),
{
    assert(a.events() =~= c.events().subrange(0, a.events().len() as int)) by {
        assert(a.events() =~= b.events().subrange(0, a.events().len() as int));
        assert(b.events() =~= c.events().subrange(0, b.events().len() as int));
    }
    assert forall|j: PromiseId|
        (a.records().dom().contains(j) && !c.records().dom().contains(j)) implies #[trigger]
        discarded_since(c.events(), a.events().len() as int, j) by {
        if b.records().dom().contains(j) {
            assert(discarded_since(c.events(), b.events().len() as int, j));
            let k = choose|k: int|
                b.events().len() <= k < c.events().len() && c.events()[k] == Event::Discarded(j);
            assert(a.events().len() <= k);
        } else {
            assert(discarded_since(b.events(), a.events().len() as int, j));
            let k = choose|k: int|
                a.events().len() <= k < b.events().len() && b.events()[k] == Event::Discarded(j);
            assert(c.events()[k] == Event::Discarded(j));
        }
    }
    assert forall|j: PromiseId| #[trigger]
        discarded_since(c.events(), a.events().len() as int, j) implies (a.records().dom().contains(
        j,
    ) && !c.records().dom().contains(j)) by {
        let k = choose|k: int|
            a.events().len() <= k < c.events().len() && c.events()[k] == Event::Discarded(j);
        if k < b.events().len() {
            assert(b.events()[k] == Event::Discarded(j));
            assert(discarded_since(b.events(), a.events().len() as int, j));
            if c.records().dom().contains(j) {
                assert(b.records().dom().contains(j));
            }
        } else {
            assert(discarded_since(c.events(), b.events().len() as int, j));
            assert(b.records().dom().contains(j) && !c.records().dom().contains(j));
            if !a.records().dom().contains(j) {
                assert(false);
            }
        }
    }
    assert forall|k: int|
        a.events().len() <= k < c.events().len() implies is_discard_event(
        #[trigger] c.events()[k],
    ) by {
        if k < b.events().len() {
            assert(b.events()[k] == c.events()[k]);
        }
    }
    assert forall|j: PromiseId|
        a.records().dom().contains(j) && !(#[trigger] c.records().dom().contains(j))
            implies external_cancelled(
        a.records()[j].body,
        c.events(),
        a.events().len() as int,
        j,
    ) by {
        if b.records().dom().contains(j) {
            assert(b.records()[j] == a.records()[j]);
            assert(external_cancelled(b.records()[j].body, c.events(), b.events().len() as int, j));
            match a.records()[j].body {
                Body::External(k, ar) => {
                    let i = choose|i: int|
                        b.events().len() <= i < c.events().len() && c.events()[i]
                            == Event::TaskCancelled(j, k, ar);
                    assert(a.events().len() <= i);
                },
                _ => {},
            }
        } else {
            assert(external_cancelled(a.records()[j].body, b.events(), a.events().len() as int, j));
            match a.records()[j].body {
                Body::External(k, ar) => {
                    let i = choose|i: int|
                        a.events().len() <= i < b.events().len() && b.events()[i]
                            == Event::TaskCancelled(j, k, ar);
                    assert(c.events()[i] == Event::TaskCancelled(j, k, ar));
                },
                _ => {},
            }
        }
    }
}

impl<F, M> Engine<F, M> where F: Continuation<M>, M: Transform {
    /// Cancel a pending promise: run its external cleanup, mark it
    /// discarded, and do the same, transitively, to every promise currently
    /// nested beneath it.  Discarding an identifier that is not pending is a
    /// logic error in a combinator; it is reported as a fault and skipped.
    pub fn discard(&mut self, id: PromiseId)
        requires
            old(self).wf(),
        ensures
            final(self).wf(),
            old(self).records().dom().contains(id) ==> discard_frame(*old(self), *final(self))
                && discard_scoped(*old(self), *final(self), id)
                && !final(self).records().dom().contains(id),
            !old(self).records().dom().contains(id) ==> final(self).records() == old(
                self,
            ).records() && final(self).events() == old(self).events().push(
                Event::Fault(id, Fault::MissingRecord),
            ) && final(self).queue() == old(self).queue() && final(self).lane() == old(self).lane()
                && final(self).next_serial() == old(self).next_serial(),
    {
        broadcast use {lemma_settle_count_push, lemma_registered_push};

        if !self.table.contains(id) {
            self.log.push(Event::Fault(id, Fault::MissingRecord));
            proof {
                assert(self.records() == old(self).records());
                assert(self.events() == old(self).events().push(
                    Event::Fault(id, Fault::MissingRecord),
                ));
                assert(self.wf());
            }
            return ;
        }
        self.discard_down(id);
    }

    /// Cancellation worker: remove `id`'s record if it is still pending,
    /// write the cancellation events, and recurse into its nested records.
    fn discard_down(&mut self, id: PromiseId)
        requires
            old(self).wf(),
        ensures
            discard_frame(*old(self), *final(self)),
            discard_scoped(*old(self), *final(self), id),
            !final(self).records().dom().contains(id),
            !old(self).records().dom().contains(id) ==> *final(self) == *old(self),
        decreases old(self).records().dom().len(), 0nat,
    {
        broadcast use {lemma_settle_count_push, lemma_registered_push};

        let ghost pre = *old(self);
        let rec = self.table.remove(id);
        match rec {
            None => {
                proof {
                    assert(discard_frame(pre, *self)) by {
                        assert(pre.events() =~= self.events().subrange(
                            0,
                            pre.events().len() as int,
                        ));
                        assert forall|j: PromiseId| #[trigger]
                            discarded_since(
                                self.events(),
                                pre.events().len() as int,
                                j,
                            ) implies false by {}
                    }
                }
            },
            Some(rec) => {
                proof {
                    pre.table.lemma_dom_finite();
                    assert(self.records().dom() =~= pre.records().dom().remove(id));
                    vstd::set::axiom_set_remove_len::<PromiseId>(pre.records().dom(), id);
                }
                match &rec.body {
                    Body::External(k, a) => {
                        let (k, a) = (*k, *a);
                        self.log.push(Event::TaskCancelled(id, k, a));
                    },
                    _ => {},
                }
                self.log.push(Event::Discarded(id));
                let ghost mid = *self;
                proof {
                    assert(mid.records().dom().len() < pre.records().dom().len());
                    assert(discard_core(pre, mid)) by {
                        assert(pre.events() =~= mid.events().subrange(
                            0,
                            pre.events().len() as int,
                        ));
                        assert forall|j: PromiseId| #[trigger]
                            discarded_since(
                                mid.events(),
                                pre.events().len() as int,
                                j,
                            ) implies (pre.records().dom().contains(j)
                            && !mid.records().dom().contains(j)) by {
                            let k = choose|k: int|
                                pre.events().len() <= k < mid.events().len() && mid.events()[k]
                                    == Event::Discarded(j);
                            assert(j == id);
                        }
                        assert(discarded_since(mid.events(), pre.events().len() as int, id)) by {
                            assert(mid.events()[mid.events().len() - 1] == Event::Discarded(id));
                        }
                        assert forall|j: PromiseId|
                            pre.records().dom().contains(j) && !(
                            #[trigger] mid.records().dom().contains(j)) implies external_cancelled(
                            pre.records()[j].body,
                            mid.events(),
                            pre.events().len() as int,
                            j,
                        ) by {
                            assert(j == id);
                            match pre.records()[id].body {
                                Body::External(k, a) => {
                                    assert(mid.events()[pre.events().len() as int]
                                        == Event::TaskCancelled(id, k, a));
                                },
                                _ => {},
                            }
                        }
                    }
                }
                match rec.body {
                    Body::Waiting(c) => {
                        self.discard_down(c);
                        proof {
                            lemma_discard_core_trans(pre, mid, *self);
                            self.finish_discard(pre, mid, id, Body::Waiting(c));
                        }
                    },
                    Body::LoopWait(c, f) => {
                        self.discard_down(c);
                        proof {
                            lemma_discard_core_trans(pre, mid, *self);
                            self.finish_discard(pre, mid, id, Body::LoopWait(c, f));
                        }
                    },
                    Body::AnyOwner(arms) => {
                        self.discard_arms(arms);
                        proof {
                            lemma_discard_core_trans(pre, mid, *self);
                            self.finish_discard(pre, mid, id, Body::AnyOwner(arms));
                        }
                    },
                    Body::AllOwner(arms, slots) => {
                        self.discard_arms(arms);
                        proof {
                            lemma_discard_core_trans(pre, mid, *self);
                            self.finish_discard(pre, mid, id, Body::AllOwner(arms, slots));
                        }
                    },
                    b => {
                        proof {
                            assert(discard_frame(pre, *self)) by {
                                assert(forall|j: PromiseId|
                                    pre.records().dom().contains(j) && !(
                                    #[trigger] self.records().dom().contains(j)) ==> j == id);
                                assert(children_gone(pre.records()[id].body, *self));
                            }
                        }
                    },
                }
            },
        }
    }

    /// After the recursion of `discard_down` has returned, every removed
    /// record's children are gone, so the full frame holds.
    proof fn finish_discard(&self, pre: Engine<F, M>, mid: Engine<F, M>, id: PromiseId, b: Body<F>)
        requires
            discard_core(pre, *self),
            discard_frame(mid, *self),
            pre.records().dom().contains(id),
            pre.records()[id].body == b,
            forall|j: PromiseId| #[trigger]
                mid.records().dom().contains(j) <==> pre.records().dom().contains(j) && j != id,
            forall|j: PromiseId| #[trigger]
                mid.records().dom().contains(j) ==> mid.records()[j] == pre.records()[j],
            children_gone(b, *self),
        ensures
            discard_frame(pre, *self),
    {
        assert forall|j: PromiseId|
            pre.records().dom().contains(j) && !(#[trigger] self.records().dom().contains(j))
                implies children_gone(pre.records()[j].body, *self) by {
            if j != id {
                assert(mid.records().dom().contains(j));
                assert(mid.records()[j] == pre.records()[j]);
            }
        }
    }

    /// The recursion below `id` stayed inside its subtree: every record the
    /// nested call removed is `id`'s child or is linked from a removed
    /// record.
    proof fn scoped_via_child(&self, pre: Engine<F, M>, mid: Engine<F, M>, id: PromiseId, c: PromiseId)
        requires
            pre.records().dom().contains(id),
            body_links_to(pre.records()[id].body, c),
            forall|j: PromiseId| #[trigger]
                mid.records().dom().contains(j) <==> pre.records().dom().contains(j) && j != id,
            forall|j: PromiseId| #[trigger]
                mid.records().dom().contains(j) ==> mid.records()[j] == pre.records()[j],
            forall|j: PromiseId| #[trigger]
                self.records().dom().contains(j) ==> mid.records().dom().contains(j),
            discard_scoped(mid, *self, c),
        ensures
            discard_scoped(pre, *self, id),
    {
        assert forall|j: PromiseId|
            pre.records().dom().contains(j) && !(#[trigger] self.records().dom().contains(j)) && j
                != id implies exists|p: PromiseId|
            #![auto]
            pre.records().dom().contains(p) && !self.records().dom().contains(p) && body_links_to(
                pre.records()[p].body,
                j,
            ) by {
            assert(mid.records().dom().contains(j));
            if j == c {
                assert(pre.records().dom().contains(id) && !self.records().dom().contains(id)
                    && body_links_to(pre.records()[id].body, j));
            } else {
                let p = choose|p: PromiseId|
                    #![auto]
                    mid.records().dom().contains(p) && !self.records().dom().contains(p)
                        && body_links_to(mid.records()[p].body, j);
                assert(mid.records()[p] == pre.records()[p]);
                assert(pre.records().dom().contains(p) && !self.records().dom().contains(p)
                    && body_links_to(pre.records()[p].body, j));
            }
        }
    }

    /// As `scoped_via_child`, for a group: every record the arm pass
    /// removed is one of the group's arms or is linked from a removed
    /// record.
    proof fn scoped_via_arms(&self, pre: Engine<F, M>, mid: Engine<F, M>, id: PromiseId, arms: Seq<PromiseId>)
        requires
            pre.records().dom().contains(id),
            forall|x: PromiseId| arms.contains(x) ==> body_links_to(pre.records()[id].body, x),
            forall|j: PromiseId| #[trigger]
                mid.records().dom().contains(j) <==> pre.records().dom().contains(j) && j != id,
            forall|j: PromiseId| #[trigger]
                mid.records().dom().contains(j) ==> mid.records()[j] == pre.records()[j],
            forall|j: PromiseId| #[trigger]
                self.records().dom().contains(j) ==> mid.records().dom().contains(j),
            arms_scoped(mid, *self, arms),
        ensures
            discard_scoped(pre, *self, id),
    {
        assert forall|j: PromiseId|
            pre.records().dom().contains(j) && !(#[trigger] self.records().dom().contains(j)) && j
                != id implies exists|p: PromiseId|
            #![auto]
            pre.records().dom().contains(p) && !self.records().dom().contains(p) && body_links_to(
                pre.records()[p].body,
                j,
            ) by {
            assert(mid.records().dom().contains(j));
            if arms.contains(j) {
                assert(pre.records().dom().contains(id) && !self.records().dom().contains(id)
                    && body_links_to(pre.records()[id].body, j));
            } else {
                let p = choose|p: PromiseId|
                    #![auto]
                    mid.records().dom().contains(p) && !self.records().dom().contains(p)
                        && body_links_to(mid.records()[p].body, j);
                assert(mid.records()[p] == pre.records()[p]);
                assert(pre.records().dom().contains(p) && !self.records().dom().contains(p)
                    && body_links_to(pre.records()[p].body, j));
            }
        }
    }

    /// Discard every listed arm that is still pending.
    fn discard_arms(&mut self, arms: Vec<PromiseId>)
        requires
            old(self).wf(),
        ensures
            discard_frame(*old(self), *final(self)),
            arms_scoped(*old(self), *final(self), arms@),
            forall|i: int|
                0 <= i < arms@.len() ==> !final(self).records().dom().contains(
                    #[trigger] arms@[i],
                ),
        decreases old(self).records().dom().len(), 1nat + arms@.len(),
    {
        let ghost pre = *old(self);
        proof {
            assert(discard_frame(pre, *self)) by {
                assert(pre.events() =~= self.events().subrange(0, pre.events().len() as int));
                assert forall|j: PromiseId| #[trigger]
                    discarded_since(self.events(), pre.events().len() as int, j) implies false by {}
            }
        }
        let mut i: usize = 0;
        while i < arms.len()
            invariant
                pre == *old(self),
                pre.wf(),
                discard_frame(pre, *self),
                arms_scoped(pre, *self, arms@),
                i <= arms@.len(),
                forall|j: int| 0 <= j < i ==> !self.records().dom().contains(#[trigger] arms@[j]),
            decreases arms@.len() - i,
        {
            let ghost before = *self;
            proof {
                pre.table.lemma_dom_finite();
                assert(self.records().dom().subset_of(pre.records().dom()));
                vstd::set_lib::lemma_len_subset::<PromiseId>(
                    self.records().dom(),
                    pre.records().dom(),
                );
            }
            self.discard_down(arms[i]);
            proof {
                lemma_discard_core_trans(pre, before, *self);
                assert(arms_scoped(pre, *self, arms@)) by {
                    assert forall|j: PromiseId|
                        pre.records().dom().contains(j) && !(
                        #[trigger] self.records().dom().contains(j)) implies arms@.contains(j)
                        || exists|p: PromiseId|
                        #![auto]
                        pre.records().dom().contains(p) && !self.records().dom().contains(p)
                            && body_links_to(pre.records()[p].body, j) by {
                        if !before.records().dom().contains(j) {
                            if !arms@.contains(j) {
                                let p = choose|p: PromiseId|
                                    #![auto]
                                    pre.records().dom().contains(p)
                                        && !before.records().dom().contains(p) && body_links_to(
                                        pre.records()[p].body,
                                        j,
                                    );
                                if self.records().dom().contains(p) {
                                    assert(before.records().dom().contains(p));
                                }
                                assert(pre.records().dom().contains(p)
                                    && !self.records().dom().contains(p) && body_links_to(
                                    pre.records()[p].body,
                                    j,
                                ));
                            }
                        } else {
                            if j == arms@[i as int] {
                                assert(arms@.contains(j));
                            } else {
                                let p = choose|p: PromiseId|
                                    #![auto]
                                    before.records().dom().contains(p)
                                        && !self.records().dom().contains(p) && body_links_to(
                                        before.records()[p].body,
                                        j,
                                    );
                                assert(before.records()[p] == pre.records()[p]);
                                assert(pre.records().dom().contains(p)
                                    && !self.records().dom().contains(p) && body_links_to(
                                    pre.records()[p].body,
                                    j,
                                ));
                            }
                        }
                    }
                }
                assert(discard_frame(pre, *self)) by {
                    assert forall|j: PromiseId|
                        pre.records().dom().contains(j) && !(
                        #[trigger] self.records().dom().contains(j)) implies children_gone(
                        pre.records()[j].body,
                        *self,
                    ) by {
                        if before.records().dom().contains(j) {
                            assert(before.records()[j] == pre.records()[j]);
                        } else {
                            assert(children_gone(pre.records()[j].body, before));
                            match pre.records()[j].body {
                                Body::AnyOwner(aa) => {
                                    assert forall|x: int|
                                        0 <= x < aa@.len() implies !self.records().dom().contains(
                                        #[trigger] aa@[x],
                                    ) by {
                                        if self.records().dom().contains(aa@[x]) {
                                            assert(before.records().dom().contains(aa@[x]));
                                        }
                                    }
                                },
                                Body::AllOwner(aa, _) => {
                                    assert forall|x: int|
                                        0 <= x < aa@.len() implies !self.records().dom().contains(
                                        #[trigger] aa@[x],
                                    ) by {
                                        if self.records().dom().contains(aa@[x]) {
                                            assert(before.records().dom().contains(aa@[x]));
                                        }
                                    }
                                },
                                Body::Waiting(c) => {
                                    if self.records().dom().contains(c) {
                                        assert(before.records().dom().contains(c));
                                    }
                                },
                                Body::LoopWait(c, _) => {
                                    if self.records().dom().contains(c) {
                                        assert(before.records().dom().contains(c));
                                    }
                                },
                                _ => {},
                            }
                        }
                    }
                }
                assert forall|j: int|
                    0 <= j < i + 1 implies !self.records().dom().contains(#[trigger] arms@[j]) by {
                    if j < i {
                        if self.records().dom().contains(arms@[j]) {
                            assert(before.records().dom().contains(arms@[j]));
                        }
                    }
                }
            }
            i = i + 1;
        }
    }
}

/// The settle event a delivered outcome writes.
pub open spec fn spec_settle_event(id: PromiseId, res: Result<Val, Val>, st: Val) -> Event {
    match res {
        Ok(v) => Event::Resolved(id, v, st),
        Err(e) => Event::Rejected(id, e, st),
    }
}

/// A fault was reported and nothing else happened.
pub open spec fn faulted<F: Continuation<M>, M: Transform>(
    pre: Engine<F, M>,
    post: Engine<F, M>,
    id: PromiseId,
    k: Fault,
) -> bool {
    &&& post.records() == pre.records()
    &&& post.events() == pre.events().push(Event::Fault(id, k))
    &&& post.queue() == pre.queue()
    &&& post.lane() == pre.lane()
    &&& post.next_serial() == pre.next_serial()
}

/// The settlement of `id` was written down and its record removed; nothing
/// else happened yet.
pub open spec fn settled_base<F: Continuation<M>, M: Transform>(
    pre: Engine<F, M>,
    post: Engine<F, M>,
    id: PromiseId,
    res: Result<Val, Val>,
    st: Val,
) -> bool {
    &&& post.records() == pre.records().remove(id)
    &&& post.events() == pre.events().push(spec_settle_event(id, res, st))
    &&& post.queue() == pre.queue()
    &&& post.lane() == pre.lane()
    &&& post.next_serial() == pre.next_serial()
}

/// A settlement for `o` was queued; nothing else happened.
pub open spec fn routed<F: Continuation<M>, M: Transform>(
    pre: Engine<F, M>,
    post: Engine<F, M>,
    o: PromiseId,
    res: Result<Val, Val>,
    st: Val,
) -> bool {
    &&& post.records() == pre.records()
    &&& post.events() == pre.events()
    &&& post.queue() == pre.queue().push(Task::Settle(o, res, st))
    &&& post.lane() == pre.lane()
    &&& post.next_serial() == pre.next_serial()
}

/// An invocation for `o` was queued; nothing else happened.
pub open spec fn invoke_queued<F: Continuation<M>, M: Transform>(
    pre: Engine<F, M>,
    post: Engine<F, M>,
    o: PromiseId,
) -> bool {
    &&& post.records() == pre.records()
    &&& post.events() == pre.events()
    &&& post.queue() == pre.queue().push(Task::Invoke(o))
    &&& post.lane() == pre.lane()
    &&& post.next_serial() == pre.next_serial()
}

/// The pending record `o` was given a new body; nothing else happened.
pub open spec fn body_set<F: Continuation<M>, M: Transform>(
    pre: Engine<F, M>,
    post: Engine<F, M>,
    o: PromiseId,
    b: Body<F>,
) -> bool {
    &&& pre.records().dom().contains(o)
    &&& post.records() == pre.records().insert(
        o,
        Record { handler: pre.records()[o].handler, body: b },
    )
    &&& post.events() == pre.events()
    &&& post.queue() == pre.queue()
    &&& post.lane() == pre.lane()
    &&& post.next_serial() == pre.next_serial()
}

/// Whether the lane can issue identifiers for the whole tree `p`.
pub open spec fn fits<F: Continuation<M>, M: Transform>(e: Engine<F, M>, p: Promise<F, M>) -> bool {
    &&& spec_size(p) < u64::MAX
    &&& e.next_serial() + spec_size(p) <= u64::MAX
    &&& spec_size(p) <= usize::MAX
}

/// A nested promise `q` was registered beneath the pending record `o`:
/// its settlement will be forwarded to `o`, and `o` now waits on it — or,
/// if `o` is gone or the tree cannot be issued identifiers, a fault was
/// reported and `q` was dropped.
pub open spec fn wait_forward_post<F: Continuation<M>, M: Transform>(
    pre: Engine<F, M>,
    post: Engine<F, M>,
    o: PromiseId,
    q: Promise<F, M>,
) -> bool {
    if !pre.records().dom().contains(o) {
        faulted(pre, post, o, Fault::MissingRecord)
    } else if !fits(pre, q) {
        faulted(pre, post, o, Fault::Exhausted)
    } else {
        exists|b: Engine<F, M>, child: PromiseId|
            #![auto]
            reg_post(pre, b, q, Handler::<F, M>::Forward(o), child) && body_set(
                b,
                post,
                o,
                Body::Waiting(child),
            )
    }
}

/// As `wait_forward_post`, but for a loop: the nested settlement re-enters
/// the loop body `f`, and the loop record remembers `f` while it waits.
pub open spec fn wait_loop_post<F: Continuation<M>, M: Transform>(
    pre: Engine<F, M>,
    post: Engine<F, M>,
    o: PromiseId,
    q: Promise<F, M>,
    f: F,
) -> bool {
    if !pre.records().dom().contains(o) {
        faulted(pre, post, o, Fault::MissingRecord)
    } else if !fits(pre, q) {
        faulted(pre, post, o, Fault::Exhausted)
    } else {
        exists|b: Engine<F, M>, child: PromiseId|
            #![auto]
            reg_post(pre, b, q, Handler::<F, M>::LoopBack(o), child) && body_set(
                b,
                post,
                o,
                Body::LoopWait(child, f),
            )
    }
}

impl<F, M> Engine<F, M> where F: Continuation<M>, M: Transform {
    /// Report an internal error on the log.
    fn fault(&mut self, id: PromiseId, k: Fault)
        requires
            old(self).wf(),
        ensures
            final(self).wf(),
            faulted(*old(self), *final(self), id, k),
    {
        broadcast use {lemma_settle_count_push, lemma_registered_push};

        self.log.push(Event::Fault(id, k));
        proof {
            assert(self.records() == old(self).records());
            assert(self.events() == old(self).events().push(Event::Fault(id, k)));
            assert(self.wf());
        }
    }

    /// Queue the settlement of `o`.
    fn route(&mut self, o: PromiseId, res: Result<Val, Val>, st: Val)
        requires
            old(self).wf(),
        ensures
            final(self).wf(),
            routed(*old(self), *final(self), o, res, st),
    {
        self.tasks.push(Task::Settle(o, res, st));
        proof {
            assert(self.records() == old(self).records());
            assert(self.events() == old(self).events());
            assert(self.wf());
        }
    }

    /// Give the pending record `o` a new body.
    fn set_body(&mut self, o: PromiseId, b: Body<F>)
        requires
            old(self).wf(),
            old(self).records().dom().contains(o),
        ensures
            final(self).wf(),
            body_set(*old(self), *final(self), o, b),
    {
        let rec = self.table.remove(o);
        match rec {
            Some(rec) => {
                self.table.insert(o, Record { handler: rec.handler, body: b });
            },
            None => {
                proof {
                    assert(false);
                }
            },
        }
        proof {
            assert(self.records() =~= old(self).records().insert(
                o,
                Record { handler: old(self).records()[o].handler, body: b },
            ));
            assert(self.events() == old(self).events());
            assert(self.wf());
        }
    }

    /// Register `q` beneath the pending record `o`, forwarding its
    /// settlement to `o`.
    fn wait_forward(&mut self, o: PromiseId, q: Promise<F, M>)
        requires
            old(self).wf(),
        ensures
            final(self).wf(),
            wait_forward_post(*old(self), *final(self), o, q),
    {
        let ghost pre = *old(self);
        if !self.table.contains(o) {
            self.fault(o, Fault::MissingRecord);
            return ;
        }
        let n = tree_size(&q);
        if n == u64::MAX || self.next > u64::MAX - n || n > (usize::MAX as u64) {
            proof {
                assert(!fits(pre, q));
            }
            self.fault(o, Fault::Exhausted);
            return ;
        }
        proof {
            assert(fits(pre, q));
        }
        let child = self.reg(q, Handler::Forward(o));
        let ghost b = *self;
        proof {
            assert(self.records().dom().contains(o));
        }
        self.set_body(o, Body::Waiting(child));
        proof {
            assert(reg_post(pre, b, q, Handler::<F, M>::Forward(o), child));
            assert(wait_forward_post(pre, *self, o, q));
        }
    }

    /// Register `q` beneath the pending loop record `o`, feeding its
    /// settlement back into the loop body `f`.
    fn wait_loop(&mut self, o: PromiseId, q: Promise<F, M>, f: F)
        requires
            old(self).wf(),
        ensures
            final(self).wf(),
            wait_loop_post(*old(self), *final(self), o, q, f),
    {
        let ghost pre = *old(self);
        if !self.table.contains(o) {
            self.fault(o, Fault::MissingRecord);
            return ;
        }
        let n = tree_size(&q);
        if n == u64::MAX || self.next > u64::MAX - n || n > (usize::MAX as u64) {
            proof {
                assert(!fits(pre, q));
            }
            self.fault(o, Fault::Exhausted);
            return ;
        }
        proof {
            assert(fits(pre, q));
        }
        let child = self.reg(q, Handler::LoopBack(o));
        let ghost b = *self;
        proof {
            assert(self.records().dom().contains(o));
        }
        self.set_body(o, Body::LoopWait(child, f));
        proof {
            assert(reg_post(pre, b, q, Handler::<F, M>::LoopBack(o), child));
            assert(wait_loop_post(pre, *self, o, q, f));
        }
    }
}

/// What a success-payload transform does to an outcome.
pub open spec fn spec_map_ok<M: Transform>(m: M, res: Result<Val, Val>) -> Result<Val, Val> {
    match res {
        Ok(v) => Ok(m.spec_apply(v)),
        Err(e) => Err(e),
    }
}

/// What a failure-payload transform does to an outcome.
pub open spec fn spec_map_err<M: Transform>(m: M, res: Result<Val, Val>) -> Result<Val, Val> {
    match res {
        Ok(v) => Ok(v),
        Err(e) => Err(m.spec_apply(e)),
    }
}

/// How a continuation body's outcome is acted on when it stands between a
/// settled record and the record `o` above it.
pub open spec fn then_tail<F: Continuation<M>, M: Transform>(
    b: Engine<F, M>,
    post: Engine<F, M>,
    o: PromiseId,
    out: Outcome<F, M>,
) -> bool {
    match out {
        Outcome::Settle(r2, s2) => routed(b, post, o, r2, s2),
        Outcome::Wait(q) => wait_forward_post(b, post, o, q),
        Outcome::Next(_) => faulted(b, post, o, Fault::ContinueOutsideLoop),
    }
}

/// How a `catch` body's outcome is acted on: a new rejection is a
/// misconfiguration — it is reported and the chain above stalls.
pub open spec fn catch_tail<F: Continuation<M>, M: Transform>(
    b: Engine<F, M>,
    post: Engine<F, M>,
    id: PromiseId,
    o: PromiseId,
    out: Outcome<F, M>,
) -> bool {
    match out {
        Outcome::Settle(r2, s2) => match r2 {
            Ok(_) => routed(b, post, o, r2, s2),
            Err(_) => faulted(b, post, id, Fault::CatchRejected),
        },
        Outcome::Wait(q) => wait_forward_post(b, post, o, q),
        Outcome::Next(_) => faulted(b, post, o, Fault::ContinueOutsideLoop),
    }
}

/// The events the orphan rule writes: the missed-reject warning, the
/// record's external cleanup if it had any, and the discard notice.
pub open spec fn orphan_events<F>(id: PromiseId, b: Body<F>) -> Seq<Event> {
    let cancel = match b {
        Body::External(k, ar) => seq![Event::TaskCancelled(id, k, ar)],
        _ => Seq::empty(),
    };
    seq![Event::Fault(id, Fault::MissedReject)] + cancel + seq![Event::Discarded(id)]
}

/// The orphan rule's first phase: the rejected record is discarded rather
/// than handled, because it only had a success handler.
pub open spec fn orphan_base<F: Continuation<M>, M: Transform>(
    a: Engine<F, M>,
    m: Engine<F, M>,
    id: PromiseId,
    b: Body<F>,
) -> bool {
    &&& m.records() == a.records().remove(id)
    &&& m.events() == a.events() + orphan_events(id, b)
    &&& m.queue() == a.queue()
    &&& m.lane() == a.lane()
    &&& m.next_serial() == a.next_serial()
}

/// How a winning arm settles a first-one-wins group: the owner goes idle,
/// every sibling arm is discarded, and the owner is resolved with the
/// winner's state and outcome.
pub open spec fn any_arm_tail<F: Continuation<M>, M: Transform>(
    b: Engine<F, M>,
    post: Engine<F, M>,
    o: PromiseId,
    res: Result<Val, Val>,
    st: Val,
) -> bool {
    if !b.records().dom().contains(o) {
        faulted(b, post, o, Fault::MissingRecord)
    } else {
        match b.records()[o].body {
            Body::AnyOwner(arms) => any_owner_tail(b, post, o, res, st, arms),
            _ => faulted(b, post, o, Fault::Misconfigured),
        }
    }
}

/// The winning branch of `any_arm_tail`, for a group over `arms`.
pub open spec fn any_owner_tail<F: Continuation<M>, M: Transform>(
    b: Engine<F, M>,
    post: Engine<F, M>,
    o: PromiseId,
    res: Result<Val, Val>,
    st: Val,
    arms: Vec<PromiseId>,
) -> bool {
    exists|m1: Engine<F, M>, m2: Engine<F, M>|
        #![auto]
        body_set(b, m1, o, Body::Idle) && discard_frame(m1, m2) && arms_scoped(m1, m2, arms@) && (
        forall|x: int|
            0 <= x < arms@.len() ==> !m2.records().dom().contains(#[trigger] arms@[x])) && routed(
            m2,
            post,
            o,
            Ok(Val::Pair(Box::new(st), Box::new(spec_outcome_val(res)))),
            Val::Unit,
        )
}

/// How an arm settles an all-must-settle group: its outcome fills its slot,
/// and when the last slot fills the owner is resolved with the outcomes in
/// arm order.
pub open spec fn all_arm_tail<F: Continuation<M>, M: Transform>(
    b: Engine<F, M>,
    post: Engine<F, M>,
    o: PromiseId,
    i: usize,
    res: Result<Val, Val>,
) -> bool {
    if !b.records().dom().contains(o) {
        faulted(b, post, o, Fault::MissingRecord)
    } else {
        match b.records()[o].body {
            Body::AllOwner(arms, slots) => {
                if i >= slots@.len() || !(slots@[i as int] is None) {
                    faulted(b, post, o, Fault::Misconfigured)
                } else {
                    let slots2 = slots@.update(i as int, Some(spec_outcome_val(res)));
                    if spec_slots_full(slots2) {
                        exists|m: Engine<F, M>|
                            #![auto]
                            body_set(b, m, o, Body::Idle) && routed(
                                m,
                                post,
                                o,
                                Ok(spec_slots_list(slots2)),
                                Val::Unit,
                            )
                    } else {
                        exists|sv: Vec<Option<Val>>|
                            #![auto]
                            sv@ == slots2 && body_set(b, post, o, Body::AllOwner(arms, sv))
                    }
                }
            },
            _ => faulted(b, post, o, Fault::Misconfigured),
        }
    }
}

/// How a loop acts on its body's outcome.
pub open spec fn loop_step_post<F: Continuation<M>, M: Transform>(
    b: Engine<F, M>,
    post: Engine<F, M>,
    o: PromiseId,
    f: F,
    out: Outcome<F, M>,
) -> bool {
    match out {
        Outcome::Next(s2) => exists|m: Engine<F, M>|
            #![auto]
            body_set(b, m, o, Body::Looping(s2, f)) && invoke_queued(m, post, o),
        Outcome::Settle(r2, s2) => exists|m: Engine<F, M>|
            #![auto]
            body_set(b, m, o, Body::Idle) && routed(m, post, o, r2, s2),
        Outcome::Wait(q) => exists|m: Engine<F, M>|
            #![auto]
            body_set(b, m, o, Body::Idle) && wait_loop_post(m, post, o, q, f),
    }
}

/// How a nested settlement re-enters its loop.
pub open spec fn loopback_tail<F: Continuation<M>, M: Transform>(
    b: Engine<F, M>,
    post: Engine<F, M>,
    o: PromiseId,
    res: Result<Val, Val>,
    st: Val,
) -> bool {
    if !b.records().dom().contains(o) {
        faulted(b, post, o, Fault::MissingRecord)
    } else {
        match b.records()[o].body {
            Body::LoopWait(_, f) => loop_step_post(b, post, o, f, f.spec_call(st, res)),
            _ => faulted(b, post, o, Fault::Misconfigured),
        }
    }
}

/// Everything delivering one settlement can do, by the settled record's
/// handler.
pub open spec fn settle_post<F: Continuation<M>, M: Transform>(
    a: Engine<F, M>,
    post: Engine<F, M>,
    id: PromiseId,
    res: Result<Val, Val>,
    st: Val,
) -> bool {
    if !a.records().dom().contains(id) {
        faulted(a, post, id, Fault::MissingRecord)
    } else {
        let rec = a.records()[id];
        match rec.handler {
            Handler::Drop => exists|b: Engine<F, M>|
                #![auto]
                settled_base(a, b, id, res, st) && post == b,
            Handler::Forward(o) => exists|b: Engine<F, M>|
                #![auto]
                settled_base(a, b, id, res, st) && routed(b, post, o, res, st),
            Handler::MapOk(m, o) => exists|b: Engine<F, M>|
                #![auto]
                settled_base(a, b, id, res, st) && routed(b, post, o, spec_map_ok(m, res), st),
            Handler::MapErr(m, o) => exists|b: Engine<F, M>|
                #![auto]
                settled_base(a, b, id, res, st) && routed(b, post, o, spec_map_err(m, res), st),
            Handler::MapState(m, o) => exists|b: Engine<F, M>|
                #![auto]
                settled_base(a, b, id, res, st) && routed(b, post, o, res, m.spec_apply(st)),
            Handler::Then(f, o) => exists|b: Engine<F, M>|
                #![auto]
                settled_base(a, b, id, res, st) && then_tail(b, post, o, f.spec_call(st, res)),
            Handler::ThenOk(f, o) => match res {
                Ok(_) => exists|b: Engine<F, M>|
                    #![auto]
                    settled_base(a, b, id, res, st) && then_tail(b, post, o, f.spec_call(st, res)),
                Err(_) => exists|m: Engine<F, M>|
                    #![auto]
                    orphan_base(a, m, id, rec.body) && discard_frame(m, post)
                        && !post.records().dom().contains(o),
            },
            Handler::Catch(f, o) => match res {
                Ok(_) => exists|b: Engine<F, M>|
                    #![auto]
                    settled_base(a, b, id, res, st) && routed(b, post, o, res, st),
                Err(_) => exists|b: Engine<F, M>|
                    #![auto]
                    settled_base(a, b, id, res, st) && catch_tail(
                        b,
                        post,
                        id,
                        o,
                        f.spec_call(st, res),
                    ),
            },
            Handler::ArmAny(o, _) => exists|b: Engine<F, M>|
                #![auto]
                settled_base(a, b, id, res, st) && any_arm_tail(b, post, o, res, st),
            Handler::ArmAll(o, i) => exists|b: Engine<F, M>|
                #![auto]
                settled_base(a, b, id, res, st) && all_arm_tail(b, post, o, i, res),
            Handler::LoopBack(o) => exists|b: Engine<F, M>|
                #![auto]
                settled_base(a, b, id, res, st) && loopback_tail(b, post, o, res, st),
        }
    }
}

impl<F, M> Engine<F, M> where F: Continuation<M>, M: Transform {
    /// Write the settle event for `id` on the log.
    fn push_settled(&mut self, id: PromiseId, res: &Result<Val, Val>, st: &Val)
        ensures
            final(self).events() == old(self).events().push(spec_settle_event(id, *res, *st)),
            final(self).records() == old(self).records(),
            final(self).queue() == old(self).queue(),
            final(self).lane() == old(self).lane(),
            final(self).next_serial() == old(self).next_serial(),
            final(self).store_ok() == old(self).store_ok(),
    {
        match res {
            Ok(v) => {
                let ev = Event::Resolved(id, v.clone(), st.clone());
                self.log.push(ev);
            },
            Err(e) => {
                let ev = Event::Rejected(id, e.clone(), st.clone());
                self.log.push(ev);
            },
        }
        proof {
            assert(self.records() == old(self).records());
            assert(self.table == old(self).table);
        }
    }

    /// After the settlement of a pending record is written down and its
    /// record removed, the invariant holds again.
    proof fn lemma_settled_wf(a: Engine<F, M>, b: Engine<F, M>, id: PromiseId, res: Result<
        Val,
        Val,
    >, st: Val)
        requires
            a.wf(),
            a.records().dom().contains(id),
            b.store_ok(),
            settled_base(a, b, id, res, st),
        ensures
            b.wf(),
    {
        broadcast use {lemma_settle_count_push, lemma_registered_push};

        let ev = spec_settle_event(id, res, st);
        assert(is_settle_event(ev, id));
        assert forall|j: PromiseId| j != id implies !is_settle_event(ev, j) by {}
        assert forall|j: PromiseId| #[trigger]
            b.records().dom().contains(j) implies is_registered(b.events(), j) && settle_count(
            b.events(),
            j,
        ) == 0 by {
            assert(a.records().dom().contains(j));
            assert(settle_count(b.events(), j) == settle_count(a.events(), j));
        }
        assert forall|j: PromiseId| #[trigger]
            is_registered(b.events(), j) && !b.records().dom().contains(j) implies settle_count(
            b.events(),
            j,
        ) == 1 by {
            assert(is_registered(a.events(), j));
            if j == id {
                assert(settle_count(a.events(), j) == 0);
            } else {
                assert(!a.records().dom().contains(j));
            }
        }
    }

    /// Deliver one settlement: run the removed record's handler.
    fn do_settle(&mut self, id: PromiseId, res: Result<Val, Val>, st: Val)
        requires
            old(self).wf(),
        ensures
            final(self).wf(),
            settle_post(*old(self), *final(self), id, res, st),
    {
        broadcast use {lemma_settle_count_push, lemma_registered_push};

        let ghost a = *old(self);
        let rec = match self.table.remove(id) {
            None => {
                self.fault(id, Fault::MissingRecord);
                return ;
            },
            Some(rec) => rec,
        };
        match rec.handler {
            Handler::Drop => {
                self.push_settled(id, &res, &st);
                proof {
                    let b = *self;
                    assert(settled_base(a, b, id, res, st));
                    Self::lemma_settled_wf(a, b, id, res, st);
                    assert(settle_post(a, *self, id, res, st));
                }
            },
            Handler::Forward(o) => {
                self.push_settled(id, &res, &st);
                let ghost b = *self;
                proof {
                    assert(settled_base(a, b, id, res, st));
                    Self::lemma_settled_wf(a, b, id, res, st);
                }
                self.route(o, res, st);
                proof {
                    assert(settle_post(a, *self, id, res, st));
                }
            },
            Handler::MapOk(m, o) => {
                self.push_settled(id, &res, &st);
                let ghost b = *self;
                proof {
                    assert(settled_base(a, b, id, res, st));
                    Self::lemma_settled_wf(a, b, id, res, st);
                }
                match res {
                    Ok(v) => {
                        let v2 = m.apply(v);
                        self.route(o, Ok(v2), st);
                    },
                    Err(e) => {
                        self.route(o, Err(e), st);
                    },
                }
                proof {
                    assert(settle_post(a, *self, id, res, st));
                }
            },
            Handler::MapErr(m, o) => {
                self.push_settled(id, &res, &st);
                let ghost b = *self;
                proof {
                    assert(settled_base(a, b, id, res, st));
                    Self::lemma_settled_wf(a, b, id, res, st);
                }
                match res {
                    Ok(v) => {
                        self.route(o, Ok(v), st);
                    },
                    Err(e) => {
                        let e2 = m.apply(e);
                        self.route(o, Err(e2), st);
                    },
                }
                proof {
                    assert(settle_post(a, *self, id, res, st));
                }
            },
            Handler::MapState(m, o) => {
                self.push_settled(id, &res, &st);
                let ghost b = *self;
                proof {
                    assert(settled_base(a, b, id, res, st));
                    Self::lemma_settled_wf(a, b, id, res, st);
                }
                let st2 = m.apply(st);
                self.route(o, res, st2);
                proof {
                    assert(settle_post(a, *self, id, res, st));
                }
            },
            Handler::Then(f, o) => {
                self.push_settled(id, &res, &st);
                let ghost b = *self;
                proof {
                    assert(settled_base(a, b, id, res, st));
                    Self::lemma_settled_wf(a, b, id, res, st);
                }
                let out = f.call(st, res);
                self.run_then_tail(o, out);
                proof {
                    assert(settle_post(a, *self, id, res, st));
                }
            },
            Handler::ThenOk(f, o) => {
                match &res {
                    Ok(_) => {
                        self.push_settled(id, &res, &st);
                        let ghost b = *self;
                        proof {
                            assert(settled_base(a, b, id, res, st));
                            Self::lemma_settled_wf(a, b, id, res, st);
                        }
                        let out = f.call(st, res);
                        self.run_then_tail(o, out);
                        proof {
                            assert(settle_post(a, *self, id, res, st));
                        }
                    },
                    Err(_) => {
                        self.log.push(Event::Fault(id, Fault::MissedReject));
                        match &rec.body {
                            Body::External(k, ar) => {
                                let (k, ar) = (*k, *ar);
                                self.log.push(Event::TaskCancelled(id, k, ar));
                            },
                            _ => {},
                        }
                        self.log.push(Event::Discarded(id));
                        let ghost m = *self;
                        proof {
                            assert(m.events() =~= a.events() + orphan_events(id, rec.body));
                            assert(orphan_base(a, m, id, rec.body));
                            lemma_settle_count_add(a.events(), orphan_events(id, rec.body), id);
                            assert(m.wf()) by {
                                assert forall|j: PromiseId|
                                    true implies #[trigger] settle_count(m.events(), j)
                                    == settle_count(a.events(), j) + (if j == id {
                                    1nat
                                } else {
                                    0nat
                                }) by {
                                    lemma_settle_count_add(
                                        a.events(),
                                        orphan_events(id, rec.body),
                                        j,
                                    );
                                    lemma_orphan_events_count(id, rec.body, j);
                                }
                                assert forall|j: PromiseId|
                                    true implies (#[trigger] is_registered(m.events(), j)
                                    <==> is_registered(a.events(), j)) by {
                                    lemma_registered_add(
                                        a.events(),
                                        orphan_events(id, rec.body),
                                        j,
                                    );
                                    lemma_orphan_events_no_reg(id, rec.body, j);
                                }
                            }
                        }
                        self.discard_down(o);
                        proof {
                            assert(settle_post(a, *self, id, res, st));
                        }
                    },
                }
            },
            Handler::Catch(f, o) => {
                self.push_settled(id, &res, &st);
                let ghost b = *self;
                proof {
                    assert(settled_base(a, b, id, res, st));
                    Self::lemma_settled_wf(a, b, id, res, st);
                }
                match res {
                    Ok(v) => {
                        self.route(o, Ok(v), st);
                    },
                    Err(e) => {
                        let out = f.call(st, Err(e));
                        match out {
                            Outcome::Settle(r2, s2) => match r2 {
                                Ok(v2) => {
                                    self.route(o, Ok(v2), s2);
                                },
                                Err(_) => {
                                    self.fault(id, Fault::CatchRejected);
                                },
                            },
                            Outcome::Wait(q) => {
                                self.wait_forward(o, q);
                            },
                            Outcome::Next(_) => {
                                self.fault(o, Fault::ContinueOutsideLoop);
                            },
                        }
                    },
                }
                proof {
                    assert(settle_post(a, *self, id, res, st));
                }
            },
            Handler::ArmAny(o, _) => {
                self.push_settled(id, &res, &st);
                let ghost b = *self;
                proof {
                    assert(settled_base(a, b, id, res, st));
                    Self::lemma_settled_wf(a, b, id, res, st);
                }
                if !self.table.contains(o) {
                    self.fault(o, Fault::MissingRecord);
                    proof {
                        assert(settle_post(a, *self, id, res, st));
                    }
                    return ;
                }
                let orec = match self.table.remove(o) {
                    Some(r) => r,
                    None => {
                        proof {
                            assert(false);
                        }
                        return ;
                    },
                };
                match orec.body {
                    Body::AnyOwner(arms) => {
                        self.table.insert(o, Record { handler: orec.handler, body: Body::Idle });
                        let ghost m1 = *self;
                        proof {
                            assert(m1.records() =~= b.records().insert(
                                o,
                                Record { handler: b.records()[o].handler, body: Body::Idle },
                            ));
                            assert(body_set(b, m1, o, Body::Idle));
                            assert(m1.wf());
                        }
                        self.discard_arms(arms);
                        let ghost m2 = *self;
                        let win = Val::Pair(Box::new(st), Box::new(outcome_val(res)));
                        self.route(o, Ok(win), Val::Unit);
                        proof {
                            assert(any_arm_tail(b, *self, o, res, st));
                            assert(settle_post(a, *self, id, res, st));
                        }
                    },
                    other => {
                        self.table.insert(o, Record { handler: orec.handler, body: other });
                        proof {
                            assert(self.records() =~= b.records());
                        }
                        self.fault(o, Fault::Misconfigured);
                        proof {
                            assert(faulted(b, *self, o, Fault::Misconfigured));
                            assert(settle_post(a, *self, id, res, st));
                        }
                    },
                }
            },
            Handler::ArmAll(o, i) => {
                self.push_settled(id, &res, &st);
                let ghost b = *self;
                proof {
                    assert(settled_base(a, b, id, res, st));
                    Self::lemma_settled_wf(a, b, id, res, st);
                }
                if !self.table.contains(o) {
                    self.fault(o, Fault::MissingRecord);
                    proof {
                        assert(settle_post(a, *self, id, res, st));
                    }
                    return ;
                }
                let orec = match self.table.remove(o) {
                    Some(r) => r,
                    None => {
                        proof {
                            assert(false);
                        }
                        return ;
                    },
                };
                match orec.body {
                    Body::AllOwner(arms, slots) => {
                        if i >= slots.len() || slots[i].is_some() {
                            self.table.insert(
                                o,
                                Record { handler: orec.handler, body: Body::AllOwner(arms, slots) },
                            );
                            proof {
                                assert(self.records() =~= b.records());
                            }
                            self.fault(o, Fault::Misconfigured);
                            proof {
                                assert(settle_post(a, *self, id, res, st));
                            }
                            return ;
                        }
                        let mut slots = slots;
                        slots.remove(i);
                        slots.insert(i, Some(outcome_val(res)));
                        let ghost slots2 = slots@;
                        proof {
                            assert(slots2 =~= old_slots_of(b, o).update(
                                i as int,
                                Some(spec_outcome_val(res)),
                            ));
                        }
                        if all_slots_full(&slots) {
                            self.table.insert(
                                o,
                                Record { handler: orec.handler, body: Body::Idle },
                            );
                            let ghost m = *self;
                            proof {
                                assert(m.records() =~= b.records().insert(
                                    o,
                                    Record { handler: b.records()[o].handler, body: Body::Idle },
                                ));
                                assert(body_set(b, m, o, Body::Idle));
                                assert(m.wf());
                            }
                            let v = crate::val::collect_slots(slots);
                            self.route(o, Ok(v), Val::Unit);
                            proof {
                                assert(all_arm_tail(b, *self, o, i, res));
                                assert(settle_post(a, *self, id, res, st));
                            }
                        } else {
                            self.table.insert(
                                o,
                                Record { handler: orec.handler, body: Body::AllOwner(arms, slots) },
                            );
                            proof {
                                assert(self.records() =~= b.records().insert(
                                    o,
                                    Record {
                                        handler: b.records()[o].handler,
                                        body: self.records()[o].body,
                                    },
                                ));
                                assert(self.wf());
                                assert(all_arm_tail(b, *self, o, i, res));
                                assert(settle_post(a, *self, id, res, st));
                            }
                        }
                    },
                    other => {
                        self.table.insert(o, Record { handler: orec.handler, body: other });
                        proof {
                            assert(self.records() =~= b.records());
                        }
                        self.fault(o, Fault::Misconfigured);
                        proof {
                            assert(settle_post(a, *self, id, res, st));
                        }
                    },
                }
            },
            Handler::LoopBack(o) => {
                self.push_settled(id, &res, &st);
                let ghost b = *self;
                proof {
                    assert(settled_base(a, b, id, res, st));
                    Self::lemma_settled_wf(a, b, id, res, st);
                }
                if !self.table.contains(o) {
                    self.fault(o, Fault::MissingRecord);
                    proof {
                        assert(settle_post(a, *self, id, res, st));
                    }
                    return ;
                }
                let orec = match self.table.remove(o) {
                    Some(r) => r,
                    None => {
                        proof {
                            assert(false);
                        }
                        return ;
                    },
                };
                match orec.body {
                    Body::LoopWait(_, f) => {
                        let out = f.call(st, res);
                        self.run_loop_tail(o, orec.handler, f, out, Ghost(b));
                        proof {
                            assert(settle_post(a, *self, id, res, st));
                        }
                    },
                    other => {
                        self.table.insert(o, Record { handler: orec.handler, body: other });
                        proof {
                            assert(self.records() =~= b.records());
                        }
                        self.fault(o, Fault::Misconfigured);
                        proof {
                            assert(settle_post(a, *self, id, res, st));
                        }
                    },
                }
            },
        }
    }

    /// Act on a continuation body's outcome between a settled record and
    /// `o`.
    fn run_then_tail(&mut self, o: PromiseId, out: Outcome<F, M>)
        requires
            old(self).wf(),
        ensures
            final(self).wf(),
            then_tail(*old(self), *final(self), o, out),
    {
        match out {
            Outcome::Settle(r2, s2) => {
                self.route(o, r2, s2);
            },
            Outcome::Wait(q) => {
                self.wait_forward(o, q);
            },
            Outcome::Next(_) => {
                self.fault(o, Fault::ContinueOutsideLoop);
            },
        }
    }

    /// Act on a loop body's outcome.  The loop record `o` has been taken out
    /// with handler `h`; `ghost_b` is the engine as it stood with the record
    /// still in place.
    fn run_loop_tail(
        &mut self,
        o: PromiseId,
        h: Handler<F, M>,
        f: F,
        out: Outcome<F, M>,
        ghost_b: Ghost<Engine<F, M>>,
    )
        requires
            ghost_b@.wf(),
            ghost_b@.records().dom().contains(o),
            h == ghost_b@.records()[o].handler,
            old(self).records() == ghost_b@.records().remove(o),
            old(self).events() == ghost_b@.events(),
            old(self).queue() == ghost_b@.queue(),
            old(self).lane() == ghost_b@.lane(),
            old(self).next_serial() == ghost_b@.next_serial(),
            old(self).store_ok(),
        ensures
            final(self).wf(),
            loop_step_post(ghost_b@, *final(self), o, f, out),
    {
        let ghost b = ghost_b@;
        match out {
            Outcome::Next(s2) => {
                self.table.insert(o, Record { handler: h, body: Body::Looping(s2, f) });
                let ghost m = *self;
                proof {
                    assert(m.records() =~= b.records().insert(
                        o,
                        Record { handler: b.records()[o].handler, body: m.records()[o].body },
                    ));
                    assert(m.wf());
                }
                self.tasks.push(Task::Invoke(o));
                proof {
                    assert(self.records() == m.records());
                    assert(self.events() == m.events());
                    assert(self.wf());
                    assert(invoke_queued(m, *self, o));
                }
            },
            Outcome::Settle(r2, s2) => {
                self.table.insert(o, Record { handler: h, body: Body::Idle });
                let ghost m = *self;
                proof {
                    assert(m.records() =~= b.records().insert(
                        o,
                        Record { handler: b.records()[o].handler, body: Body::Idle },
                    ));
                    assert(m.wf());
                    assert(body_set(b, m, o, Body::Idle));
                }
                self.route(o, r2, s2);
                proof {
                    assert(body_set(b, m, o, Body::Idle) && routed(m, *self, o, r2, s2));
                }
            },
            Outcome::Wait(q) => {
                self.table.insert(o, Record { handler: h, body: Body::Idle });
                let ghost m = *self;
                proof {
                    assert(m.records() =~= b.records().insert(
                        o,
                        Record { handler: b.records()[o].handler, body: Body::Idle },
                    ));
                    assert(m.wf());
                    assert(body_set(b, m, o, Body::Idle));
                }
                self.wait_loop(o, q, f);
                proof {
                    assert(body_set(b, m, o, Body::Idle) && wait_loop_post(m, *self, o, q, f));
                }
            },
        }
    }
}

/// The slot vector of an all-group owner, before an update.
pub open spec fn old_slots_of<F: Continuation<M>, M: Transform>(b: Engine<F, M>, o: PromiseId) -> Seq<
    Option<Val>,
> {
    match b.records()[o].body {
        Body::AllOwner(_, slots) => slots@,
        _ => Seq::empty(),
    }
}

/// The orphan-rule events settle only the orphaned record, once.
proof fn lemma_orphan_events_count<F>(id: PromiseId, b: Body<F>, j: PromiseId)
    ensures
        settle_count(orphan_events::<F>(id, b), j) == (if j == id {
            1nat
        } else {
            0nat
        }),
{
    let evs = orphan_events::<F>(id, b);
    assert forall|k: int| 0 <= k < evs.len() && k != evs.len() - 1 implies !is_settle_event(
        evs[k],
        j,
    ) by {}
    lemma_count_by_cases(evs, j);
}

/// The orphan-rule events register nothing.
proof fn lemma_orphan_events_no_reg<F>(id: PromiseId, b: Body<F>, j: PromiseId)
    ensures
        !is_registered(orphan_events::<F>(id, b), j),
{
    let evs = orphan_events::<F>(id, b);
    assert forall|k: int| 0 <= k < evs.len() implies evs[k] != Event::Registered(j) by {}
}

/// Counting helper: a settle count is the number of settle events.
proof fn lemma_count_by_cases(evs: Seq<Event>, j: PromiseId)
    requires
        forall|k: int| 0 <= k < evs.len() - 1 ==> !is_settle_event(#[trigger] evs[k], j),
    ensures
        settle_count(evs, j) == (if evs.len() > 0 && is_settle_event(evs.last(), j) {
            1nat
        } else {
            0nat
        }),
    decreases evs.len(),
{
    if evs.len() > 0 {
        lemma_count_zero(evs.drop_last(), j);
    }
}

/// A run of non-settling events counts zero.
proof fn lemma_count_zero(evs: Seq<Event>, j: PromiseId)
    requires
        forall|k: int| 0 <= k < evs.len() ==> !is_settle_event(#[trigger] evs[k], j),
    ensures
        settle_count(evs, j) == 0,
    decreases evs.len(),
{
    if evs.len() > 0 {
        lemma_count_zero(evs.drop_last(), j);
    }
}

/// Checks whether every aggregation slot is filled.
fn all_slots_full(slots: &Vec<Option<Val>>) -> (b: bool)
    ensures
        b == spec_slots_full(slots@),
{
    let mut i: usize = 0;
    while i < slots.len()
        invariant
            i <= slots@.len(),
            forall|k: int| 0 <= k < i ==> (#[trigger] slots@[k]) is Some,
        decreases slots@.len() - i,
    {
        if slots[i].is_none() {
            return false;
        }
        i = i + 1;
    }
    true
}

/// The number of nodes of a promise tree, saturating at `u64::MAX`.
fn tree_size<F: Continuation<M>, M: Transform>(p: &Promise<F, M>) -> (n: u64)
    ensures
        n < u64::MAX ==> n == spec_size(*p),
        n == u64::MAX ==> spec_size(*p) >= u64::MAX,
    decreases spec_size(*p), 0nat,
{
    match p {
        Promise::External(_, _) => 1,
        Promise::Ready(_, _) => 1,
        Promise::Start(_, _) => 1,
        Promise::Loop(_, _) => 1,
        Promise::Chain(inner, _) => {
            let m = tree_size(inner);
            if m == u64::MAX {
                u64::MAX
            } else {
                1 + m
            }
        },
        Promise::Any(arms) => {
            let m = arms_size(arms);
            if m == u64::MAX {
                u64::MAX
            } else {
                1 + m
            }
        },
        Promise::All(arms) => {
            let m = arms_size(arms);
            if m == u64::MAX {
                u64::MAX
            } else {
                1 + m
            }
        },
    }
}

/// The number of nodes of a list of arms, saturating at `u64::MAX`.
fn arms_size<F: Continuation<M>, M: Transform>(arms: &Arms<F, M>) -> (n: u64)
    ensures
        n < u64::MAX ==> n == spec_arms_size(*arms),
        n == u64::MAX ==> spec_arms_size(*arms) >= u64::MAX,
    decreases spec_arms_size(*arms), 1nat,
{
    match arms {
        Arms::Nil => 0,
        Arms::Cons(head, tail) => {
            let a = tree_size(head);
            let b = arms_size(tail);
            if a == u64::MAX || b == u64::MAX || a > u64::MAX - b {
                u64::MAX
            } else {
                a + b
            }
        },
    }
}

/// How a one-shot starter acts on its body's outcome.
pub open spec fn start_tail<F: Continuation<M>, M: Transform>(
    m: Engine<F, M>,
    post: Engine<F, M>,
    id: PromiseId,
    out: Outcome<F, M>,
) -> bool {
    match out {
        Outcome::Settle(r2, s2) => routed(m, post, id, r2, s2),
        Outcome::Wait(q) => wait_forward_post(m, post, id, q),
        Outcome::Next(_) => faulted(m, post, id, Fault::ContinueOutsideLoop),
    }
}

/// Everything running one stored body can do.
pub open spec fn invoke_post<F: Continuation<M>, M: Transform>(
    a: Engine<F, M>,
    post: Engine<F, M>,
    id: PromiseId,
) -> bool {
    if !a.records().dom().contains(id) {
        faulted(a, post, id, Fault::MissingRecord)
    } else {
        match a.records()[id].body {
            Body::Starting(s0, f) => exists|m: Engine<F, M>|
                #![auto]
                body_set(a, m, id, Body::Idle) && start_tail(
                    m,
                    post,
                    id,
                    f.spec_call(s0, Ok(Val::Unit)),
                ),
            Body::Looping(s0, f) => loop_step_post(a, post, id, f, f.spec_call(s0, Ok(Val::Unit))),
            _ => faulted(a, post, id, Fault::Misconfigured),
        }
    }
}

impl<F, M> Engine<F, M> where F: Continuation<M>, M: Transform {
    /// Run the stored body of a started or looping record.
    fn do_invoke(&mut self, id: PromiseId)
        requires
            old(self).wf(),
        ensures
            final(self).wf(),
            invoke_post(*old(self), *final(self), id),
    {
        let ghost a = *old(self);
        let rec = match self.table.remove(id) {
            None => {
                self.fault(id, Fault::MissingRecord);
                return ;
            },
            Some(rec) => rec,
        };
        match rec.body {
            Body::Starting(s0, f) => {
                self.table.insert(id, Record { handler: rec.handler, body: Body::Idle });
                let ghost m = *self;
                proof {
                    assert(m.records() =~= a.records().insert(
                        id,
                        Record { handler: a.records()[id].handler, body: Body::Idle },
                    ));
                    assert(m.wf());
                    assert(body_set(a, m, id, Body::Idle));
                }
                let out = f.call(s0, Ok(Val::Unit));
                match out {
                    Outcome::Settle(r2, s2) => {
                        self.route(id, r2, s2);
                    },
                    Outcome::Wait(q) => {
                        self.wait_forward(id, q);
                    },
                    Outcome::Next(_) => {
                        self.fault(id, Fault::ContinueOutsideLoop);
                    },
                }
                proof {
                    assert(body_set(a, m, id, Body::Idle) && start_tail(
                        m,
                        *self,
                        id,
                        f.spec_call(s0, Ok(Val::Unit)),
                    ));
                    assert(invoke_post(a, *self, id));
                }
            },
            Body::Looping(s0, f) => {
                let out = f.call(s0, Ok(Val::Unit));
                self.run_loop_tail(id, rec.handler, f, out, Ghost(a));
                proof {
                    assert(invoke_post(a, *self, id));
                }
            },
            other => {
                self.table.insert(id, Record { handler: rec.handler, body: other });
                proof {
                    assert(self.records() =~= a.records());
                }
                self.fault(id, Fault::Misconfigured);
                proof {
                    assert(invoke_post(a, *self, id));
                }
            },
        }
    }
}

/// Everything one `step` call does: nothing if the task queue is empty,
/// else the oldest task is taken off and processed.
pub open spec fn step_post<F: Continuation<M>, M: Transform>(
    pre: Engine<F, M>,
    post: Engine<F, M>,
) -> bool {
    if pre.queue().len() == 0 {
        post == pre
    } else {
        exists|a: Engine<F, M>|
            #![auto]
            popped(pre, a) && match pre.queue()[0] {
                Task::Invoke(id) => invoke_post(a, post, id),
                Task::Settle(id, res, st) => settle_post(a, post, id, res, st),
            }
    }
}

/// Whether `post` is what `pre` becomes after exactly `n` steps.
pub open spec fn steps_between<F: Continuation<M>, M: Transform>(
    pre: Engine<F, M>,
    post: Engine<F, M>,
    n: nat,
) -> bool
    decreases n,
{
    if n == 0 {
        post == pre
    } else {
        exists|mid: Engine<F, M>|
            #![auto]
            step_post(pre, mid) && steps_between(mid, post, (n - 1) as nat)
    }
}

/// A step taken after a run of steps extends the run.
pub proof fn lemma_steps_between_extend<F: Continuation<M>, M: Transform>(
    a: Engine<F, M>,
    b: Engine<F, M>,
    c: Engine<F, M>,
    n: nat,
)
    requires
        steps_between(a, b, n),
        step_post(b, c),
    ensures
        steps_between(a, c, n + 1),
    decreases n,
{
    if n == 0 {
        assert(steps_between(b, c, 1)) by {
            assert(step_post(b, c) && steps_between(c, c, 0));
        }
    } else {
        let mid = choose|mid: Engine<F, M>|
            #![auto]
            step_post(a, mid) && steps_between(mid, b, (n - 1) as nat);
        lemma_steps_between_extend(mid, b, c, (n - 1) as nat);
        assert(step_post(a, mid) && steps_between(mid, c, n));
    }
}

/// The engine with the oldest task taken off and nothing else changed.
pub open spec fn popped<F: Continuation<M>, M: Transform>(
    pre: Engine<F, M>,
    a: Engine<F, M>,
) -> bool {
    &&& a.records() == pre.records()
    &&& a.events() == pre.events()
    &&& a.queue() == pre.queue().skip(1)
    &&& a.lane() == pre.lane()
    &&& a.next_serial() == pre.next_serial()
}

impl<F, M> Engine<F, M> where F: Continuation<M>, M: Transform {
    /// Process one queued micro-task, and say whether work remains.  This is
    /// the engine's only moment of progress: the host calls it as often as
    /// it is willing to spend, so an endless loop burns the host's budget,
    /// never the engine's own.
    pub fn step(&mut self) -> (more: bool)
        requires
            old(self).wf(),
        ensures
            final(self).wf(),
            step_post(*old(self), *final(self)),
            more == (final(self).queue().len() > 0),
    {
        if self.tasks.len() == 0 {
            return false;
        }
        let t = self.tasks.remove(0);
        let ghost a = *self;
        proof {
            assert(a.queue() =~= old(self).queue().skip(1));
            assert(popped(*old(self), a));
            assert(a.wf());
        }
        match t {
            Task::Invoke(id) => {
                self.do_invoke(id);
            },
            Task::Settle(id, res, st) => {
                self.do_settle(id, res, st);
            },
        }
        proof {
            assert(step_post(*old(self), *final(self)));
        }
        self.tasks.len() > 0
    }

    /// Call `step` until the engine is quiescent or `budget` steps have been
    /// spent; the number of steps left is returned.  The outcome is exactly
    /// what that many machine steps produce: a full budget means exactly
    /// `budget` steps were taken, and an early stop means the steps taken so
    /// far drained the queue.
    pub fn run(&mut self, budget: u64) -> (left: u64)
        requires
            old(self).wf(),
        ensures
            final(self).wf(),
            left <= budget,
            left > 0 ==> final(self).queue().len() == 0,
            left == 0 ==> steps_between(*old(self), *final(self), budget as nat),
            left > 0 ==> steps_between(*old(self), *final(self), (budget - left + 1) as nat),
    {
        let mut left: u64 = budget;
        let ghost mut taken: nat = 0nat;
        proof {
            assert(steps_between(*old(self), *self, 0nat));
        }
        while left > 0
            invariant
                self.wf(),
                left <= budget,
                taken + left == budget,
                steps_between(*old(self), *self, taken),
            decreases left,
        {
            let ghost before = *self;
            if !self.step() {
                proof {
                    lemma_steps_between_extend(*old(self), before, *self, taken);
                }
                return left;
            }
            proof {
                lemma_steps_between_extend(*old(self), before, *self, taken);
                taken = taken + 1;
            }
            left = left - 1;
        }
        left
    }
}

/// Turn a chain link into its runtime handler.
fn link_handler<F: Continuation<M>, M: Transform>(link: Link<F, M>, to: PromiseId) -> (h: Handler<
    F,
    M,
>)
    ensures
        h == spec_link_handler(link, to),
{
    match link {
        Link::Then(f) => Handler::Then(f, to),
        Link::ThenOk(f) => Handler::ThenOk(f, to),
        Link::Catch(f) => Handler::Catch(f, to),
        Link::MapOk(m) => Handler::MapOk(m, to),
        Link::MapErr(m) => Handler::MapErr(m, to),
        Link::MapState(m) => Handler::MapState(m, to),
    }
}

} // verus!
