//! A supervisor at work: its processes, driven by a plan.
use crate::conduct::{lemma_done_starting, lemma_possible_so_far};
use crate::error::{failure_result, reports, ProcResult, SupervisorError};
use crate::history::{
    ended, exits, first_failure, law_each_process_ends_once, law_first_failure_is_returned,
    law_plan_stays_wf, law_returns_after_every_exit, law_starts_when_first_woken,
    law_what_makes_it_stop, law_work_runs_out, lemma_first_events, lemma_one_more, lemma_starts,
    possible, replay, shutdown_came, starts,
};
use crate::plan::{Action, Event, Plan, PlanView, Stage};
use crate::proc::{BoxedProc, ManagedFuture};
use crate::signal::ShutdownSignal;
use crate::trusted::{
    below, cancel_token, created_after, derived_from, made_by_new, new_token, poll_future,
    token_cancelled, token_lineage,
};
use core::future::Future;
use core::pin::Pin;
use core::task::{Context, Poll};
use futures::task::FutureObj;
use tokio_util::sync::CancellationToken;
use vstd::future::FutureAdditionalSpecFns;
use vstd::prelude::*;

verus! {

/// Whether `polled` is what came of polling the future once: its output, or
/// the future as it goes on.
pub closed spec fn asked<T>(
    future: FutureObj<'static, T>,
    polled: Result<T, FutureObj<'static, T>>,
) -> bool {
    exists|cx: &mut Context<'_>| #[trigger] call_ensures(poll_future::<T>, (future, cx), polled)
}

/// A started process, with the token that tells it to stop.
#[verifier::reject_recursive_types(E)]
pub struct CancelableLocalFuture<E> {
    /// Cancelling this token triggers the signal that the process listens to.
    pub cancel_token: CancellationToken,
    /// The process at work.
    pub future: ManagedFuture<E>,
}

impl<E> CancelableLocalFuture<E> {
    /// Polls the process once, with the given context, and hands on what that
    /// brings. The token plays no part in it. A process that was ready is gone.
    fn poll(self, cx: &mut Context<'_>) -> (polled: Result<ProcResult<E>, Self>)
        ensures
            exists|context: &mut Context<'_>, brought: Result<ProcResult<E>, ManagedFuture<E>>|
                {
                    &&& #[trigger] call_ensures(
                        poll_future::<ProcResult<E>>,
                        (self.future, context),
                        brought,
                    )
                    &&& *context == *old(cx)
                    &&& *final(context) == *final(cx)
                    &&& match brought {
                        Ok(result) => polled == Result::<ProcResult<E>, Self>::Ok(result),
                        Err(future) => polled == Result::<ProcResult<E>, Self>::Err(
                            (CancelableLocalFuture { cancel_token: self.cancel_token, future }),
                        ),
                    }
                },
            polled matches Ok(result) ==> asked(self.future, Ok(result)),
            polled matches Err(rest) ==> {
                &&& asked(self.future, Err(rest.future))
                &&& rest.cancel_token == self.cancel_token
            },
    {
        let CancelableLocalFuture { cancel_token, future } = self;
        let context = &mut *cx;
        match poll_future(future, context) {
            Ok(result) => Ok(result),
            Err(future) => Err(CancelableLocalFuture { cancel_token, future }),
        }
    }

    /// Tells the process to stop.
    fn stop(&mut self)
        requires
            made_by_new(old(self).cancel_token),
        ensures
            token_cancelled(final(self).cancel_token),
            made_by_new(final(self).cancel_token),
            token_lineage(final(self).cancel_token) == token_lineage(old(self).cancel_token),
            final(self).future == old(self).future,
    {
        cancel_token(&mut self.cancel_token);
    }
}

/// A registered process, as far as it has come.
#[verifier::reject_recursive_types(E)]
pub enum Slot<E> {
    /// It has not been started.
    Waiting(BoxedProc<E>),
    /// It was started and has not ended.
    Started(CancelableLocalFuture<E>),
    /// It has ended.
    Ended,
}

/// What makes a supervision end early.
pub enum Shutdown {
    /// The signal that the supervisor itself was started with.
    Signal(ShutdownSignal),
    /// Any other future.
    Future(FutureObj<'static, ()>),
    /// A future that was ready: the shutdown has come.
    Heard,
}

impl Shutdown {
    /// Whether the shutdown is known to have been requested.
    pub open spec fn known(self) -> bool {
        match self {
            Shutdown::Signal(signal) => token_cancelled(signal.source()) || signal.fired(),
            Shutdown::Future(_) => false,
            Shutdown::Heard => true,
        }
    }

    /// Whether the shutdown has been polled for once, which found it `ready` or
    /// not and left `after`.
    pub open spec fn polls_to(self, after: Self, ready: bool) -> bool {
        match (self, after) {
            (Shutdown::Signal(before), Shutdown::Signal(signal)) => before.polls_to(
                signal,
                if ready {
                    Poll::Ready(())
                } else {
                    Poll::Pending
                },
            ),
            (Shutdown::Future(future), Shutdown::Heard) => ready && asked(future, Ok(())),
            (Shutdown::Future(future), Shutdown::Future(rest)) => !ready && asked(
                future,
                Err(rest),
            ),
            (Shutdown::Heard, Shutdown::Heard) => ready,
            _ => false,
        }
    }

    /// Polls for the shutdown. Whether a future that is not a signal is ready
    /// depends on whoever wrote it.
    fn poll(self, cx: &mut Context<'_>) -> (polled: (bool, Self))
        ensures
            self.polls_to(polled.1, polled.0),
            self.known() ==> polled.0,
            polled.0 ==> polled.1.known(),
    {
        match self {
            Shutdown::Signal(signal) => {
                let mut signal = signal;
                let polled = signal.poll_signal(cx);
                match polled {
                    Poll::Ready(unit) => {
                        assert(unit == ());
                        (true, Shutdown::Signal(signal))
                    },
                    Poll::Pending => (false, Shutdown::Signal(signal)),
                }
            },
            Shutdown::Future(future) => match poll_future(future, cx) {
                Ok(unit) => {
                    assert(unit == ());
                    (true, Shutdown::Heard)
                },
                Err(rest) => (false, Shutdown::Future(rest)),
            },
            Shutdown::Heard => (true, Shutdown::Heard),
        }
    }
}

/// What a supervision holds at one time.
#[verifier::reject_recursive_types(E)]
#[verifier::ext_equal]
pub struct Snapshot<E> {
    /// The processes, by number.
    pub slots: Seq<Slot<E>>,
    /// What makes the supervision end early.
    pub shutdown: Shutdown,
}

/// Whether `started` is the process `proc`, started with a signal that listens
/// to a child of the token kept with it. That token is the very handle that
/// was made for the process, and not known to be cancelled; since the library
/// cancels through such handles only, it has not been cancelled when the
/// process is started, nor has the signal.
pub open spec fn started_from<E>(started: CancelableLocalFuture<E>, proc: BoxedProc<E>) -> bool {
    &&& token_lineage(started.cancel_token).len() == 1
    &&& made_by_new(started.cancel_token)
    &&& !token_cancelled(started.cancel_token)
    &&& exists|signal: ShutdownSignal|
        {
            &&& derived_from(signal.source(), started.cancel_token)
            &&& !token_cancelled(signal.source())
            &&& !signal.listening()
            &&& !signal.fired()
            &&& #[trigger] proc.starts(signal, started.future)
        }
}

/// Whether the token was created after those of all processes that were
/// started, so when these had been started.
pub open spec fn created_last<E>(token: CancellationToken, slots: Seq<Slot<E>>) -> bool {
    forall|i: int|
        0 <= i < slots.len() && #[trigger] slots[i] is Started ==> created_after(
            token,
            slots[i]->Started_0.cancel_token,
        )
}

/// Whether the event came of the action and led from one snapshot to the
/// other: what was to be started, polled or told to stop was, and everything
/// else that the supervision holds is as before. That goes for the tokens of
/// the other processes: each is still the handle that was made for its process,
/// and knows of no more cancellations.
pub open spec fn happens<E>(
    action: Action,
    before: Snapshot<E>,
    event: Event<E>,
    after: Snapshot<E>,
) -> bool {
    match (action, event) {
        (Action::Rest, Event::Woken) => after == before,
        (Action::Start(number), Event::Started) => {
            &&& before.slots[number as int] matches Slot::Waiting(proc)
            &&& after.slots[number as int] matches Slot::Started(started)
            &&& started_from(started, proc)
            &&& created_last(started.cancel_token, before.slots)
            &&& after.slots == before.slots.update(number as int, Slot::Started(started))
            &&& after.shutdown == before.shutdown
        },
        (Action::PollShutdown, Event::Shutdown(ready)) => {
            &&& before.shutdown.polls_to(after.shutdown, ready)
            &&& after.slots == before.slots
        },
        (Action::Cancel(number), Event::Cancelled) => {
            &&& before.slots[number as int] matches Slot::Started(running)
            &&& after.slots[number as int] matches Slot::Started(told)
            &&& token_cancelled(told.cancel_token)
            &&& made_by_new(told.cancel_token)
            &&& token_lineage(told.cancel_token) == token_lineage(running.cancel_token)
            &&& told.future == running.future
            &&& after.slots == before.slots.update(number as int, Slot::Started(told))
            &&& after.shutdown == before.shutdown
        },
        (Action::PollProc(number), Event::Polled(Poll::Pending)) => {
            &&& before.slots[number as int] matches Slot::Started(running)
            &&& after.slots[number as int] matches Slot::Started(rest)
            &&& asked(running.future, Err(rest.future))
            &&& rest.cancel_token == running.cancel_token
            &&& after.slots == before.slots.update(number as int, Slot::Started(rest))
            &&& after.shutdown == before.shutdown
        },
        (Action::PollProc(number), Event::Polled(Poll::Ready(result))) => {
            &&& before.slots[number as int] matches Slot::Started(running)
            &&& asked(running.future, Ok(result))
            &&& after.slots == before.slots.update(number as int, Slot::Ended)
            &&& after.shutdown == before.shutdown
        },
        _ => false,
    }
}

/// Whether the events came about one after the other, each of what the plan
/// said was to be done next, and led from each snapshot to the next one.
pub open spec fn came_about<E>(
    count: nat,
    events: Seq<Event<E>>,
    snapshots: Seq<Snapshot<E>>,
) -> bool
    decreases events.len(),
{
    &&& snapshots.len() == events.len() + 1
    &&& events.len() > 0 ==> {
        &&& came_about(count, events.drop_last(), snapshots.drop_last())
        &&& happens(
            replay(count, events.drop_last()).next(),
            snapshots[events.len() - 1],
            events.last(),
            snapshots.last(),
        )
    }
}

/// Every single event of a history came of what was to be done at its time.
pub proof fn law_every_event_came_about<E>(
    count: nat,
    events: Seq<Event<E>>,
    snapshots: Seq<Snapshot<E>>,
    k: int,
)
    requires
        came_about(count, events, snapshots),
        0 <= k < events.len(),
    ensures
        happens(replay(count, events.take(k)).next(), snapshots[k], events[k], snapshots[k + 1]),
    decreases events.len(),
{
    let earlier = events.drop_last();
    if k < earlier.len() {
        law_every_event_came_about(count, earlier, snapshots.drop_last(), k);
        assert(earlier.take(k) == events.take(k));
    } else {
        assert(events.take(k) == earlier);
    }
}

proof fn lemma_one_more_snapshot<E>(
    count: nat,
    events: Seq<Event<E>>,
    snapshots: Seq<Snapshot<E>>,
    event: Event<E>,
    snapshot: Snapshot<E>,
)
    requires
        came_about(count, events, snapshots),
        happens(replay(count, events).next(), snapshots.last(), event, snapshot),
    ensures
        came_about(count, events.push(event), snapshots.push(snapshot)),
{
    assert(events.push(event).drop_last() == events);
    assert(snapshots.push(snapshot).drop_last() == snapshots);
}

/// Whether the process of this number waits, runs or has ended as the plan has
/// it, and its token is known to be cancelled if it is the process's turn to
/// stop, and not otherwise. That the handle which was made for the process
/// does not know of a cancellation means that the library has not cancelled
/// its node.
spec fn slot_fits<E>(slot: Slot<E>, number: int, plan: PlanView<E>) -> bool {
    match slot {
        Slot::Waiting(_) => plan.starting() && number >= plan.running.len(),
        Slot::Started(started) => {
            &&& plan.running.contains(number as usize)
            &&& token_lineage(started.cancel_token).len() == 1
            &&& made_by_new(started.cancel_token)
            &&& token_cancelled(started.cancel_token) <==> plan.asked() && number
                == plan.running.last()
        },
        Slot::Ended => !plan.starting() && !plan.running.contains(number as usize),
    }
}

/// Whether the slots agree with the plan, and each token was created after
/// those of the processes registered earlier.
spec fn slots_fit<E>(slots: Seq<Slot<E>>, plan: PlanView<E>) -> bool {
    &&& slots.len() == plan.count
    &&& forall|i: int| 0 <= i < slots.len() ==> slot_fits(#[trigger] slots[i], i, plan)
    &&& forall|i: int, j: int|
        0 <= i < j < slots.len() && #[trigger] slots[i] is Started && #[trigger] slots[j] is Started
            ==> created_after(slots[j]->Started_0.cancel_token, slots[i]->Started_0.cancel_token)
}

/// The processes of a supervisor, with the plan that says what to do about
/// them.
#[verifier::reject_recursive_types(E)]
pub struct Supervision<E> {
    slots: Vec<Slot<E>>,
    shutdown: Shutdown,
    plan: Plan<E>,
    history: Ghost<Seq<Event<E>>>,
    snapshots: Ghost<Seq<Snapshot<E>>>,
}

impl<E> Supervision<E> {
    /// Everything that has come back from the outside so far.
    pub closed spec fn history(self) -> Seq<Event<E>> {
        self.history@
    }

    /// What the supervision held at the beginning and after each event.
    pub closed spec fn snapshots(self) -> Seq<Snapshot<E>> {
        self.snapshots@
    }

    /// What the supervision holds now.
    pub closed spec fn snapshot(self) -> Snapshot<E> {
        Snapshot { slots: self.slots@, shutdown: self.shutdown }
    }

    /// How many processes are registered.
    pub open spec fn count(self) -> nat {
        self.snapshot().slots.len()
    }

    /// The process of this number, as far as it has come.
    pub open spec fn slot(self, number: usize) -> Slot<E> {
        self.snapshot().slots[number as int]
    }

    /// What makes the supervision end early.
    pub open spec fn shutdown(self) -> Shutdown {
        self.snapshot().shutdown
    }

    /// The registered processes, in order, as they were before they were
    /// started.
    pub open spec fn registered(self) -> Seq<BoxedProc<E>> {
        self.snapshots()[0].slots.map_values(|slot: Slot<E>| slot->Waiting_0)
    }

    /// Where the plan stands.
    pub open spec fn plan(self) -> PlanView<E> {
        replay(self.count(), self.history())
    }

    /// The processes that have ended, first to last, each with its result.
    pub open spec fn exits(self) -> Seq<(usize, ProcResult<E>)> {
        exits(self.count(), self.history())
    }

    /// Whether there is anything left to supervise: processes that run, or
    /// that have not been started.
    pub open spec fn busy(self) -> bool {
        self.plan().running.len() > 0 || (self.plan().starting() && self.count() > 0)
    }

    /// Whether the records are in order: the history is one that came about,
    /// from all processes waiting, and the plan is the one that it leads to.
    spec fn on_record(self) -> bool {
        &&& self.count() <= usize::MAX
        &&& possible(self.count(), self.history())
        &&& came_about(self.count(), self.history(), self.snapshots())
        &&& self.plan@ == self.plan()
        &&& self.snapshots()[0].slots.len() == self.count()
        &&& forall|i: int|
            0 <= i < self.count() ==> #[trigger] self.snapshots()[0].slots[i] is Waiting
    }

    /// What a supervision always keeps to: its records are in order, what it
    /// holds agrees with them, and if the shutdown came, it is known to have
    /// been requested.
    pub closed spec fn wf(self) -> bool {
        &&& self.on_record()
        &&& self.snapshots().last() == self.snapshot()
        &&& slots_fit(self.slots@, self.plan())
        &&& shutdown_came(self.history()) ==> self.shutdown().known()
    }

    /// Every history of a supervision is one that its plan allows, so that all
    /// laws about such histories hold of it, and it really came about: each
    /// event is what came of starting, polling or stopping what was to be. A
    /// process waits until it is started, and is held until it has ended. The
    /// token of a process, the very handle that was made for it, is known to be
    /// cancelled if and only if the process's turn to stop has come. Since the
    /// library cancels through such handles only, it has told no other process
    /// to stop. If the shutdown came, it is known to have
    /// been requested.
    pub proof fn law_keeps_to_plan(self)
        requires
            self.wf(),
        ensures
            self.count() <= usize::MAX,
            possible(self.count(), self.history()),
            came_about(self.count(), self.history(), self.snapshots()),
            self.snapshots().last() == self.snapshot(),
            self.registered().len() == self.count(),
            forall|i: int|
                0 <= i < self.count() ==> #[trigger] self.snapshots()[0].slots[i] is Waiting,
            forall|number: usize|
                number < self.count() ==> match #[trigger] self.slot(number) {
                    Slot::Waiting(_) => number >= starts(self.count(), self.history()).len(),
                    Slot::Started(started) => {
                        &&& number < starts(self.count(), self.history()).len()
                        &&& !ended(self.count(), self.history(), number)
                        &&& made_by_new(started.cancel_token)
                        &&& token_cancelled(started.cancel_token) <==> self.plan().asked()
                            && number == self.plan().running.last()
                    },
                    Slot::Ended => ended(self.count(), self.history(), number),
                },
            shutdown_came(self.history()) ==> self.shutdown().known(),
    {
        law_each_process_ends_once(self.count(), self.history());
        law_plan_stays_wf(self.count(), self.history());
        lemma_starts(self.count(), self.history());
        assert forall|number: usize| number < self.count() implies match #[trigger] self.slot(
            number,
        ) {
            Slot::Waiting(_) => number >= starts(self.count(), self.history()).len(),
            Slot::Started(started) => {
                &&& number < starts(self.count(), self.history()).len()
                &&& !ended(self.count(), self.history(), number)
                &&& made_by_new(started.cancel_token)
                &&& token_cancelled(started.cancel_token) <==> self.plan().asked() && number
                    == self.plan().running.last()
            },
            Slot::Ended => ended(self.count(), self.history(), number),
        } by {
            assert(self.slots@[number as int] == self.slot(number));
        }
    }

    /// Each process that runs has a token of its own: none of them is the
    /// token of another or derived from it, and they were created in the order
    /// of registration.
    pub proof fn law_tokens_are_apart(self, earlier: usize, later: usize)
        requires
            self.wf(),
            earlier < later < self.count(),
            self.slot(earlier) is Started,
            self.slot(later) is Started,
        ensures
            ({
                let first = self.slot(earlier)->Started_0.cancel_token;
                let second = self.slot(later)->Started_0.cancel_token;
                &&& created_after(second, first)
                &&& token_lineage(first) != token_lineage(second)
                &&& !derived_from(first, second)
                &&& !derived_from(second, first)
                &&& forall|child: CancellationToken|
                    !(#[trigger] derived_from(child, first) && derived_from(child, second))
            }),
    {
        assert(self.slots@[earlier as int] is Started);
        assert(self.slots@[later as int] is Started);
    }

    /// The signals of different processes are apart: the node of each lies
    /// below that of the token kept with its own process, and below no other
    /// kept token; and neither a kept token nor the signal of another process
    /// lies below it. `one` and `two` are the tokens that the signals listen
    /// to.
    pub proof fn law_signals_are_apart(
        self,
        first: usize,
        second: usize,
        one: CancellationToken,
        two: CancellationToken,
    )
        requires
            self.wf(),
            first < self.count(),
            second < self.count(),
            first != second,
            self.slot(first) is Started,
            self.slot(second) is Started,
            derived_from(one, self.slot(first)->Started_0.cancel_token),
            derived_from(two, self.slot(second)->Started_0.cancel_token),
        ensures
            ({
                let kept = self.slot(first)->Started_0.cancel_token;
                let other = self.slot(second)->Started_0.cancel_token;
                &&& below(one, kept)
                &&& !below(two, kept)
                &&& !below(other, kept)
                &&& !below(kept, one)
                &&& !below(other, one)
                &&& !below(two, one)
            }),
    {
        if first < second {
            self.law_tokens_are_apart(first, second);
        } else {
            self.law_tokens_are_apart(second, first);
        }
        let kept = token_lineage(self.slot(first)->Started_0.cancel_token);
        let other = token_lineage(self.slot(second)->Started_0.cancel_token);
        assert(self.slots@[first as int] is Started);
        assert(self.slots@[second as int] is Started);
        assert(kept[0] != other[0]);
        assert(token_lineage(one) == kept.push(token_lineage(one).last()));
        assert(token_lineage(two) == other.push(token_lineage(two).last()));
    }

    /// When a supervision returns, every registered process has been started
    /// and has ended, and the result is the first failure that one of them
    /// ended with, or success if there was none.
    pub proof fn law_result(self)
        requires
            self.wf(),
            self.plan().next() is Return,
        ensures
            self.plan().result() == failure_result(first_failure(self.exits())),
            starts(self.count(), self.history()).len() == self.count(),
            self.exits().len() == self.count(),
            forall|number: usize|
                number < self.count() ==> #[trigger] ended(self.count(), self.history(), number),
    {
        law_first_failure_is_returned(self.count(), self.history());
        law_returns_after_every_exit(self.count(), self.history());
    }

    /// A supervision of the processes, which ends early when `shutdown` is
    /// ready. No process is started yet.
    pub fn new(procs: Vec<BoxedProc<E>>, shutdown: Shutdown) -> (supervision: Self)
        ensures
            supervision.wf(),
            supervision.registered() == procs@,
            supervision.count() == procs@.len(),
            supervision.history() == Seq::<Event<E>>::empty(),
            supervision.shutdown() == shutdown,
    {
        let count = procs.len();
        let mut slots: Vec<Slot<E>> = Vec::new();
        for proc in iter: procs
            invariant
                iter.seq() == procs@,
                slots@.len() == iter.index(),
                forall|i: int| 0 <= i < iter.index() ==> slots@[i] == Slot::Waiting(procs@[i]),
        {
            slots.push(Slot::Waiting(proc));
        }
        let plan: Plan<E> = Plan::new(count);
        let ghost first = Snapshot { slots: slots@, shutdown };
        let supervision = Supervision {
            slots,
            shutdown,
            plan,
            history: Ghost(Seq::empty()),
            snapshots: Ghost(Seq::empty().push(first)),
        };
        assert(supervision.registered() == procs@);
        supervision
    }

    /// Takes note of what came of an action.
    fn note(&mut self, event: Event<E>)
        requires
            old(self).on_record(),
            happens(
                old(self).plan().next(),
                old(self).snapshots().last(),
                event,
                old(self).snapshot(),
            ),
            slots_fit(old(self).slots@, old(self).plan().step(event)),
            shutdown_came(old(self).history().push(event)) ==> old(self).shutdown().known(),
        ensures
            final(self).wf(),
            final(self).history() == old(self).history().push(event),
            final(self).snapshots() == old(self).snapshots().push(old(self).snapshot()),
            final(self).slots == old(self).slots,
            final(self).shutdown == old(self).shutdown,
    {
        proof {
            law_plan_stays_wf(self.count(), self.history());
            lemma_one_more(self.count(), self.history(), event);
            lemma_one_more_snapshot(
                self.count(),
                self.history(),
                self.snapshots(),
                event,
                self.snapshot(),
            );
            self.snapshots@ = self.snapshots@.push(self.snapshot());
            self.history@ = self.history@.push(event);
        }
        self.plan.step(event);
    }

    /// Whether `later` is this supervision after more has come back from the
    /// outside: what came before stands.
    pub open spec fn leads_to(self, later: Self) -> bool {
        &&& later.wf()
        &&& later.count() == self.count()
        &&& later.registered() == self.registered()
        &&& self.history().is_prefix_of(later.history())
        &&& self.snapshots().is_prefix_of(later.snapshots())
    }

    /// Whether `later` is this supervision after it was woken once more.
    pub open spec fn wakes_to(self, later: Self) -> bool {
        &&& self.leads_to(later)
        &&& later.history().len() > self.history().len()
        &&& later.history()[self.history().len() as int] is Woken
        &&& forall|i: int|
            self.history().len() < i < later.history().len() ==> !(
            #[trigger] later.history()[i] is Woken)
    }

    /// Whether `later` is this supervision, woken once and driven on until
    /// there was nothing to do but wait. If the shutdown was known to have been requested, the
    /// processes are being stopped.
    pub open spec fn pauses_at(self, later: Self) -> bool {
        &&& self.wakes_to(later)
        &&& later.plan().next() is Rest
        &&& self.shutdown().known() && self.busy() ==> later.plan().stopping()
    }

    /// Whether `later` is this supervision, woken once and driven on until all
    /// processes had ended. If the shutdown was known to have been requested, the processes
    /// were stopped.
    pub open spec fn returns_at(self, later: Self) -> bool {
        &&& self.wakes_to(later)
        &&& later.plan().next() is Return
        &&& self.shutdown().known() && self.busy() ==> later.plan().stopping()
    }

    /// Starts the process whose turn it is, with a token of its own.
    fn start_proc(&mut self, number: usize)
        requires
            old(self).wf(),
            old(self).plan().next() == Action::Start(number),
        ensures
            old(self).leads_to(*final(self)),
            final(self).history() == old(self).history().push(Event::Started),
            final(self).shutdown() == old(self).shutdown(),
            old(self).slot(number) is Waiting,
            final(self).slot(number) is Started,
            started_from(final(self).slot(number)->Started_0, old(self).slot(number)->Waiting_0),
            forall|other: usize|
                other < old(self).count() && other != number ==> #[trigger] final(self).slot(other)
                    == old(self).slot(other),
    {
        proof {
            law_plan_stays_wf(self.count(), self.history());
            lemma_one_more(self.count(), self.history(), Event::Started);
            assert(!self.plan().running.contains(number));
            assert(self.slots@[number as int] is Waiting);
        }
        let mut held: Slot<E> = Slot::Ended;
        std::mem::swap(&mut held, &mut self.slots[number]);
        if let Slot::Waiting(proc) = held {
            let cancel_token = new_token(&self.slots);
            let shutdown = ShutdownSignal::new(cancel_token.child_token());
            let future = proc.start(shutdown);
            let started = CancelableLocalFuture { cancel_token, future };
            proof {
                assert(started_from(started, proc)) by {
                    assert(proc.starts(shutdown, started.future));
                }
                lemma_slots_fit_after_start(old(self).slots@, old(self).plan(), number, started);
            }
            self.slots[number] = Slot::Started(started);
            assert(self.slots@ == old(self).slots@.update(number as int, Slot::Started(started)));
        }
        self.note(Event::Started);
    }

    /// Starts all registered processes, in the order of their registration,
    /// each with a signal and a token of its own.
    fn start_futures(&mut self)
        requires
            old(self).wf(),
            old(self).plan().stage is Starting,
            old(self).plan().running.len() == 0,
        ensures
            old(self).leads_to(*final(self)),
            final(self).history() == old(self).history() + Seq::new(
                old(self).count(),
                |i: int| Event::Started,
            ),
            final(self).shutdown() == old(self).shutdown(),
            final(self).plan().stage is Watching,
            final(self).plan().running.len() == old(self).count(),
            forall|number: usize|
                number < old(self).count() ==> {
                    &&& old(self).slot(number) is Waiting
                    &&& #[trigger] final(self).slot(number) is Started
                    &&& started_from(
                        final(self).slot(number)->Started_0,
                        old(self).slot(number)->Waiting_0,
                    )
                },
            forall|earlier: usize, later: usize|
                earlier < later < old(self).count() ==> created_after(
                    (#[trigger] final(self).slot(later))->Started_0.cancel_token,
                    (#[trigger] final(self).slot(earlier))->Started_0.cancel_token,
                ),
    {
        let count = self.slots.len();
        let ghost events = Seq::new(count as nat, |i: int| Event::<E>::Started);
        assert(self.history() == self.history() + events.take(0));
        for number in 0..count
            invariant
                count == old(self).count(),
                events == Seq::new(count as nat, |i: int| Event::<E>::Started),
                old(self).leads_to(*self),
                self.history() == old(self).history() + events.take(number as int),
                self.shutdown() == old(self).shutdown(),
                self.plan().count == count,
                self.plan().running.len() == number,
                self.plan().stage == (if number < count {
                    Stage::Starting
                } else {
                    Stage::Watching
                }),
                forall|before: usize|
                    before < number ==> {
                        &&& old(self).slot(before) is Waiting
                        &&& #[trigger] self.slot(before) is Started
                        &&& started_from(
                            self.slot(before)->Started_0,
                            old(self).slot(before)->Waiting_0,
                        )
                    },
                forall|after: usize|
                    number <= after < count ==> #[trigger] self.slot(after) == old(self).slot(
                        after,
                    ),
        {
            proof {
                lemma_one_more(self.count(), self.history(), Event::Started);
                assert(events.take(number + 1) == events.take(number as int).push(Event::Started));
            }
            self.start_proc(number);
            assert(self.history() == old(self).history() + events.take(number + 1));
        }
        assert(events.take(count as int) == events);
        proof {
            assert forall|earlier: usize, later: usize|
                earlier < later < count implies created_after(
                (#[trigger] self.slot(later))->Started_0.cancel_token,
                (#[trigger] self.slot(earlier))->Started_0.cancel_token,
            ) by {
                assert(self.slots@[earlier as int] is Started);
                assert(self.slots@[later as int] is Started);
            }
        }
    }

    /// Polls the shutdown signal.
    fn poll_shutdown(&mut self, cx: &mut Context<'_>)
        requires
            old(self).wf(),
            old(self).plan().next() is PollShutdown,
        ensures
            old(self).leads_to(*final(self)),
            final(self).slots == old(self).slots,
            exists|ready: bool|
                {
                    &&& final(self).history() == #[trigger] old(self).history().push(
                        Event::Shutdown(ready),
                    )
                    &&& old(self).shutdown().polls_to(final(self).shutdown(), ready)
                },
            old(self).shutdown().known() ==> final(self).history().last() == Event::<
                E,
            >::Shutdown(true),
    {
        let mut held = Shutdown::Heard;
        std::mem::swap(&mut held, &mut self.shutdown);
        let (ready, shutdown) = held.poll(cx);
        self.shutdown = shutdown;
        proof {
            law_what_makes_it_stop(self.count(), self.history());
            lemma_one_more(self.count(), self.history(), Event::Shutdown(ready));
        }
        self.note(Event::Shutdown(ready));
    }

    /// Tells the process whose turn it is to stop.
    fn stop_proc(&mut self, number: usize)
        requires
            old(self).wf(),
            old(self).plan().next() == Action::Cancel(number),
        ensures
            old(self).leads_to(*final(self)),
            final(self).history() == old(self).history().push(Event::Cancelled),
            final(self).shutdown() == old(self).shutdown(),
            forall|other: usize|
                other < old(self).count() && other != number ==> #[trigger] final(self).slot(other)
                    == old(self).slot(other),
            final(self).slot(number) is Started,
            old(self).slot(number) is Started,
            final(self).slot(number)->Started_0.future == old(self).slot(number)->Started_0.future,
            token_cancelled(final(self).slot(number)->Started_0.cancel_token),
            token_lineage(final(self).slot(number)->Started_0.cancel_token) == token_lineage(
                old(self).slot(number)->Started_0.cancel_token,
            ),
    {
        proof {
            law_plan_stays_wf(self.count(), self.history());
            lemma_one_more(self.count(), self.history(), Event::Cancelled);
            assert(self.plan().running[self.plan().running.len() - 1] == number);
            assert(self.plan().running.contains(number));
            assert(self.slots@[number as int] is Started);
        }
        let mut held: Slot<E> = Slot::Ended;
        std::mem::swap(&mut held, &mut self.slots[number]);
        if let Slot::Started(mut started) = held {
            started.stop();
            proof {
                lemma_slots_fit_after_update(
                    old(self).slots@,
                    old(self).plan(),
                    old(self).plan().step(Event::Cancelled),
                    number,
                    started,
                );
            }
            self.slots[number] = Slot::Started(started);
            assert(self.slots@ == old(self).slots@.update(number as int, Slot::Started(started)));
        }
        self.note(Event::Cancelled);
    }

    /// Polls the process whose turn it is, and lets go of it when it has
    /// ended.
    fn poll_proc(&mut self, number: usize, cx: &mut Context<'_>)
        requires
            old(self).wf(),
            old(self).plan().next() == Action::PollProc(number),
        ensures
            old(self).leads_to(*final(self)),
            exists|polled: Poll<ProcResult<E>>|
                {
                    &&& final(self).history() == #[trigger] old(self).history().push(
                        Event::Polled(polled),
                    )
                    &&& match polled {
                        Poll::Pending => {
                            &&& final(self).slot(number) matches Slot::Started(rest)
                            &&& asked(
                                old(self).slot(number)->Started_0.future,
                                Err(rest.future),
                            )
                            &&& rest.cancel_token == old(self).slot(number)->Started_0.cancel_token
                        },
                        Poll::Ready(result) => {
                            &&& final(self).slot(number) is Ended
                            &&& asked(old(self).slot(number)->Started_0.future, Ok(result))
                        },
                    }
                },
            final(self).shutdown() == old(self).shutdown(),
            forall|other: usize|
                other < old(self).count() && other != number ==> #[trigger] final(self).slot(other)
                    == old(self).slot(other),
            old(self).slot(number) is Started,
    {
        proof {
            law_plan_stays_wf(self.count(), self.history());
            let plan = self.plan();
            let at = if plan.stage is Scanning {
                plan.stage->Scanning_0 as int
            } else {
                plan.running.len() - 1
            };
            assert(plan.running[at] == number);
            assert(plan.running.contains(number));
            assert(self.slots@[number as int] is Started);
        }
        let mut held: Slot<E> = Slot::Ended;
        std::mem::swap(&mut held, &mut self.slots[number]);
        if let Slot::Started(started) = held {
            match started.poll(cx) {
                Ok(result) => {
                    proof {
                        lemma_one_more(
                            self.count(),
                            self.history(),
                            Event::Polled(Poll::Ready(result)),
                        );
                        lemma_slots_fit_after_exit(
                            old(self).slots@,
                            old(self).plan(),
                            number,
                            result,
                        );
                    }
                    assert(self.slots@ == old(self).slots@.update(number as int, Slot::Ended));
                    self.note(Event::Polled(Poll::Ready(result)));
                },
                Err(rest) => {
                    proof {
                        lemma_one_more(self.count(), self.history(), Event::Polled(Poll::Pending));
                        lemma_slots_fit_after_update(
                            old(self).slots@,
                            old(self).plan(),
                            old(self).plan().step(Event::Polled(Poll::Pending)),
                            number,
                            rest,
                        );
                    }
                    self.slots[number] = Slot::Started(rest);
                    assert(self.slots@ == old(self).slots@.update(
                        number as int,
                        Slot::Started(rest),
                    ));
                    self.note(Event::Polled(Poll::Pending));
                },
            }
        }
    }

    /// Does, once woken, all that can be done now: starts, polls and stops
    /// processes as the plan says, until there is nothing to do but wait, or
    /// until all processes have ended.
    pub fn advance(&mut self, cx: &mut Context<'_>) -> (polled: Poll<()>)
        requires
            old(self).wf(),
            old(self).plan().next() is Rest,
        ensures
            polled is Pending ==> old(self).pauses_at(*final(self)),
            polled is Ready ==> old(self).returns_at(*final(self)),
    {
        proof {
            law_plan_stays_wf(self.count(), self.history());
            lemma_one_more(self.count(), self.history(), Event::Woken);
        }
        self.note(Event::Woken);
        loop
            invariant
                old(self).wakes_to(*self),
                self.plan().stage is Starting ==> self.plan().running.len() == 0,
                old(self).shutdown().known() && old(self).busy() ==> {
                    ||| self.plan().stopping()
                    ||| {
                        &&& self.plan().next() is PollShutdown || self.plan().next() is Start
                        &&& self.shutdown().known()
                    }
                },
            decreases self.plan().work(),
        {
            let ghost before = *self;
            proof {
                law_plan_stays_wf(self.count(), self.history());
            }
            match self.plan.next() {
                Action::Rest => {
                    return Poll::Pending;
                },
                Action::Return => {
                    return Poll::Ready(());
                },
                Action::Start(_) => {
                    self.start_futures();
                },
                Action::PollShutdown => self.poll_shutdown(cx),
                Action::Cancel(number) => self.stop_proc(number),
                Action::PollProc(number) => self.poll_proc(number, cx),
            }
            proof {
                if !(before.plan().next() is Start) {
                    let event = self.history().last();
                    lemma_one_more(self.count(), before.history(), event);
                    law_work_runs_out(before.plan(), event);
                }
            }
        }
    }

    /// The result of a supervision whose processes have all ended.
    pub fn into_result(self) -> (result: ProcResult<E>)
        requires
            self.wf(),
        ensures
            result == self.plan().result(),
    {
        self.plan.into_result()
    }
}

/// Starting the process whose turn it is keeps the slots in step with the
/// plan.
proof fn lemma_slots_fit_after_start<E>(
    slots: Seq<Slot<E>>,
    plan: PlanView<E>,
    number: usize,
    started: CancelableLocalFuture<E>,
)
    requires
        plan.wf(),
        slots_fit(slots, plan),
        plan.next() == Action::Start(number),
        token_lineage(started.cancel_token).len() == 1,
        made_by_new(started.cancel_token),
        !token_cancelled(started.cancel_token),
        created_last(started.cancel_token, slots.update(number as int, Slot::Ended)),
    ensures
        slots_fit(
            slots.update(number as int, Slot::Started(started)),
            plan.step(Event::Started),
        ),
        created_last(started.cancel_token, slots),
{
    let now = slots.update(number as int, Slot::Started(started));
    let after = plan.step(Event::Started);
    let held = slots.update(number as int, Slot::Ended);
    assert(after.running[number as int] == number);
    assert(!plan.running.contains(number));
    assert forall|i: int| 0 <= i < slots.len() && #[trigger] slots[i] is Started implies {
        &&& i < number
        &&& after.running.contains(i as usize)
        &&& created_after(started.cancel_token, slots[i]->Started_0.cancel_token)
    } by {
        assert(plan.running.contains(i as usize));
        let k = plan.running.index_of(i as usize);
        assert(after.running[k] == i);
        assert(held[i] == slots[i]);
    }
    assert forall|i: int| 0 <= i < number implies #[trigger] slots[i] is Started by {
        assert(plan.running[i] == i);
    }
    assert forall|i: int| 0 <= i < now.len() implies slot_fits(#[trigger] now[i], i, after) by {
        if i != number {
            assert(now[i] == slots[i]);
            assert(slots[i] is Started || slots[i] is Waiting);
        }
    }
    assert forall|i: int, j: int|
        0 <= i < j < now.len() && #[trigger] now[i] is Started && #[trigger] now[j] is Started
        implies created_after(
        now[j]->Started_0.cancel_token,
        now[i]->Started_0.cancel_token,
    ) by {
        if i != number {
            assert(now[i] == slots[i]);
        }
        if j != number {
            assert(now[j] == slots[j]);
        }
    }
}

/// Telling a process to stop, or polling one that goes on, keeps the slots in
/// step with the plan.
proof fn lemma_slots_fit_after_update<E>(
    slots: Seq<Slot<E>>,
    plan: PlanView<E>,
    after: PlanView<E>,
    number: usize,
    running: CancelableLocalFuture<E>,
)
    requires
        plan.wf(),
        slots_fit(slots, plan),
        number < slots.len(),
        slots[number as int] is Started,
        made_by_new(running.cancel_token),
        token_lineage(running.cancel_token) == token_lineage(
            slots[number as int]->Started_0.cancel_token,
        ),
        token_cancelled(running.cancel_token) <==> after.asked() && number == plan.running.last(),
        after.running == plan.running,
        after.count == plan.count,
        !plan.starting(),
        !after.starting(),
        plan.asked() == after.asked() || number == plan.running.last(),
    ensures
        slots_fit(slots.update(number as int, Slot::Started(running)), after),
{
    let now = slots.update(number as int, Slot::Started(running));
    assert forall|i: int| 0 <= i < now.len() implies slot_fits(#[trigger] now[i], i, after) by {
        assert(slots[i] is Started || slots[i] is Waiting || slots[i] is Ended);
    }
    assert forall|i: int, j: int|
        0 <= i < j < now.len() && #[trigger] now[i] is Started && #[trigger] now[j] is Started
        implies created_after(
        now[j]->Started_0.cancel_token,
        now[i]->Started_0.cancel_token,
    ) by {
        assert(slots[i] is Started && slots[j] is Started);
    }
}

/// What a supervision held was in step with its plan all along.
proof fn lemma_slots_fitted<E>(count: nat, events: Seq<Event<E>>, snapshots: Seq<Snapshot<E>>)
    requires
        count <= usize::MAX,
        possible(count, events),
        came_about(count, events, snapshots),
        snapshots[0].slots.len() == count,
        forall|i: int| 0 <= i < count ==> #[trigger] snapshots[0].slots[i] is Waiting,
    ensures
        slots_fit(snapshots.last().slots, replay(count, events)),
    decreases events.len(),
{
    if events.len() > 0 {
        let earlier = events.drop_last();
        let passed = snapshots.drop_last();
        let plan = replay(count, earlier);
        let before = passed.last().slots;
        let after = snapshots.last().slots;
        lemma_slots_fitted(count, earlier, passed);
        law_plan_stays_wf(count, earlier);
        match plan.next() {
            Action::Start(number) => {
                let started = after[number as int]->Started_0;
                let held = before.update(number as int, Slot::Ended);
                assert(created_last(started.cancel_token, held)) by {
                    assert forall|i: int|
                        0 <= i < held.len() && #[trigger] held[i] is Started implies created_after(
                        started.cancel_token,
                        held[i]->Started_0.cancel_token,
                    ) by {
                        assert(before[i] is Started);
                    }
                }
                lemma_slots_fit_after_start(before, plan, number, started);
            },
            Action::Cancel(number) => {
                assert(plan.running[plan.running.len() - 1] == number);
                assert(before[number as int] is Started);
                lemma_slots_fit_after_update(
                    before,
                    plan,
                    plan.step(events.last()),
                    number,
                    after[number as int]->Started_0,
                );
            },
            Action::PollProc(number) => {
                let at = if plan.stage is Scanning {
                    plan.stage->Scanning_0 as int
                } else {
                    plan.running.len() - 1
                };
                assert(plan.running[at] == number);
                assert(before[number as int] is Started);
                match events.last() {
                    Event::Polled(Poll::Ready(result)) => {
                        lemma_slots_fit_after_exit(before, plan, number, result);
                    },
                    _ => {
                        lemma_slots_fit_after_update(
                            before,
                            plan,
                            plan.step(events.last()),
                            number,
                            after[number as int]->Started_0,
                        );
                    },
                }
            },
            _ => {},
        }
    }
}

/// What a supervision held, told from its plan.
pub(crate) proof fn lemma_slots_told<E>(
    count: nat,
    events: Seq<Event<E>>,
    snapshots: Seq<Snapshot<E>>,
)
    requires
        count <= usize::MAX,
        possible(count, events),
        came_about(count, events, snapshots),
        snapshots[0].slots.len() == count,
        forall|i: int| 0 <= i < count ==> #[trigger] snapshots[0].slots[i] is Waiting,
    ensures
        snapshots.last().slots.len() == count,
        forall|number: usize|
            number < count ==> match #[trigger] snapshots.last().slots[number as int] {
                Slot::Waiting(_) => events.len() <= number + 1,
                Slot::Started(started) => {
                    &&& replay(count, events).running.contains(number)
                    &&& made_by_new(started.cancel_token)
                    &&& token_lineage(started.cancel_token).len() == 1
                    &&& token_cancelled(started.cancel_token) <==> (replay(
                        count,
                        events,
                    ).stage is Draining || replay(count, events).stage is Waiting) && number
                        == replay(count, events).running.last()
                },
                Slot::Ended => {
                    &&& events.len() > count
                    &&& !replay(count, events).running.contains(number)
                },
            },
        forall|i: int, j: int|
            0 <= i < j < count && #[trigger] snapshots.last().slots[i] is Started
                && #[trigger] snapshots.last().slots[j] is Started ==> token_lineage(
                snapshots.last().slots[j]->Started_0.cancel_token,
            ).last() > token_lineage(snapshots.last().slots[i]->Started_0.cancel_token).last(),
{
    lemma_slots_fitted(count, events, snapshots);
    law_plan_stays_wf(count, events);
    let plan = replay(count, events);
    let slots = snapshots.last().slots;
    if events.len() <= count {
        lemma_first_events(count, events);
    } else {
        lemma_done_starting(count, events);
    }
    assert forall|number: usize| number < count implies match #[trigger] slots[number as int] {
        Slot::Waiting(_) => events.len() <= number + 1,
        Slot::Started(started) => {
            &&& plan.running.contains(number)
            &&& made_by_new(started.cancel_token)
            &&& token_lineage(started.cancel_token).len() == 1
            &&& token_cancelled(started.cancel_token) <==> (plan.stage is Draining
                || plan.stage is Waiting) && number == plan.running.last()
        },
        Slot::Ended => events.len() > count && !plan.running.contains(number),
    } by {
        assert(slot_fits(slots[number as int], number as int, plan));
    }
}

/// Letting go of the process that has ended keeps the slots in step with the
/// plan.
proof fn lemma_slots_fit_after_exit<E>(
    slots: Seq<Slot<E>>,
    plan: PlanView<E>,
    number: usize,
    result: ProcResult<E>,
)
    requires
        plan.wf(),
        slots_fit(slots, plan),
        plan.next() == Action::PollProc(number),
    ensures
        slots_fit(slots.update(number as int, Slot::Ended), plan.after_exit(result)),
{
    let now = slots.update(number as int, Slot::Ended);
    let after = plan.after_exit(result);
    let at = if plan.stage is Scanning {
        plan.stage->Scanning_0 as int
    } else {
        plan.running.len() - 1
    };
    assert(plan.running[at] == number);
    assert(after.running == plan.running.remove(at));
    assert forall|i: int| 0 <= i < now.len() implies slot_fits(#[trigger] now[i], i, after) by {
        assert(slots[i] is Started || slots[i] is Waiting || slots[i] is Ended);
        if after.running.contains(i as usize) {
            let k = after.running.index_of(i as usize);
            let was = if k < at {
                k
            } else {
                k + 1
            };
            assert(plan.running[was] == i);
            assert(plan.running.contains(i as usize));
        }
        if i != number && plan.running.contains(i as usize) {
            let k = plan.running.index_of(i as usize);
            let is = if k < at {
                k
            } else {
                k - 1
            };
            assert(after.running[is] == i);
        }
    }
    assert forall|i: int, j: int|
        0 <= i < j < now.len() && #[trigger] now[i] is Started && #[trigger] now[j] is Started
        implies created_after(
        now[j]->Started_0.cancel_token,
        now[i]->Started_0.cancel_token,
    ) by {
        assert(slots[i] is Started && slots[j] is Started);
    }
}

/// A poll of a future brings what the future resolves to, or leaves one that
/// resolves to the same.
pub proof fn law_asked<T>(
    future: FutureObj<'static, T>,
    polled: Result<T, FutureObj<'static, T>>,
)
    requires
        asked(future, polled),
    ensures
        polled matches Ok(output) ==> output == future@,
        polled matches Err(rest) ==> rest@ == future@,
{
}

/// To have been asked is to have been polled: what came of it is what a poll of
/// that very future gave.
pub(crate) proof fn law_asked_is_polled<T>(
    future: FutureObj<'static, T>,
    polled: Result<T, FutureObj<'static, T>>,
)
    requires
        asked(future, polled),
    ensures
        exists|cx: &mut Context<'_>| #[trigger]
            call_ensures(poll_future::<T>, (future, cx), polled),
{
}

/// A process that was started keeps its token and ends, if it does, with what
/// the future that it was started as resolves to. `then` is the number of a
/// snapshot in which the process runs.
pub proof fn law_ends_as_its_future<E>(
    count: nat,
    events: Seq<Event<E>>,
    snapshots: Seq<Snapshot<E>>,
    then: int,
    number: usize,
)
    requires
        count <= usize::MAX,
        possible(count, events),
        came_about(count, events, snapshots),
        snapshots[0].slots.len() == count,
        0 <= then < snapshots.len(),
        number < count,
        snapshots[then].slots[number as int] is Started,
    ensures
        snapshots.last().slots.len() == count,
        ({
            let started = snapshots[then].slots[number as int]->Started_0;
            match snapshots.last().slots[number as int] {
                Slot::Waiting(_) => false,
                Slot::Started(now) => {
                    &&& token_lineage(now.cancel_token) == token_lineage(started.cancel_token)
                    &&& now.future@ == started.future@
                },
                Slot::Ended => exits(count, events).contains((number, started.future@)),
            }
        }),
    decreases events.len(),
{
    lemma_slots_stay(count, events, snapshots);
    if then < events.len() {
        let earlier = events.drop_last();
        let before = snapshots[events.len() - 1];
        let started = snapshots[then].slots[number as int]->Started_0;
        law_ends_as_its_future(count, earlier, snapshots.drop_last(), then, number);
        law_plan_stays_wf(count, earlier);
        lemma_slots_stay(count, earlier, snapshots.drop_last());
        lemma_one_more(count, earlier, events.last());
        assert(earlier.push(events.last()) == events);
        let now = exits(count, events);
        let was = exits(count, earlier);
        if was.contains((number, started.future@)) {
            let i = was.index_of((number, started.future@));
            assert(now[i] == (number, started.future@));
        }
        let slot = snapshots.last().slots[number as int];
        if before.slots[number as int] is Started && slot is Ended {
            assert(now.last() == (number, started.future@));
        }
    }
}

/// The number of processes stays the same.
pub(crate) proof fn lemma_slots_stay<E>(
    count: nat,
    events: Seq<Event<E>>,
    snapshots: Seq<Snapshot<E>>,
)
    requires
        count <= usize::MAX,
        possible(count, events),
        came_about(count, events, snapshots),
        snapshots[0].slots.len() == count,
    ensures
        snapshots.last().slots.len() == count,
    decreases events.len(),
{
    if events.len() > 0 {
        lemma_slots_stay(count, events.drop_last(), snapshots.drop_last());
        law_plan_stays_wf(count, events.drop_last());
    }
}

/// The work of a supervisor as a future: it resolves to the result of the
/// supervision when all processes have ended.
#[verifier::reject_recursive_types(E)]
pub struct RunFuture<E> {
    at_work: Option<Supervision<E>>,
}

impl<E> RunFuture<E> {
    /// The supervision at work, until it has come to its end.
    pub closed spec fn supervision(self) -> Option<Supervision<E>> {
        self.at_work
    }

    /// The processes, and what will make their supervision end early, as long
    /// as the future has not been polled: until then no process is started.
    pub open spec fn waiting(self) -> Option<(Seq<BoxedProc<E>>, Shutdown)> {
        match self.supervision() {
            Some(supervision) => if supervision.wf() && supervision.history().len() == 0 {
                Some((supervision.registered(), supervision.shutdown()))
            } else {
                None
            },
            None => None,
        }
    }

    /// Between polls a supervision waits to be woken.
    #[verifier::type_invariant]
    spec fn waits(self) -> bool {
        self.at_work matches Some(supervision) ==> {
            &&& supervision.wf()
            &&& supervision.plan().next() is Rest
        }
    }

    /// The future that sees the supervision through.
    pub fn new(supervision: Supervision<E>) -> (run: Self)
        requires
            supervision.wf(),
            supervision.plan().next() is Rest,
        ensures
            run.supervision() == Some(supervision),
    {
        RunFuture { at_work: Some(supervision) }
    }

    /// Whether the supervision has come to its end, so that the result has
    /// been handed out.
    pub fn is_done(&self) -> (done: bool)
        ensures
            done <==> self.supervision() is None,
    {
        self.at_work.is_none()
    }

    /// Whether a poll of this future can bring `polled` and leave `after`. A
    /// future whose result is out has nothing left to poll. Otherwise the
    /// supervision is woken and goes on, and the result is handed out when all
    /// processes have ended: the first failure that a process ended with, if
    /// there was one.
    pub open spec fn polls_to(self, after: Self, polled: Poll<ProcResult<E>>) -> bool {
        match self.supervision() {
            None => polled is Pending && after.supervision() is None,
            Some(before) => match polled {
                Poll::Pending => after.supervision() matches Some(now) && before.pauses_at(now),
                Poll::Ready(result) => {
                    &&& after.supervision() is None
                    &&& exists|last: Supervision<E>| #[trigger]
                        before.returns_at(last) && result == last.plan().result()
                },
            },
        }
    }

    /// Does what can be done now; the first time, this begins with starting
    /// the processes. Hands out the result when all processes have ended: the
    /// first failure that a process ended with, if there was one. Once the
    /// result is out, there is nothing left to poll.
    pub fn poll_run(&mut self, cx: &mut Context<'_>) -> (polled: Poll<ProcResult<E>>)
        requires
            old(self).supervision() is Some,
        ensures
            old(self).polls_to(*final(self), polled),
    {
        proof {
            use_type_invariant(&*self);
        }
        let mut held: Option<Supervision<E>> = None;
        std::mem::swap(&mut held, &mut self.at_work);
        match held {
            None => Poll::Pending,
            Some(mut supervision) => match supervision.advance(cx) {
                Poll::Pending => {
                    self.at_work = Some(supervision);
                    Poll::Pending
                },
                Poll::Ready(()) => Poll::Ready(supervision.into_result()),
            },
        }
    }
}

impl<E> Future for RunFuture<E> {
    type Output = ProcResult<E>;

    /// Polls the future that is pinned, as [`RunFuture::poll_run`] does until
    /// the result is out.
    fn poll(self: Pin<&mut Self>, cx: &mut Context<'_>) -> (polled: Poll<Self::Output>)
        ensures
            exists|run: &mut Self|
                {
                    &&& #[trigger] call_ensures(Pin::<&mut Self>::get_mut, (self,), run)
                    &&& (*run).polls_to(*final(run), polled)
                },
    {
        let run = self.get_mut();
        if run.is_done() {
            Poll::Pending
        } else {
            run.poll_run(cx)
        }
    }
}

impl<E> Unpin for RunFuture<E> {

}

/// The first poll of a run starts all its processes, in the order of
/// registration, before anything else: the supervision is woken, and the
/// `k`-th event after that is that the `k`-th process was started, with a
/// signal of its own, while those registered after it still waited.
pub proof fn law_first_poll_starts_all<E>(
    run: RunFuture<E>,
    procs: Seq<BoxedProc<E>>,
    shutdown: Shutdown,
    after: Supervision<E>,
    k: int,
)
    requires
        run.waiting() == Some((procs, shutdown)),
        run.supervision()->0.pauses_at(after) || run.supervision()->0.returns_at(after),
        0 <= k < procs.len(),
    ensures
        after.registered() == procs,
        after.history().len() > after.count(),
        after.history()[0] is Woken,
        after.history()[k + 1] is Started,
        after.snapshots()[k + 1].slots[k] == Slot::Waiting(after.registered()[k]),
        after.snapshots()[k + 2].slots[k] is Started,
        started_from(after.snapshots()[k + 2].slots[k]->Started_0, after.registered()[k]),
        created_last(
            after.snapshots()[k + 2].slots[k]->Started_0.cancel_token,
            after.snapshots()[k + 1].slots,
        ),
        forall|i: int|
            0 <= i < after.count() ==> (#[trigger] after.snapshots()[k + 1].slots[i] is Started
                <==> i < k),
{
    after.law_keeps_to_plan();
    let count = after.count();
    let events = after.history();
    if events.len() <= count {
        law_starts_when_first_woken(count, events, events.len() - 1);
        lemma_first_events(count, events);
        assert(false);
    }
    law_starts_when_first_woken(count, events, 0);
    law_starts_when_first_woken(count, events, k + 1);
    law_every_event_came_about(count, events, after.snapshots(), k + 1);
    lemma_first_snapshots(count, events, after.snapshots(), k + 1);
    lemma_possible_so_far(count, events, k + 1);
    lemma_first_events(count, events.take(k + 1));
}

/// When a run hands out its result, every process has ended, and the result is
/// the first failure that one of them ended with, or success if there was
/// none.
pub proof fn law_run_result<E>(
    run: RunFuture<E>,
    after: RunFuture<E>,
    result: ProcResult<E>,
) -> (last: Supervision<E>)
    requires
        run.polls_to(after, Poll::Ready(result)),
    ensures
        after.supervision() is None,
        run.supervision() is Some,
        run.supervision()->0.returns_at(last),
        last.exits().len() == last.count(),
        forall|number: usize|
            number < last.count() ==> #[trigger] ended(last.count(), last.history(), number),
        result == failure_result(first_failure(last.exits())),
{
    let last = choose|last: Supervision<E>| #[trigger]
        run.supervision()->0.returns_at(last) && result == last.plan().result();
    last.law_result();
    last
}

/// What a supervision holds as long as it starts its processes.
proof fn lemma_first_snapshots<E>(
    count: nat,
    events: Seq<Event<E>>,
    snapshots: Seq<Snapshot<E>>,
    k: int,
)
    requires
        count <= usize::MAX,
        possible(count, events),
        came_about(count, events, snapshots),
        snapshots[0].slots.len() == count,
        forall|i: int| 0 <= i < count ==> #[trigger] snapshots[0].slots[i] is Waiting,
        1 <= k <= count,
        k <= events.len(),
    ensures
        snapshots[k].slots.len() == count,
        forall|i: int| 0 <= i < k - 1 ==> #[trigger] snapshots[k].slots[i] is Started,
        forall|i: int|
            k - 1 <= i < count ==> #[trigger] snapshots[k].slots[i] == snapshots[0].slots[i],
    decreases k,
{
    law_every_event_came_about(count, events, snapshots, k - 1);
    law_starts_when_first_woken(count, events, k - 1);
    lemma_possible_so_far(count, events, k - 1);
    lemma_first_events(count, events.take(k - 1));
    if k > 1 {
        lemma_first_snapshots(count, events, snapshots, k - 1);
    }
}

/// Whether, for so many polls, each poll of `boxed` is a poll of `run` and
/// brings what that brought: the result of the run, reported as the result of
/// a process.
pub open spec fn drives<E: From<SupervisorError<E>>>(
    boxed: ManagedFuture<E>,
    run: RunFuture<E>,
    polls: nat,
) -> bool
    decreases polls,
{
    polls > 0 ==> forall|polled: Result<ProcResult<E>, ManagedFuture<E>>| #[trigger]
        asked(boxed, polled) ==> exists|after: RunFuture<E>, brought: Poll<ProcResult<E>>|
            {
                &&& #[trigger] run.polls_to(after, brought)
                &&& match (brought, polled) {
                    (Poll::Pending, Err(rest)) => drives(rest, after, (polls - 1) as nat),
                    (Poll::Ready(result), Ok(outcome)) => reports(result, outcome),
                    _ => false,
                }
            }
}

/// A run that is boxed as the future of a process goes on as that future is
/// polled: `futures` are what its polls leave one after the other, and with
/// each of them there is a run, each of which a poll led from to the next.
pub proof fn law_group_is_driven<E: From<SupervisorError<E>>>(
    futures: Seq<ManagedFuture<E>>,
    run: RunFuture<E>,
) -> (runs: Seq<RunFuture<E>>)
    requires
        futures.len() > 0,
        forall|polls: nat| #[trigger] drives(futures[0], run, polls),
        forall|k: int|
            0 < k < futures.len() ==> asked(
                futures[k - 1],
                Result::<ProcResult<E>, ManagedFuture<E>>::Err(#[trigger] futures[k]),
            ),
    ensures
        runs.len() == futures.len(),
        runs[0] == run,
        forall|k: int|
            0 < k < runs.len() ==> runs[k - 1].polls_to(#[trigger] runs[k], Poll::Pending),
        forall|polled: ProcResult<E>| #[trigger]
            asked(futures.last(), Ok(polled)) ==> exists|after: RunFuture<E>, result: ProcResult<E>|
                {
                    &&& #[trigger] runs.last().polls_to(after, Poll::Ready(result))
                    &&& reports(result, polled)
                },
{
    lemma_group_is_driven(futures, run, 1)
}

/// The runs behind the futures, the last of which is driven on for so many
/// polls.
proof fn lemma_group_is_driven<E: From<SupervisorError<E>>>(
    futures: Seq<ManagedFuture<E>>,
    run: RunFuture<E>,
    polls: nat,
) -> (runs: Seq<RunFuture<E>>)
    requires
        futures.len() > 0,
        forall|polls: nat| #[trigger] drives(futures[0], run, polls),
        forall|k: int|
            0 < k < futures.len() ==> asked(
                futures[k - 1],
                Result::<ProcResult<E>, ManagedFuture<E>>::Err(#[trigger] futures[k]),
            ),
    ensures
        runs.len() == futures.len(),
        runs[0] == run,
        forall|k: int|
            0 < k < runs.len() ==> runs[k - 1].polls_to(#[trigger] runs[k], Poll::Pending),
        drives(futures.last(), runs.last(), polls),
    decreases futures.len(),
{
    if futures.len() == 1 {
        assert(drives(futures[0], run, polls));
        Seq::empty().push(run)
    } else {
        let last = futures.len() - 1;
        let earlier = lemma_group_is_driven(futures.drop_last(), run, polls + 1);
        assert(asked(futures[last - 1], Err(futures[last])));
        let polled: Result<ProcResult<E>, ManagedFuture<E>> = Err(futures[last]);
        let (after, brought) = choose|after: RunFuture<E>, brought: Poll<ProcResult<E>>|
            {
                &&& #[trigger] earlier.last().polls_to(after, brought)
                &&& match (brought, polled) {
                    (Poll::Pending, Err(rest)) => drives(rest, after, polls),
                    (Poll::Ready(result), Ok(outcome)) => reports(result, outcome),
                    _ => false,
                }
            };
        earlier.push(after)
    }
}

} // verus!
