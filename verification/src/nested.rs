//! What is known of a process under its supervisor: how it was started, what
//! it ended with, and, where it is itself a supervisor with processes of its
//! own, what these do.
use crate::conduct::{law_first_error_is_returned, law_success_without_an_error};
use crate::error::{
    failure_result, law_what_is_reported, reports, ProcResult, SupervisorError,
};
use crate::history::{
    ended, exits, first_failure, law_each_process_ends_once, law_one_stop_at_a_time,
    law_plan_stays_wf, lemma_one_more, lemma_stops_are_registered, possible, stops,
};
use crate::plan::Event;
use crate::proc::{
    law_closure_in_a_box, law_closure_is_called, law_group_in_a_box, BoxedProc, ManagedFuture,
    ProcFn,
};
use crate::record::lemma_all_ended;
use crate::signal::ShutdownSignal;
use crate::supervision::{
    asked, came_about, drives, law_ends_as_its_future, lemma_slots_stay, started_from,
    CancelableLocalFuture, RunFuture, Shutdown, Slot, Snapshot, Supervision,
};
use crate::supervisor::Supervisor;
use crate::trusted::{derived_from, token_cancelled, token_lineage};
use core::future::Future;
use core::task::Poll;
use vstd::future::FutureAdditionalSpecFns;
use vstd::prelude::*;

verus! {

/// A group that was started under a parent is a run of the group's processes,
/// which have not been started yet. It ends early with a signal that is
/// derived from the token by which the parent stops the group.
pub proof fn law_group_is_started<E: From<SupervisorError<E>> + Send + 'static>(
    started: CancelableLocalFuture<E>,
    group: Supervisor<E>,
) -> (begun: (ShutdownSignal, RunFuture<E>))
    requires
        started_from(started, BoxedProc::of(group)),
    ensures
        derived_from(begun.0.source(), started.cancel_token),
        !token_cancelled(begun.0.source()),
        !begun.0.listening(),
        !begun.0.fired(),
        begun.1.waiting() == Some((group@, Shutdown::Signal(begun.0))),
        forall|polls: nat| #[trigger] drives(started.future, begun.1, polls),
{
    let signal = choose|signal: ShutdownSignal|
        {
            &&& derived_from(signal.source(), started.cancel_token)
            &&& !token_cancelled(signal.source())
            &&& !signal.listening()
            &&& !signal.fired()
            &&& #[trigger] BoxedProc::of(group).starts(signal, started.future)
        };
    law_group_in_a_box(group, signal, started.future);
    let run = choose|run: RunFuture<E>|
        {
            &&& #[trigger] run.waiting() == Some((group@, Shutdown::Signal(signal)))
            &&& forall|polls: nat| #[trigger] drives(started.future, run, polls)
        };
    (signal, run)
}

/// Whether the supervision is that of the group, and ends early with a signal
/// that is derived from the token that is kept with the group's future.
pub open spec fn supervises<E>(
    inner: Supervision<E>,
    group: Supervisor<E>,
    started: CancelableLocalFuture<E>,
) -> bool {
    &&& inner.wf()
    &&& inner.registered() == group@
    &&& inner.shutdown() matches Shutdown::Signal(signal)
    &&& derived_from(signal.source(), started.cancel_token)
}

/// A process that waits to be started is the one that was registered.
proof fn lemma_waits_unchanged<E>(
    count: nat,
    events: Seq<Event<E>>,
    snapshots: Seq<Snapshot<E>>,
    number: usize,
)
    requires
        count <= usize::MAX,
        possible(count, events),
        came_about(count, events, snapshots),
        snapshots[0].slots.len() == count,
        number < count,
        snapshots.last().slots[number as int] is Waiting,
    ensures
        snapshots.last().slots[number as int] == snapshots[0].slots[number as int],
    decreases events.len(),
{
    if events.len() > 0 {
        let earlier = events.drop_last();
        law_plan_stays_wf(count, earlier);
        lemma_slots_stay(count, earlier, snapshots.drop_last());
        lemma_waits_unchanged(count, earlier, snapshots.drop_last(), number);
    }
}

/// A signal that makes a supervision end early stays a signal for the same
/// token.
proof fn lemma_signal_stays<E>(
    count: nat,
    events: Seq<Event<E>>,
    snapshots: Seq<Snapshot<E>>,
    then: int,
)
    requires
        came_about(count, events, snapshots),
        0 <= then < snapshots.len(),
        snapshots[then].shutdown is Signal,
    ensures
        snapshots.last().shutdown is Signal,
        snapshots.last().shutdown->Signal_0.source() == snapshots[then].shutdown->Signal_0.source(),
    decreases events.len(),
{
    if then < events.len() {
        lemma_signal_stays(count, events.drop_last(), snapshots.drop_last(), then);
    }
}

/// As long as a group runs under its parent, there is a supervision of the
/// group's processes behind its future, which is driven on as the parent polls
/// that future. The parent is given by its history and by what it held.
proof fn lemma_group_at_work<E: From<SupervisorError<E>> + Send + 'static>(
    count: nat,
    events: Seq<Event<E>>,
    snapshots: Seq<Snapshot<E>>,
    number: usize,
    group: Supervisor<E>,
    polls: nat,
) -> (run: RunFuture<E>)
    requires
        count <= usize::MAX,
        possible(count, events),
        came_about(count, events, snapshots),
        snapshots[0].slots.len() == count,
        number < count,
        snapshots[0].slots[number as int] == Slot::Waiting(BoxedProc::of(group)),
        snapshots.last().slots[number as int] is Started,
    ensures
        run.supervision() matches Some(inner) && supervises(
            inner,
            group,
            snapshots.last().slots[number as int]->Started_0,
        ),
        drives(snapshots.last().slots[number as int]->Started_0.future, run, polls),
    decreases events.len(),
{
    let earlier = events.drop_last();
    let passed = snapshots.drop_last();
    let before = passed.last().slots[number as int];
    let now = snapshots.last().slots[number as int]->Started_0;
    law_plan_stays_wf(count, earlier);
    lemma_slots_stay(count, earlier, passed);
    match before {
        Slot::Waiting(proc) => {
            lemma_waits_unchanged(count, earlier, passed, number);
            let (signal, run) = law_group_is_started(now, group);
            assert(drives(now.future, run, polls));
            run
        },
        Slot::Started(was) => {
            if was.future == now.future {
                lemma_group_at_work(count, earlier, passed, number, group, polls)
            } else {
                let run = lemma_group_at_work(count, earlier, passed, number, group, polls + 1);
                let polled: Result<ProcResult<E>, ManagedFuture<E>> = Err(now.future);
                assert(asked(was.future, polled));
                let (after, brought) = choose|after: RunFuture<E>, brought: Poll<ProcResult<E>>|
                    {
                        &&& #[trigger] run.polls_to(after, brought)
                        &&& match (brought, polled) {
                            (Poll::Pending, Err(rest)) => drives(rest, after, polls),
                            (Poll::Ready(result), Ok(outcome)) => reports(result, outcome),
                            _ => false,
                        }
                    };
                let inner = run.supervision()->0;
                let later = after.supervision()->0;
                later.law_keeps_to_plan();
                inner.law_keeps_to_plan();
                lemma_signal_stays(
                    later.count(),
                    later.history(),
                    later.snapshots(),
                    inner.snapshots().len() - 1,
                );
                after
            }
        },
        Slot::Ended => choose|run: RunFuture<E>| #[trigger] drives(now.future, run, polls),
    }
}

/// As long as a group runs under its parent, there is a supervision of the
/// group's processes behind its future, with a signal that is derived from the
/// token by which the parent stops the group, and any number of polls of that
/// future drive it on.
pub proof fn law_group_is_at_work<E: From<SupervisorError<E>> + Send + 'static>(
    parent: Supervision<E>,
    number: usize,
    group: Supervisor<E>,
    polls: nat,
) -> (run: RunFuture<E>)
    requires
        parent.wf(),
        number < parent.count(),
        parent.registered()[number as int] == BoxedProc::of(group),
        parent.slot(number) is Started,
    ensures
        run.supervision() matches Some(inner) && supervises(
            inner,
            group,
            parent.slot(number)->Started_0,
        ) && {
            &&& inner.wf()
            &&& inner.registered() == group@
            &&& inner.shutdown() matches Shutdown::Signal(signal)
            &&& derived_from(signal.source(), parent.slot(number)->Started_0.cancel_token)
        },
        drives(parent.slot(number)->Started_0.future, run, polls),
{
    parent.law_keeps_to_plan();
    lemma_group_at_work(
        parent.count(),
        parent.history(),
        parent.snapshots(),
        number,
        group,
        polls,
    )
}

proof fn lemma_not_polled<E>(
    count: nat,
    events: Seq<Event<E>>,
    snapshots: Seq<Snapshot<E>>,
    then: int,
    number: usize,
)
    requires
        count <= usize::MAX,
        possible(count, events),
        came_about(count, events, snapshots),
        snapshots[0].slots.len() == count,
        0 <= then < snapshots.len(),
        number < count,
        snapshots[then].slots[number as int] is Started,
        forall|i: int| then <= i < events.len() ==> !(#[trigger] events[i] is Polled),
    ensures
        snapshots.last().slots[number as int] is Started,
        snapshots.last().slots[number as int]->Started_0.future
            == snapshots[then].slots[number as int]->Started_0.future,
        token_lineage(snapshots.last().slots[number as int]->Started_0.cancel_token)
            == token_lineage(snapshots[then].slots[number as int]->Started_0.cancel_token),
    decreases events.len(),
{
    if then < events.len() {
        let earlier = events.drop_last();
        law_plan_stays_wf(count, earlier);
        lemma_slots_stay(count, earlier, snapshots.drop_last());
        assert forall|i: int| then <= i < earlier.len() implies !(
        #[trigger] earlier[i] is Polled) by {
            assert(earlier[i] == events[i]);
        }
        lemma_not_polled(count, earlier, snapshots.drop_last(), then, number);
        assert(!(events[events.len() - 1] is Polled));
    }
}

/// No process of a group is started before the group is first polled: as long
/// as its parent has polled no process, and so while the parent still starts
/// its own, the group's run has not begun.
pub proof fn law_group_waits_for_the_first_poll<E: From<SupervisorError<E>> + Send + 'static>(
    parent: Supervision<E>,
    number: usize,
    group: Supervisor<E>,
) -> (begun: (ShutdownSignal, RunFuture<E>))
    requires
        parent.wf(),
        number < parent.count(),
        parent.registered()[number as int] == BoxedProc::of(group),
        parent.slot(number) is Started,
        forall|i: int|
            0 <= i < parent.history().len() ==> !(#[trigger] parent.history()[i] is Polled),
    ensures
        begun.1.waiting() == Some((group@, Shutdown::Signal(begun.0))),
        derived_from(begun.0.source(), parent.slot(number)->Started_0.cancel_token),
        forall|polls: nat| #[trigger]
            drives(parent.slot(number)->Started_0.future, begun.1, polls),
{
    let count = parent.count();
    parent.law_keeps_to_plan();
    let then = lemma_was_started(count, parent.history(), parent.snapshots(), number);
    lemma_not_polled(count, parent.history(), parent.snapshots(), then, number);
    law_group_is_started(parent.snapshots()[then].slots[number as int]->Started_0, group)
}

proof fn lemma_group_ends<E: From<SupervisorError<E>> + Send + 'static>(
    count: nat,
    events: Seq<Event<E>>,
    snapshots: Seq<Snapshot<E>>,
    number: usize,
    group: Supervisor<E>,
    outcome: ProcResult<E>,
) -> (last: Supervision<E>)
    requires
        count <= usize::MAX,
        possible(count, events),
        came_about(count, events, snapshots),
        snapshots[0].slots.len() == count,
        number < count,
        snapshots[0].slots[number as int] == Slot::Waiting(BoxedProc::of(group)),
        exits(count, events).contains((number, outcome)),
    ensures
        last.wf(),
        last.registered() == group@,
        last.plan().next() is Return,
        reports(last.plan().result(), outcome),
    decreases events.len(),
{
    let earlier = events.drop_last();
    let passed = snapshots.drop_last();
    lemma_one_more(count, earlier, events.last());
    assert(earlier.push(events.last()) == events);
    if exits(count, earlier).contains((number, outcome)) {
        lemma_group_ends(count, earlier, passed, number, group, outcome)
    } else {
        let at = exits(count, events).index_of((number, outcome));
        assert(exits(count, events)[at] == (number, outcome));
        if at < exits(count, earlier).len() {
            assert(exits(count, earlier)[at] == (number, outcome));
        }
        let running = passed.last().slots[number as int]->Started_0;
        let run = lemma_group_at_work(count, earlier, passed, number, group, 1);
        let polled: Result<ProcResult<E>, ManagedFuture<E>> = Ok(outcome);
        assert(asked(running.future, polled));
        let (after, brought) = choose|after: RunFuture<E>, brought: Poll<ProcResult<E>>|
            {
                &&& #[trigger] run.polls_to(after, brought)
                &&& match (brought, polled) {
                    (Poll::Pending, Err(rest)) => drives(rest, after, 0),
                    (Poll::Ready(result), Ok(outcome)) => reports(result, outcome),
                    _ => false,
                }
            };
        choose|last: Supervision<E>| #[trigger]
            run.supervision()->0.returns_at(last) && brought == Poll::Ready(last.plan().result())
    }
}

/// A group ends under its parent only when every one of the group's processes
/// has ended. What it ends with reports the group's own result: the first
/// failure that one of these ended with, or success if there was none.
pub proof fn law_group_ends_after_its_processes<E: From<SupervisorError<E>> + Send + 'static>(
    parent: Supervision<E>,
    number: usize,
    group: Supervisor<E>,
    outcome: ProcResult<E>,
) -> (last: Supervision<E>)
    requires
        parent.wf(),
        number < parent.count(),
        parent.registered()[number as int] == BoxedProc::of(group),
        parent.exits().contains((number, outcome)),
    ensures
        last.wf(),
        last.registered() == group@,
        last.plan().next() is Return,
        last.exits().len() == group@.len(),
        forall|child: usize|
            child < group@.len() ==> #[trigger] ended(last.count(), last.history(), child),
        reports(failure_result(first_failure(last.exits())), outcome),
        forall|child: usize| child < group@.len() ==> #[trigger] last.slot(child) is Ended,
        forall|child: int|
            0 <= child < group@.len() ==> #[trigger] last.snapshots()[0].slots[child]
                == Slot::Waiting(group@[child]),
        (forall|j: int|
            0 <= j < last.history().len() ==> !((#[trigger] last.history()[j]) matches Event::Polled(
                Poll::Ready(Err(_)),
            ))) ==> outcome == ProcResult::<E>::Ok(()),
        forall|first: int|
            0 <= first < last.history().len() && (forall|j: int|
                0 <= j < first ==> !((#[trigger] last.history()[j]) matches Event::Polled(
                    Poll::Ready(Err(_)),
                ))) ==> match #[trigger] last.history()[first] {
                Event::Polled(Poll::Ready(Err(error))) => {
                    &&& outcome matches Err(SupervisorError::Process(converted))
                    &&& call_ensures(<SupervisorError<E> as Into<E>>::into, (error,), converted)
                },
                _ => true,
            },
{
    parent.law_keeps_to_plan();
    let last = lemma_group_ends(
        parent.count(),
        parent.history(),
        parent.snapshots(),
        number,
        group,
        outcome,
    );
    last.law_result();
    last.law_keeps_to_plan();
    lemma_all_ended(last);
    assert forall|child: int|
        0 <= child < group@.len() implies #[trigger] last.snapshots()[0].slots[child]
        == Slot::Waiting(group@[child]) by {
        assert(last.registered()[child] == group@[child]);
    }
    law_what_is_reported(last.plan().result(), outcome);
    if forall|j: int|
        0 <= j < last.history().len() ==> !((#[trigger] last.history()[j]) matches Event::Polled(
            Poll::Ready(Err(_)),
        )) {
        law_success_without_an_error(last.count(), last.history());
    }
    assert forall|first: int|
        0 <= first < last.history().len() && (forall|j: int|
            0 <= j < first ==> !((#[trigger] last.history()[j]) matches Event::Polled(
                Poll::Ready(Err(_)),
            ))) implies match #[trigger] last.history()[first] {
        Event::Polled(Poll::Ready(Err(error))) => {
            &&& outcome matches Err(SupervisorError::Process(converted))
            &&& call_ensures(<SupervisorError<E> as Into<E>>::into, (error,), converted)
        },
        _ => true,
    } by {
        if let Event::Polled(Poll::Ready(Err(error))) = last.history()[first] {
            law_first_error_is_returned(last.count(), last.history(), first, error);
        }
    }
    last
}

/// When a parent that stops its processes has told a group to stop, it tells
/// the next process only when every one of the group's processes has ended;
/// so all of a group stops before anything that was registered before it. `i`
/// is the group's place among those that were told.
pub proof fn law_group_stops_before_the_next<E: From<SupervisorError<E>> + Send + 'static>(
    parent: Supervision<E>,
    i: int,
    group: Supervisor<E>,
) -> (ending: (Supervision<E>, ProcResult<E>))
    requires
        parent.wf(),
        0 <= i < stops(parent.count(), parent.history()).len(),
        parent.registered()[stops(parent.count(), parent.history())[i] as int] == BoxedProc::of(
            group,
        ),
        i < stops(parent.count(), parent.history()).len() - 1 || parent.plan().next() is Cancel,
    ensures
        parent.exits().contains((stops(parent.count(), parent.history())[i], ending.1)),
        ending.0.wf(),
        ending.0.registered() == group@,
        forall|child: usize|
            child < group@.len() ==> #[trigger] ended(
                ending.0.count(),
                ending.0.history(),
                child,
            ),
        reports(failure_result(first_failure(ending.0.exits())), ending.1),
        forall|child: usize| child < group@.len() ==> #[trigger] ending.0.slot(child) is Ended,
{
    let number = stops(parent.count(), parent.history())[i];
    parent.law_keeps_to_plan();
    law_one_stop_at_a_time(parent.count(), parent.history(), i);
    lemma_stops_are_registered(parent.count(), parent.history(), i);
    let at = choose|at: int|
        0 <= at < parent.exits().len() && (#[trigger] parent.exits()[at]).0 == number;
    let outcome = parent.exits()[at].1;
    assert(parent.exits()[at] == (number, outcome));
    (law_group_ends_after_its_processes(parent, number, group, outcome), outcome)
}

proof fn lemma_was_started<E>(
    count: nat,
    events: Seq<Event<E>>,
    snapshots: Seq<Snapshot<E>>,
    number: usize,
) -> (then: int)
    requires
        count <= usize::MAX,
        possible(count, events),
        came_about(count, events, snapshots),
        snapshots[0].slots.len() == count,
        number < count,
        snapshots[0].slots[number as int] is Waiting,
        !(snapshots.last().slots[number as int] is Waiting),
    ensures
        0 <= then < snapshots.len(),
        snapshots[then].slots[number as int] is Started,
        started_from(
            snapshots[then].slots[number as int]->Started_0,
            snapshots[0].slots[number as int]->Waiting_0,
        ),
    decreases events.len(),
{
    let earlier = events.drop_last();
    let passed = snapshots.drop_last();
    law_plan_stays_wf(count, earlier);
    lemma_slots_stay(count, earlier, passed);
    if passed.last().slots[number as int] is Waiting {
        lemma_waits_unchanged(count, earlier, passed, number);
        snapshots.len() - 1
    } else {
        lemma_was_started(count, earlier, passed, number)
    }
}

/// A process that has ended was started from the process that was registered,
/// and ended with what the future resolves to that it was started as.
pub proof fn law_ends_as_it_was_started<E>(
    parent: Supervision<E>,
    number: usize,
    outcome: ProcResult<E>,
) -> (started: CancelableLocalFuture<E>)
    requires
        parent.wf(),
        number < parent.count(),
        parent.exits().contains((number, outcome)),
    ensures
        started_from(started, parent.registered()[number as int]),
        outcome == started.future@,
{
    let count = parent.count();
    let events = parent.history();
    let snapshots = parent.snapshots();
    parent.law_keeps_to_plan();
    law_each_process_ends_once(count, events);
    let at = parent.exits().index_of((number, outcome));
    assert(parent.exits()[at].0 == number);
    assert(ended(count, events, number) && !parent.plan().running.contains(number));
    assert(parent.slot(number) is Ended);
    let then = lemma_was_started(count, events, snapshots, number);
    law_ends_as_its_future(count, events, snapshots, then, number);
    let started = snapshots[then].slots[number as int]->Started_0;
    let same = parent.exits().index_of((number, started.future@));
    assert(parent.exits()[same].0 == number);
    started
}

/// A closure that has ended as a process was called with a signal of its own,
/// and ended with what the future resolves to that it returned.
pub proof fn law_closure_ends_as_it_returned<E, P, O>(
    parent: Supervision<E>,
    number: usize,
    proc: ProcFn<P, O>,
    outcome: ProcResult<E>,
) -> (called: (ShutdownSignal, O)) where
    O: Future<Output = ProcResult<E>> + Send + 'static,
    P: FnOnce(ShutdownSignal) -> O + Send + Sync + 'static,

    requires
        parent.wf(),
        number < parent.count(),
        parent.registered()[number as int] == BoxedProc::of(proc),
        parent.exits().contains((number, outcome)),
    ensures
        call_ensures(proc.closure(), (called.0,), called.1),
        !token_cancelled(called.0.source()),
        outcome == called.1@,
{
    let started = law_ends_as_it_was_started(parent, number, outcome);
    let signal = choose|signal: ShutdownSignal|
        {
            &&& derived_from(signal.source(), started.cancel_token)
            &&& !token_cancelled(signal.source())
            &&& !signal.listening()
            &&& !signal.fired()
            &&& #[trigger] BoxedProc::of(proc).starts(signal, started.future)
        };
    law_closure_in_a_box(proc, signal, started.future);
    (signal, law_closure_is_called(proc, signal, started.future))
}

} // verus!
