//! What the record of a supervision says was really done: each event, by what
//! the supervision held before it and after it, and each poll of a run, by
//! what came of it.
use crate::conduct::{
    law_first_error_is_returned, law_rests_after_a_whole_round, law_stops_for_a_cause,
    law_success_without_an_error, law_what_is_done_first, law_what_is_done_next,
    law_what_is_done_to_stop, lemma_done_starting, lemma_possible_so_far,
};
use crate::error::ProcResult;
use crate::history::{law_plan_stays_wf, lemma_first_events, possible, replay};
use crate::plan::{Action, Event};
use crate::proc::BoxedProc;
use crate::signal::{law_what_a_poll_brings, lemma_not_listening, ShutdownSignal};
use crate::supervision::{
    asked, came_about, happens, law_every_event_came_about, lemma_slots_told, RunFuture, Shutdown,
    Slot, Snapshot, Supervision,
};
use crate::trusted::{awaited_token, derived_from, made_by_new, token_cancelled, token_lineage};
use core::task::Poll;
use futures::task::FutureObj;
use vstd::prelude::*;

verus! {

/// The beginning of a record is a record.
proof fn lemma_came_about_so_far<E>(
    count: nat,
    events: Seq<Event<E>>,
    snapshots: Seq<Snapshot<E>>,
    k: int,
)
    requires
        came_about(count, events, snapshots),
        0 <= k <= events.len(),
    ensures
        came_about(count, events.take(k), snapshots.take(k + 1)),
    decreases events.len(),
{
    if k < events.len() {
        lemma_came_about_so_far(count, events.drop_last(), snapshots.drop_last(), k);
        assert(events.drop_last().take(k) == events.take(k));
        assert(snapshots.drop_last().take(k + 1) == snapshots.take(k + 1));
    } else {
        assert(events.take(k) == events);
        assert(snapshots.take(k + 1) == snapshots);
    }
}

/// What a supervision held before its `k`-th event, and what it did then.
proof fn lemma_at<E>(supervision: Supervision<E>, k: int)
    requires
        supervision.wf(),
        0 <= k <= supervision.history().len(),
    ensures
        ({
            let count = supervision.count();
            let so_far = supervision.history().take(k);
            let plan = replay(count, so_far);
            let slots = supervision.snapshots()[k].slots;
            &&& count <= usize::MAX
            &&& supervision.snapshots().len() == supervision.history().len() + 1
            &&& possible(count, so_far)
            &&& plan.wf()
            &&& plan.count == count
            &&& slots.len() == count
            &&& forall|number: usize|
                number < count ==> match #[trigger] slots[number as int] {
                    Slot::Waiting(_) => k <= number + 1,
                    Slot::Started(started) => {
                        &&& plan.running.contains(number)
                        &&& made_by_new(started.cancel_token)
                        &&& token_lineage(started.cancel_token).len() == 1
                        &&& token_cancelled(started.cancel_token) <==> (plan.stage is Draining
                            || plan.stage is Waiting) && number == plan.running.last()
                    },
                    Slot::Ended => k > count && !plan.running.contains(number),
                }
            &&& k < supervision.history().len() ==> {
                &&& happens(
                    plan.next(),
                    supervision.snapshots()[k],
                    supervision.history()[k],
                    supervision.snapshots()[k + 1],
                )
                &&& plan.expects(supervision.history()[k])
                &&& supervision.snapshots()[k + 1].slots.len() == count
            }
        }),
{
    let count = supervision.count();
    let events = supervision.history();
    let snapshots = supervision.snapshots();
    supervision.law_keeps_to_plan();
    lemma_possible_so_far(count, events, k);
    lemma_came_about_so_far(count, events, snapshots, k);
    law_plan_stays_wf(count, events.take(k));
    assert(snapshots.take(k + 1)[0] == snapshots[0]);
    assert(snapshots.take(k + 1).last() == snapshots[k]);
    lemma_slots_told(count, events.take(k), snapshots.take(k + 1));
    if k < events.len() {
        law_every_event_came_about(count, events, snapshots, k);
        lemma_possible_so_far(count, events, k + 1);
        assert(events.take(k + 1).drop_last() == events.take(k));
        assert(events.take(k + 1).last() == events[k]);
        lemma_came_about_so_far(count, events, snapshots, k + 1);
        assert(snapshots.take(k + 2)[0] == snapshots[0]);
        assert(snapshots.take(k + 2).last() == snapshots[k + 1]);
        lemma_slots_told(count, events.take(k + 1), snapshots.take(k + 2));
    }
}

/// A run that waits to be polled for the first time holds the processes as
/// they were registered, none of them started, and the shutdown that it was
/// given.
pub proof fn law_a_run_begins<E>(
    run: RunFuture<E>,
    procs: Seq<BoxedProc<E>>,
    shutdown: Shutdown,
)
    requires
        run.waiting() == Some((procs, shutdown)),
    ensures
        run.supervision() matches Some(begun) && {
            &&& begun.wf()
            &&& begun.history().len() == 0
            &&& begun.snapshots().len() == 1
            &&& begun.count() == procs.len()
            &&& begun.snapshots()[0].shutdown == shutdown
            &&& begun.snapshots()[0].slots.len() == procs.len()
            &&& forall|i: int|
                0 <= i < procs.len() ==> #[trigger] begun.snapshots()[0].slots[i] == Slot::Waiting(
                    procs[i],
                )
        },
{
    let begun = run.supervision()->0;
    begun.law_keeps_to_plan();
    assert forall|i: int| 0 <= i < procs.len() implies #[trigger] begun.snapshots()[0].slots[i]
        == Slot::Waiting(procs[i]) by {
        assert(begun.registered()[i] == procs[i]);
    }
}

/// Being woken changes nothing of what is held.
pub proof fn law_a_wake_is_just_that<E>(supervision: Supervision<E>, k: int)
    requires
        supervision.wf(),
        0 <= k < supervision.history().len(),
        supervision.history()[k] is Woken,
    ensures
        supervision.snapshots()[k + 1] == supervision.snapshots()[k],
{
    lemma_at(supervision, k);
}

/// The `k`-th event, where it starts a process, starts the one of number
/// `k - 1`, as it was registered, with a signal that was never polled, on a
/// child of a token of its own. That token was made after those of all
/// processes started before, and neither of the two is known to be cancelled.
/// Nothing else changes.
pub proof fn law_a_start_is_real<E>(supervision: Supervision<E>, k: int) -> (signal: ShutdownSignal)
    requires
        supervision.wf(),
        0 <= k < supervision.history().len(),
        supervision.history()[k] is Started,
    ensures
        1 <= k <= supervision.count(),
        ({
            let number = k - 1;
            let before = supervision.snapshots()[k];
            let after = supervision.snapshots()[k + 1];
            &&& before.slots.len() == supervision.count()
            &&& after.slots.len() == supervision.count()
            &&& before.slots[number] == supervision.snapshots()[0].slots[number]
            &&& before.slots[number] matches Slot::Waiting(proc)
            &&& after.slots[number] matches Slot::Started(started)
            &&& proc.inner.starts(signal, started.future)
            &&& token_lineage(signal.source()).len() == 2
            &&& token_lineage(signal.source()).drop_last() == token_lineage(started.cancel_token)
            &&& made_by_new(started.cancel_token)
            &&& !token_cancelled(started.cancel_token)
            &&& !token_cancelled(signal.source())
            &&& signal.held() is None
            &&& forall|i: int|
                0 <= i < before.slots.len() && #[trigger] before.slots[i] is Started
                    ==> token_lineage(started.cancel_token).last() > token_lineage(
                    before.slots[i]->Started_0.cancel_token,
                ).last()
            &&& forall|i: int|
                0 <= i < before.slots.len() && i != number ==> #[trigger] after.slots[i]
                    == before.slots[i]
            &&& after.shutdown == before.shutdown
        }),
{
    let count = supervision.count();
    lemma_at(supervision, k);
    if k > count {
        lemma_done_starting(count, supervision.history().take(k));
    } else {
        law_what_is_done_first(count, supervision.history().take(k));
    }
    let number = k - 1;
    let proc = supervision.snapshots()[k].slots[number]->Waiting_0;
    let started = supervision.snapshots()[k + 1].slots[number]->Started_0;
    lemma_waits_until_started(supervision, k, number as usize);
    let signal = choose|signal: ShutdownSignal|
        {
            &&& derived_from(signal.source(), started.cancel_token)
            &&& !token_cancelled(signal.source())
            &&& !signal.listening()
            &&& !signal.fired()
            &&& #[trigger] proc.starts(signal, started.future)
        };
    lemma_not_listening(signal);
    signal
}

/// A process waits as it was registered until its turn to be started.
proof fn lemma_waits_until_started<E>(supervision: Supervision<E>, k: int, number: usize)
    requires
        supervision.wf(),
        0 <= k <= supervision.history().len(),
        k <= number + 1 <= supervision.count(),
    ensures
        supervision.snapshots()[k].slots[number as int]
            == supervision.snapshots()[0].slots[number as int],
    decreases k,
{
    if k > 0 {
        lemma_at(supervision, k - 1);
        law_what_is_done_first(supervision.count(), supervision.history().take(k - 1));
        lemma_waits_until_started(supervision, k - 1, number);
    }
}

/// A poll for the shutdown asks the very future, or the very signal, that is
/// held, and what that leaves is held from then on; only a future that was
/// ready is let go. Nothing else changes.
pub proof fn law_a_shutdown_poll_is_real<E>(supervision: Supervision<E>, k: int, ready: bool)
    requires
        supervision.wf(),
        0 <= k < supervision.history().len(),
        supervision.history()[k] == Event::<E>::Shutdown(ready),
    ensures
        supervision.snapshots()[k + 1].slots == supervision.snapshots()[k].slots,
        match supervision.snapshots()[k].shutdown {
            Shutdown::Future(future) => if ready {
                &&& asked(future, Ok(()))
                &&& supervision.snapshots()[k + 1].shutdown is Heard
            } else {
                &&& supervision.snapshots()[k + 1].shutdown matches Shutdown::Future(rest)
                &&& asked(future, Err(rest))
            },
            Shutdown::Signal(signal) => {
                &&& supervision.snapshots()[k + 1].shutdown matches Shutdown::Signal(after)
                &&& after.source() == signal.source()
                &&& after.held() is Some
                &&& ready <==> token_cancelled(awaited_token(after.held()->0))
                &&& token_cancelled(signal.source()) ==> ready
                &&& signal.polls_to(
                    after,
                    if ready {
                        Poll::Ready(())
                    } else {
                        Poll::Pending
                    },
                )
            },
            Shutdown::Heard => ready && supervision.snapshots()[k + 1].shutdown is Heard,
        },
{
    lemma_at(supervision, k);
    if let Shutdown::Signal(signal) = supervision.snapshots()[k].shutdown {
        let after = supervision.snapshots()[k + 1].shutdown->Signal_0;
        let polled: Poll<()> = if ready {
            Poll::Ready(())
        } else {
            Poll::Pending
        };
        law_what_a_poll_brings(signal, after, polled);
    }
}

/// As long as a shutdown future was not ready, the supervision holds what the
/// polls left of the very future that it was given, one after the other, and
/// polls that again. `held` are those futures up to the `k`-th snapshot.
pub proof fn law_the_shutdown_future_is_held<E>(
    supervision: Supervision<E>,
    given: FutureObj<'static, ()>,
    k: int,
) -> (held: Seq<FutureObj<'static, ()>>)
    requires
        supervision.wf(),
        supervision.snapshots()[0].shutdown == Shutdown::Future(given),
        0 <= k < supervision.snapshots().len(),
    ensures
        held.len() > 0,
        held[0] == given,
        forall|i: int|
            0 < i < held.len() ==> asked(
                held[i - 1],
                Result::<(), FutureObj<'static, ()>>::Err(#[trigger] held[i]),
            ),
        match supervision.snapshots()[k].shutdown {
            Shutdown::Future(now) => now == held[held.len() - 1],
            Shutdown::Heard => asked(
                held[held.len() - 1],
                Result::<(), FutureObj<'static, ()>>::Ok(()),
            ),
            Shutdown::Signal(_) => false,
        },
        supervision.snapshots()[k].shutdown is Heard <==> exists|i: int|
            0 <= i < k && #[trigger] supervision.history()[i] == Event::<E>::Shutdown(true),
    decreases k,
{
    lemma_at(supervision, 0);
    if k == 0 {
        Seq::empty().push(given)
    } else {
        let held = law_the_shutdown_future_is_held(supervision, given, k - 1);
        let event = supervision.history()[k - 1];
        lemma_at(supervision, k - 1);
        let before = supervision.snapshots()[k - 1].shutdown;
        let after = supervision.snapshots()[k].shutdown;
        if let Event::Shutdown(ready) = event {
            law_a_shutdown_poll_is_real(supervision, k - 1, ready);
            if !ready && before is Future {
                held.push(after->Future_0)
            } else {
                held
            }
        } else {
            held
        }
    }
}

/// Which process was polled with the `k`-th event, and what came of that: its
/// own future was asked, and it holds what that left, or has ended with what
/// that brought. Nothing else changes.
///
/// Once the shutdown was found ready or a process ended with an error, that is
/// the running process that was registered last, and it has been told to stop.
pub proof fn law_a_poll_is_real<E>(
    supervision: Supervision<E>,
    k: int,
    polled: Poll<ProcResult<E>>,
) -> (number: usize)
    requires
        supervision.wf(),
        0 <= k < supervision.history().len(),
        supervision.history()[k] == Event::Polled(polled),
    ensures
        k > supervision.count(),
        number < supervision.count(),
        replay(supervision.count(), supervision.history().take(k)).next() == Action::PollProc(
            number,
        ),
        ({
            let before = supervision.snapshots()[k];
            let after = supervision.snapshots()[k + 1];
            &&& before.slots.len() == supervision.count()
            &&& after.slots.len() == supervision.count()
            &&& before.slots[number as int] matches Slot::Started(running)
            &&& match polled {
                Poll::Pending => {
                    &&& after.slots[number as int] matches Slot::Started(rest)
                    &&& asked(running.future, Err(rest.future))
                    &&& rest.cancel_token == running.cancel_token
                },
                Poll::Ready(result) => {
                    &&& after.slots[number as int] is Ended
                    &&& asked(running.future, Ok(result))
                },
            }
            &&& forall|i: int|
                0 <= i < before.slots.len() && i != number ==> #[trigger] after.slots[i]
                    == before.slots[i]
            &&& after.shutdown == before.shutdown
            &&& (exists|cause: int|
                0 <= cause < k && ((#[trigger] supervision.history()[cause]) == Event::<
                    E,
                >::Shutdown(true) || (supervision.history()[cause] matches Event::Polled(
                    Poll::Ready(Err(_)),
                )))) ==> {
                &&& token_cancelled(running.cancel_token)
                &&& forall|i: int|
                    number < i < before.slots.len() ==> !(#[trigger] before.slots[i] is Started)
            }
        }),
{
    let count = supervision.count();
    let so_far = supervision.history().take(k);
    let plan = replay(count, so_far);
    lemma_at(supervision, k);
    if k <= count {
        law_what_is_done_first(count, so_far);
    }
    let number = plan.next()->PollProc_0;
    assert(plan.stage is Draining ==> plan.running[plan.running.len() - 1] == number);
    let before = supervision.snapshots()[k];
    assert(before.slots[number as int] is Started);
    if exists|cause: int|
        0 <= cause < k && ((#[trigger] supervision.history()[cause]) == Event::<E>::Shutdown(true)
            || (supervision.history()[cause] matches Event::Polled(Poll::Ready(Err(_))))) {
        let cause = choose|cause: int|
            0 <= cause < k && ((#[trigger] supervision.history()[cause]) == Event::<
                E,
            >::Shutdown(true) || (supervision.history()[cause] matches Event::Polled(
                Poll::Ready(Err(_)),
            )));
        assert(so_far[cause] == supervision.history()[cause]);
        law_stops_for_a_cause(count, so_far);
        assert forall|i: int| number < i < before.slots.len() implies !(
        #[trigger] before.slots[i] is Started) by {
            let other = i as usize;
            if before.slots[other as int] is Started {
                let at = plan.running.index_of(other);
                assert(plan.running[at] == other);
                assert(at <= plan.running.len() - 1);
            }
        }
    }
    number
}

/// Which process was told to stop with the `k`-th event: the running one that
/// was registered last, and only once the shutdown was found ready or a process
/// ended with an error. Its own token is cancelled, which had not been, and
/// nothing else changes.
pub proof fn law_a_stop_is_real<E>(supervision: Supervision<E>, k: int) -> (stopped: (int, usize))
    requires
        supervision.wf(),
        0 <= k < supervision.history().len(),
        supervision.history()[k] is Cancelled,
    ensures
        0 <= stopped.0 < k,
        supervision.history()[stopped.0] == Event::<E>::Shutdown(true) || (
        supervision.history()[stopped.0] matches Event::Polled(Poll::Ready(Err(_)))),
        stopped.1 < supervision.count(),
        ({
            let number = stopped.1 as int;
            let before = supervision.snapshots()[k];
            let after = supervision.snapshots()[k + 1];
            &&& before.slots.len() == supervision.count()
            &&& after.slots.len() == supervision.count()
            &&& before.slots[number] matches Slot::Started(running)
            &&& after.slots[number] matches Slot::Started(told)
            &&& !token_cancelled(running.cancel_token)
            &&& token_cancelled(told.cancel_token)
            &&& made_by_new(told.cancel_token)
            &&& token_lineage(told.cancel_token) == token_lineage(running.cancel_token)
            &&& told.future == running.future
            &&& forall|i: int|
                number < i < before.slots.len() ==> !(#[trigger] before.slots[i] is Started)
            &&& forall|i: int|
                0 <= i < before.slots.len() && i != number ==> #[trigger] after.slots[i]
                    == before.slots[i]
            &&& after.shutdown == before.shutdown
        }),
{
    let count = supervision.count();
    let so_far = supervision.history().take(k);
    let plan = replay(count, so_far);
    lemma_at(supervision, k);
    law_stops_for_a_cause(count, so_far);
    let number = plan.next()->Cancel_0;
    assert(plan.running[plan.running.len() - 1] == number);
    let before = supervision.snapshots()[k];
    assert(before.slots[number as int] is Started);
    let cause = choose|cause: int|
        0 <= cause < so_far.len() && ((#[trigger] so_far[cause]) == Event::<E>::Shutdown(true) || (
        so_far[cause] matches Event::Polled(Poll::Ready(Err(_)))));
    assert(so_far[cause] == supervision.history()[cause]);
    assert forall|i: int| number < i < before.slots.len() implies !(
    #[trigger] before.slots[i] is Started) by {
        let other = i as usize;
        if before.slots[other as int] is Started {
            let at = plan.running.index_of(other);
            assert(plan.running[at] == other);
            assert(at <= plan.running.len() - 1);
        }
    }
    (cause, number)
}

/// A poll that brings nothing yet has woken the supervision once, and what
/// came before stands. All processes have been started, and one at least has
/// not ended, of which this returns the number: a run whose processes have all
/// ended hands out its result.
pub proof fn law_a_run_goes_on<E>(run: RunFuture<E>, after: RunFuture<E>) -> (running: usize)
    requires
        run.polls_to(after, Poll::Pending),
        run.supervision() is Some,
    ensures
        after.supervision() is Some,
        ({
            let before = run.supervision()->0;
            let now = after.supervision()->0;
            &&& now.wf()
            &&& now.count() == before.count()
            &&& now.history().len() > before.history().len()
            &&& forall|i: int|
                0 <= i < before.history().len() ==> #[trigger] now.history()[i]
                    == before.history()[i]
            &&& forall|i: int|
                0 <= i < before.snapshots().len() ==> #[trigger] now.snapshots()[i]
                    == before.snapshots()[i]
            &&& now.history()[before.history().len() as int] is Woken
            &&& forall|i: int|
                before.history().len() < i < now.history().len() ==> !(
                #[trigger] now.history()[i] is Woken)
            &&& now.snapshots().len() == now.history().len() + 1
            &&& now.snapshots()[now.snapshots().len() - 1] == now.snapshot()
            &&& running < now.count()
            &&& now.slot(running) is Started
            &&& forall|number: usize|
                number < now.count() ==> !(#[trigger] now.slot(number) is Waiting)
        }),
{
    let now = after.supervision()->0;
    let n = now.history().len() as int;
    let plan = replay(now.count(), now.history());
    now.law_keeps_to_plan();
    lemma_at(now, n);
    assert(now.history().take(n) == now.history());
    if n <= now.count() {
        law_what_is_done_first(now.count(), now.history());
    }
    lemma_some_runs(now);
    assert forall|number: usize| number < now.count() implies !(
    #[trigger] now.slot(number) is Waiting) by {
        assert(now.slot(number) == now.snapshots()[n].slots[number as int]);
    }
    let running = plan.running[0];
    assert(plan.running.contains(running));
    assert(now.slot(running) == now.snapshots()[n].slots[running as int]);
    running
}

/// A supervision that rests after it was woken has a process that runs.
proof fn lemma_some_runs<E>(now: Supervision<E>)
    requires
        now.wf(),
        now.history().len() > 0,
        now.plan().next() is Rest,
    ensures
        now.history().len() > now.count(),
        now.plan().running.len() > 0,
        forall|number: usize| #[trigger]
            now.plan().running.contains(number) ==> number < now.count() && now.slot(
                number,
            ) is Started,
{
    let count = now.count();
    let events = now.history();
    let n = events.len() as int;
    now.law_keeps_to_plan();
    lemma_at(now, n);
    assert(events.take(n) == events);
    if n <= count {
        law_what_is_done_first(count, events);
    }
    law_stops_for_a_cause(count, events);
    if now.plan().stage is Halting || now.plan().stage is Draining || now.plan().stage is Waiting {
        let cause = choose|i: int|
            0 <= i < events.len() && ((#[trigger] events[i]) == Event::<E>::Shutdown(true) || (
            events[i] matches Event::Polled(Poll::Ready(Err(_)))));
        law_what_is_done_to_stop(count, events, cause);
    } else {
        law_what_is_done_next(count, events);
    }
    assert forall|number: usize| #[trigger] now.plan().running.contains(number) implies number
        < count && now.slot(number) is Started by {
        let at = now.plan().running.index_of(number);
        assert(now.plan().running[at] == number);
        assert(now.slot(number) == now.snapshots()[n].slots[number as int]);
    }
}

/// A poll that brings nothing yet, while the shutdown was never found ready and
/// no process ended with an error, has polled for the shutdown, which was not
/// ready, and after that every process that runs, none of which was. `number`
/// is any process that runs; this returns the places of the two polls among
/// the events.
pub proof fn law_rests_with_all_asked<E>(
    run: RunFuture<E>,
    after: RunFuture<E>,
    number: usize,
) -> (at: (int, int))
    requires
        run.polls_to(after, Poll::Pending),
        run.supervision() is Some,
        number < after.supervision()->0.count(),
        after.supervision()->0.slot(number) is Started,
        forall|i: int|
            0 <= i < after.supervision()->0.history().len() ==> (
            #[trigger] after.supervision()->0.history()[i]) != Event::<E>::Shutdown(true) && !(
            after.supervision()->0.history()[i] matches Event::Polled(Poll::Ready(Err(_)))),
    ensures
        ({
            let now = after.supervision()->0;
            let before = now.snapshots()[at.1].slots[number as int];
            let then = now.snapshots()[at.1 + 1].slots[number as int];
            &&& run.supervision()->0.history().len() < at.0 < at.1 < now.history().len()
            &&& now.history()[at.0] == Event::<E>::Shutdown(false)
            &&& forall|i: int|
                at.0 < i < now.history().len() ==> #[trigger] now.history()[i] == Event::<
                    E,
                >::Polled(Poll::Pending)
            &&& before is Started
            &&& then is Started
            &&& asked(before->Started_0.future, Err(then->Started_0.future))
        }),
{
    let before = run.supervision()->0;
    let now = after.supervision()->0;
    let count = now.count();
    let events = now.history();
    let n = events.len() as int;
    law_a_run_goes_on(run, after);
    now.law_keeps_to_plan();
    lemma_at(now, n);
    assert(events.take(n) == events);
    law_rests_after_a_whole_round(count, events);
    let running = replay(count, events).running;
    let begin = n - running.len();
    assert(now.slot(number) == now.snapshots()[n].slots[number as int]);
    let i = running.index_of(number);
    assert(running[i] == number);
    let k = begin + i;
    assert(events[begin + i] == Event::<E>::Polled(Poll::Pending));
    let polled = law_a_poll_is_real(now, k, Poll::Pending);
    assert(polled == number);
    assert forall|j: int| begin - 1 < j < n implies #[trigger] events[j] == Event::<E>::Polled(
        Poll::Pending,
    ) by {
        assert(events[begin + (j - begin)] == Event::<E>::Polled(Poll::Pending));
    }
    if begin - 1 <= before.history().len() {
        let wake = before.history().len() as int;
        assert(events[wake] is Woken);
    }
    (begin - 1, k)
}

/// A poll that brings nothing yet, once the shutdown was found ready or a
/// process ended with an error, has last polled the running process that was
/// registered last, which has been told to stop and was not ready. `cause` is
/// the place of what made it stop; this returns the process's number.
pub proof fn law_rests_on_the_told<E>(
    run: RunFuture<E>,
    after: RunFuture<E>,
    cause: int,
) -> (number: usize)
    requires
        run.polls_to(after, Poll::Pending),
        run.supervision() is Some,
        0 <= cause < after.supervision()->0.history().len(),
        after.supervision()->0.history()[cause] == Event::<E>::Shutdown(true) || (
        after.supervision()->0.history()[cause] matches Event::Polled(Poll::Ready(Err(_)))),
    ensures
        ({
            let now = after.supervision()->0;
            let last = now.history().len() - 1;
            &&& run.supervision()->0.history().len() < last
            &&& now.history()[last] == Event::<E>::Polled(Poll::Pending)
            &&& number < now.count()
            &&& now.slot(number) is Started
            &&& token_cancelled(now.slot(number)->Started_0.cancel_token)
            &&& forall|other: usize|
                number < other < now.count() ==> !(#[trigger] now.slot(other) is Started)
            &&& now.snapshots()[last].slots[number as int] is Started
            &&& asked(
                now.snapshots()[last].slots[number as int]->Started_0.future,
                Err(now.slot(number)->Started_0.future),
            )
        }),
{
    let now = after.supervision()->0;
    let count = now.count();
    let events = now.history();
    let n = events.len() as int;
    law_a_run_goes_on(run, after);
    now.law_keeps_to_plan();
    lemma_at(now, n);
    lemma_some_runs(now);
    assert(events.take(n) == events);
    law_what_is_done_to_stop(count, events, cause);
    let plan = replay(count, events);
    let number = plan.running[plan.running.len() - 1];
    assert(plan.running.contains(number));
    law_stops_for_a_cause(count, events);
    lemma_possible_so_far(count, events, n - 1);
    assert(events.take(n - 1) == events.drop_last());
    let polled = law_a_poll_is_real(now, n - 1, Poll::Pending);
    assert(polled == number);
    assert forall|other: usize| number < other < count implies !(
    #[trigger] now.slot(other) is Started) by {
        assert(now.slot(other) == now.snapshots()[n].slots[other as int]);
        if now.slot(other) is Started {
            let at = plan.running.index_of(other);
            assert(plan.running[at] == other);
        }
    }
    assert(now.slot(number) == now.snapshots()[n].slots[number as int]);
    number
}

/// A poll that hands out a result has woken the supervision once, what came
/// before stands, and every process has ended. The result is the first error
/// that a process ended with, whatever the others ended with, and success if
/// none ended with one.
pub proof fn law_a_run_ends<E>(
    run: RunFuture<E>,
    after: RunFuture<E>,
    result: ProcResult<E>,
) -> (last: Supervision<E>)
    requires
        run.polls_to(after, Poll::Ready(result)),
    ensures
        run.supervision() is Some,
        after.supervision() is None,
        ({
            let before = run.supervision()->0;
            &&& last.wf()
            &&& last.count() == before.count()
            &&& last.history().len() > before.history().len()
            &&& forall|i: int|
                0 <= i < before.history().len() ==> #[trigger] last.history()[i]
                    == before.history()[i]
            &&& forall|i: int|
                0 <= i < before.snapshots().len() ==> #[trigger] last.snapshots()[i]
                    == before.snapshots()[i]
            &&& last.history()[before.history().len() as int] is Woken
            &&& forall|i: int|
                before.history().len() < i < last.history().len() ==> !(
                #[trigger] last.history()[i] is Woken)
            &&& last.snapshots().len() == last.history().len() + 1
            &&& last.snapshots()[last.snapshots().len() - 1] == last.snapshot()
            &&& forall|number: usize|
                number < last.count() ==> #[trigger] last.slot(number) is Ended
            &&& (forall|j: int|
                0 <= j < last.history().len() ==> !((
                #[trigger] last.history()[j]) matches Event::Polled(Poll::Ready(Err(_))))) ==> result
                == ProcResult::<E>::Ok(())
            &&& forall|first: int|
                0 <= first < last.history().len() && (forall|j: int|
                    0 <= j < first ==> !((#[trigger] last.history()[j]) matches Event::Polled(
                        Poll::Ready(Err(_)),
                    ))) ==> match #[trigger] last.history()[first] {
                    Event::Polled(Poll::Ready(Err(error))) => result == ProcResult::<E>::Err(error),
                    _ => true,
                }
        }),
{
    let last = choose|last: Supervision<E>| #[trigger]
        run.supervision()->0.returns_at(last) && result == last.plan().result();
    lemma_all_ended(last);
    last.law_keeps_to_plan();
    if forall|j: int|
        0 <= j < last.history().len() ==> !((#[trigger] last.history()[j]) matches Event::Polled(
            Poll::Ready(Err(_)),
        )) {
        law_success_without_an_error(last.count(), last.history());
    }
    assert forall|first: int|
        0 <= first < last.history().len() && (forall|j: int|
            0 <= j < first ==> !((#[trigger] last.history()[j]) matches Event::Polled(
                Poll::Ready(Err(_)),
            ))) implies match #[trigger] last.history()[first] {
        Event::Polled(Poll::Ready(Err(error))) => result == ProcResult::<E>::Err(error),
        _ => true,
    } by {
        if let Event::Polled(Poll::Ready(Err(error))) = last.history()[first] {
            law_first_error_is_returned(last.count(), last.history(), first, error);
        }
    }
    last
}

/// When a supervision returns, every process has ended.
pub(crate) proof fn lemma_all_ended<E>(last: Supervision<E>)
    requires
        last.wf(),
        last.plan().next() is Return,
    ensures
        forall|number: usize| number < last.count() ==> #[trigger] last.slot(number) is Ended,
{
    let count = last.count();
    let events = last.history();
    let n = events.len() as int;
    last.law_keeps_to_plan();
    lemma_at(last, n);
    assert(events.take(n) == events);
    if n <= count {
        law_what_is_done_first(count, events);
    }
    assert forall|number: usize| number < count implies #[trigger] last.slot(number) is Ended by {
        assert(last.slot(number) == last.snapshots()[n].slots[number as int]);
        assert(last.plan().running.len() == 0);
    }
}

/// A shutdown that is known to have been requested before a poll is heard with
/// that poll, unless every process has ended: the run then stops its processes.
/// `number` is one that has not ended, and `polled` is what the poll brings.
/// This returns the supervision that the poll leads to, and the place of what
/// made it stop.
pub proof fn law_a_known_shutdown_is_heard<E>(
    run: RunFuture<E>,
    after: RunFuture<E>,
    polled: Poll<ProcResult<E>>,
    number: usize,
) -> (heard: (Supervision<E>, int))
    requires
        run.polls_to(after, polled),
        run.supervision() is Some,
        run.supervision()->0.wf(),
        number < run.supervision()->0.count(),
        !(run.supervision()->0.slot(number) is Ended),
        match run.supervision()->0.shutdown() {
            Shutdown::Heard => true,
            Shutdown::Signal(signal) => token_cancelled(signal.source()),
            Shutdown::Future(_) => false,
        },
    ensures
        polled is Pending ==> after.supervision() == Some(heard.0),
        heard.0.wf(),
        heard.0.history().len() > run.supervision()->0.history().len(),
        0 <= heard.1 < heard.0.history().len(),
        heard.0.history()[heard.1] == Event::<E>::Shutdown(true) || (
        heard.0.history()[heard.1] matches Event::Polled(Poll::Ready(Err(_)))),
{
    let before = run.supervision()->0;
    let count = before.count();
    let n = before.history().len() as int;
    let now = match polled {
        Poll::Pending => after.supervision()->0,
        Poll::Ready(result) => choose|last: Supervision<E>| #[trigger]
            before.returns_at(last) && result == last.plan().result(),
    };
    before.law_keeps_to_plan();
    lemma_at(before, n);
    assert(before.history().take(n) == before.history());
    assert(before.slot(number) == before.snapshots()[n].slots[number as int]);
    if before.slot(number) is Started {
        assert(before.plan().running.contains(number));
        assert(before.plan().running.len() > 0);
    } else {
        lemma_first_events(count, before.history());
    }
    assert(before.busy());
    now.law_keeps_to_plan();
    law_stops_for_a_cause(now.count(), now.history());
    let cause = choose|i: int|
        0 <= i < now.history().len() && ((#[trigger] now.history()[i]) == Event::<E>::Shutdown(true)
            || (now.history()[i] matches Event::Polled(Poll::Ready(Err(_)))));
    (now, cause)
}

} // verus!
