//! Whole runs of a plan, and the laws that hold of all of them.
use crate::error::{failure_result, ProcResult, SupervisorError};
use crate::plan::{Action, Event, PlanView, Stage};
use core::task::Poll;
use vstd::prelude::*;

verus! {

/// The plan for `count` processes after the events.
pub open spec fn replay<E>(count: nat, events: Seq<Event<E>>) -> PlanView<E>
    decreases events.len(),
{
    if events.len() == 0 {
        PlanView::start(count)
    } else {
        replay(count, events.drop_last()).step(events.last())
    }
}

/// Whether the events can come about with `count` processes: each came of
/// what the plan said was to be done next.
pub open spec fn possible<E>(count: nat, events: Seq<Event<E>>) -> bool
    decreases events.len(),
{
    events.len() > 0 ==> {
        &&& possible(count, events.drop_last())
        &&& replay(count, events.drop_last()).expects(events.last())
    }
}

/// The processes that were started, first to last.
pub open spec fn starts<E>(count: nat, events: Seq<Event<E>>) -> Seq<usize>
    decreases events.len(),
{
    if events.len() == 0 {
        Seq::empty()
    } else {
        let earlier = starts(count, events.drop_last());
        match (events.last(), replay(count, events.drop_last()).next()) {
            (Event::Started, Action::Start(number)) => earlier.push(number),
            _ => earlier,
        }
    }
}

/// The processes that were told to stop, first to last.
pub open spec fn stops<E>(count: nat, events: Seq<Event<E>>) -> Seq<usize>
    decreases events.len(),
{
    if events.len() == 0 {
        Seq::empty()
    } else {
        let earlier = stops(count, events.drop_last());
        match (events.last(), replay(count, events.drop_last()).next()) {
            (Event::Cancelled, Action::Cancel(number)) => earlier.push(number),
            _ => earlier,
        }
    }
}

/// The processes that have ended, first to last, each with its result.
pub open spec fn exits<E>(count: nat, events: Seq<Event<E>>) -> Seq<(usize, ProcResult<E>)>
    decreases events.len(),
{
    if events.len() == 0 {
        Seq::empty()
    } else {
        let earlier = exits(count, events.drop_last());
        match (events.last(), replay(count, events.drop_last()).next()) {
            (Event::Polled(Poll::Ready(result)), Action::PollProc(number)) => earlier.push(
                (number, result),
            ),
            _ => earlier,
        }
    }
}

/// The first failure among the results.
pub open spec fn first_failure<E>(exits: Seq<(usize, ProcResult<E>)>) -> Option<SupervisorError<E>>
    decreases exits.len(),
{
    if exits.len() == 0 {
        None
    } else {
        match (first_failure(exits.drop_last()), exits.last().1) {
            (None, Err(error)) => Some(error),
            (earlier, _) => earlier,
        }
    }
}

/// How a run goes on by one more event.
pub(crate) proof fn lemma_one_more<E>(count: nat, events: Seq<Event<E>>, event: Event<E>)
    ensures
        replay(count, events.push(event)) == replay(count, events).step(event),
        possible(count, events.push(event)) <==> possible(count, events) && replay(
            count,
            events,
        ).expects(event),
        exits(count, events.push(event)) == match (event, replay(count, events).next()) {
            (Event::Polled(Poll::Ready(result)), Action::PollProc(number)) => exits(
                count,
                events,
            ).push((number, result)),
            _ => exits(count, events),
        },
        shutdown_came(events.push(event)) <==> shutdown_came(events) || event == Event::<
            E,
        >::Shutdown(true),
{
    let more = events.push(event);
    assert(more.drop_last() == events);
    if shutdown_came(events) {
        let i = choose|i: int|
            0 <= i < events.len() && #[trigger] events[i] == Event::<E>::Shutdown(true);
        assert(more[i] == Event::<E>::Shutdown(true));
    }
    if event == Event::<E>::Shutdown(true) {
        assert(more[events.len() as int] == Event::<E>::Shutdown(true));
    }
    if shutdown_came(more) && event != Event::<E>::Shutdown(true) {
        let i = choose|i: int|
            0 <= i < more.len() && #[trigger] more[i] == Event::<E>::Shutdown(true);
        assert(events[i] == Event::<E>::Shutdown(true));
    }
}

/// A plan keeps to its rules throughout every run; among these is that no
/// process comes to run that was not registered.
pub proof fn law_plan_stays_wf<E>(count: nat, events: Seq<Event<E>>)
    requires
        count <= usize::MAX,
        possible(count, events),
    ensures
        replay(count, events).wf(),
        replay(count, events).count == count,
    decreases events.len(),
{
    if events.len() > 0 {
        law_plan_stays_wf(count, events.drop_last());
    }
}

/// The running processes are always in the order of their registration,
/// whichever of them have ended.
pub proof fn law_registration_order<E>(count: nat, events: Seq<Event<E>>, i: int, j: int)
    requires
        count <= usize::MAX,
        possible(count, events),
        0 <= i < j < replay(count, events).running.len(),
    ensures
        replay(count, events).running[i] < replay(count, events).running[j] < count,
{
    law_plan_stays_wf(count, events);
}

/// The supervisor returns the first failure that a process ended with, and
/// succeeds if there was none.
pub proof fn law_first_failure_is_returned<E>(count: nat, events: Seq<Event<E>>)
    requires
        count <= usize::MAX,
        possible(count, events),
    ensures
        replay(count, events).result() == failure_result(first_failure(exits(count, events))),
    decreases events.len(),
{
    if events.len() > 0 {
        law_first_failure_is_returned(count, events.drop_last());
        law_plan_stays_wf(count, events.drop_last());
        let before = exits(count, events.drop_last());
        let after = exits(count, events);
        if events.last() is Polled && events.last()->Polled_0 is Ready {
            assert(after.drop_last() == before);
        }
    }
}

/// The supervisor succeeds if and only if every process that ended did.
pub proof fn law_success_needs_every_process<E>(count: nat, events: Seq<Event<E>>)
    requires
        count <= usize::MAX,
        possible(count, events),
    ensures
        replay(count, events).result() is Ok <==> forall|i: int|
            0 <= i < exits(count, events).len() ==> (#[trigger] exits(count, events)[i]).1 is Ok,
{
    law_first_failure_is_returned(count, events);
    lemma_no_failure(exits(count, events));
}

proof fn lemma_no_failure<E>(exits: Seq<(usize, ProcResult<E>)>)
    ensures
        first_failure(exits) is None <==> forall|i: int|
            0 <= i < exits.len() ==> (#[trigger] exits[i]).1 is Ok,
    decreases exits.len(),
{
    if exits.len() > 0 {
        let earlier = exits.drop_last();
        lemma_no_failure(earlier);
        if first_failure(exits) is None {
            assert forall|i: int| 0 <= i < exits.len() implies (#[trigger] exits[i]).1 is Ok by {
                if i < earlier.len() {
                    assert(exits[i] == earlier[i]);
                }
            }
        } else if first_failure(earlier) is Some {
            let i = choose|i: int| 0 <= i < earlier.len() && !((#[trigger] earlier[i]).1 is Ok);
            assert(exits[i] == earlier[i]);
        } else {
            assert(exits[exits.len() - 1].1 is Err);
        }
    }
}

/// Whether the process of this number has ended.
pub open spec fn ended<E>(count: nat, events: Seq<Event<E>>, number: usize) -> bool {
    exists|i: int|
        0 <= i < exits(count, events).len() && (#[trigger] exits(count, events)[i]).0 == number
}

/// What the starts of a run have to do with where the plan stands.
pub(crate) proof fn lemma_starts<E>(count: nat, events: Seq<Event<E>>)
    requires
        count <= usize::MAX,
        possible(count, events),
    ensures
        starts(count, events).len() == (if replay(count, events).starting() {
            replay(count, events).running.len()
        } else {
            count
        }),
        forall|i: int| 0 <= i < starts(count, events).len() ==> starts(count, events)[i] == i,
    decreases events.len(),
{
    if events.len() > 0 {
        let earlier = events.drop_last();
        lemma_starts(count, earlier);
        law_plan_stays_wf(count, earlier);
        let before = replay(count, earlier);
        if events.last() is Started {
            assert(starts(count, events) == starts(count, earlier).push(
                before.running.len() as usize,
            ));
        } else {
            assert(starts(count, events) == starts(count, earlier));
        }
    }
}

/// Processes are started in the order of their registration, each once.
pub proof fn law_start_order<E>(count: nat, events: Seq<Event<E>>)
    requires
        count <= usize::MAX,
        possible(count, events),
    ensures
        starts(count, events).len() <= count,
        starts(count, events) == Seq::new(starts(count, events).len(), |i: int| i as usize),
{
    lemma_starts(count, events);
    law_plan_stays_wf(count, events);
}

/// All processes have been started before the shutdown signal or a process is
/// polled, a process is told to stop, or the supervisor returns.
pub proof fn law_all_are_started_first<E>(count: nat, events: Seq<Event<E>>)
    requires
        count <= usize::MAX,
        possible(count, events),
        !(replay(count, events).next() is Rest),
        !(replay(count, events).next() is Start),
    ensures
        starts(count, events) == Seq::new(count, |i: int| i as usize),
{
    lemma_starts(count, events);
}

/// No process is started before the supervisor is first woken; then all are,
/// and nothing else happens until they are.
pub proof fn law_starts_when_first_woken<E>(count: nat, events: Seq<Event<E>>, i: int)
    requires
        count <= usize::MAX,
        possible(count, events),
        0 <= i < events.len(),
        i <= count,
    ensures
        i == 0 ==> events[i] is Woken,
        i > 0 ==> events[i] is Started,
    decreases events.len(),
{
    let earlier = events.drop_last();
    if i < earlier.len() {
        law_starts_when_first_woken(count, earlier, i);
    } else {
        lemma_first_events(count, earlier);
    }
}

/// Where the plan stands as long as there are no more events than it takes to
/// start all processes.
pub(crate) proof fn lemma_first_events<E>(count: nat, events: Seq<Event<E>>)
    requires
        count <= usize::MAX,
        possible(count, events),
        events.len() <= count,
    ensures
        events.len() == 0 ==> replay(count, events).stage is Unstarted,
        events.len() > 0 ==> {
            &&& replay(count, events).stage is Starting
            &&& replay(count, events).running.len() == events.len() - 1
        },
    decreases events.len(),
{
    if events.len() > 0 {
        lemma_first_events(count, events.drop_last());
        law_plan_stays_wf(count, events.drop_last());
    }
}

/// Every process that was started either runs or has ended, never both, and
/// it ends only once. No other process runs or has ended.
pub proof fn law_each_process_ends_once<E>(count: nat, events: Seq<Event<E>>)
    requires
        count <= usize::MAX,
        possible(count, events),
    ensures
        forall|number: usize|
            (number < starts(count, events).len() <==> #[trigger] replay(
                count,
                events,
            ).running.contains(number) || ended(count, events, number)),
        forall|number: usize|
            !(#[trigger] replay(count, events).running.contains(number) && ended(
                count,
                events,
                number,
            )),
        forall|i: int, j: int|
            0 <= i < j < exits(count, events).len() ==> (#[trigger] exits(count, events)[i]).0 != (
            #[trigger] exits(count, events)[j]).0,
        replay(count, events).running.len() + exits(count, events).len() == starts(
            count,
            events,
        ).len(),
    decreases events.len(),
{
    if events.len() > 0 {
        let earlier = events.drop_last();
        let now = replay(count, events);
        let before = replay(count, earlier);
        let old_exits = exits(count, earlier);
        let new_exits = exits(count, events);
        law_each_process_ends_once(count, earlier);
        law_plan_stays_wf(count, earlier);
        lemma_starts(count, earlier);
        lemma_starts(count, events);
        if let Event::Polled(Poll::Ready(result)) = events.last() {
            let gone: usize = before.next()->PollProc_0;
            let at: int = if before.stage is Scanning {
                before.stage->Scanning_0 as int
            } else {
                before.running.len() - 1
            };
            assert(before.running[at] == gone);
            assert(before.running.contains(gone));
            assert(now.running == before.running.remove(at));
            assert(new_exits == old_exits.push((gone, result)));
            assert forall|number: usize|
                #[trigger] now.running.contains(number) == (before.running.contains(number)
                    && number != gone) by {
                lemma_remove_one(before.running, at, number);
            }
            assert forall|number: usize| #[trigger]
                ended(count, events, number) == (ended(count, earlier, number) || number == gone) by {
                lemma_one_more_exit(old_exits, (gone, result), number);
            }
            assert forall|i: int, j: int| 0 <= i < j < new_exits.len() implies (
            #[trigger] new_exits[i]).0 != (#[trigger] new_exits[j]).0 by {
                assert(new_exits[i] == old_exits[i]);
                if j < old_exits.len() {
                    assert(new_exits[j] == old_exits[j]);
                } else {
                    assert(ended(count, earlier, old_exits[i].0));
                }
            }
        } else {
            assert(new_exits == old_exits);
            assert forall|number: usize| #[trigger]
                ended(count, events, number) == ended(count, earlier, number) by {}
            if events.last() is Started {
                let fresh = before.running.len() as usize;
                assert(now.running == before.running.push(fresh));
                assert forall|number: usize|
                    #[trigger] now.running.contains(number) == (before.running.contains(number)
                        || number == fresh) by {
                    if before.running.contains(number) {
                        assert(now.running[before.running.index_of(number)] == number);
                    }
                    assert(now.running[before.running.len() as int] == fresh);
                }
            } else {
                assert(now.running == before.running);
            }
        }
    }
}

proof fn lemma_remove_one(running: Seq<usize>, at: int, number: usize)
    requires
        0 <= at < running.len(),
        forall|i: int, j: int| 0 <= i < j < running.len() ==> running[i] < running[j],
    ensures
        running.remove(at).contains(number) == (running.contains(number) && number != running[at]),
{
    let rest = running.remove(at);
    if rest.contains(number) {
        let i = rest.index_of(number);
        let was = if i < at {
            i
        } else {
            i + 1
        };
        assert(running[was] == number);
    }
    if running.contains(number) && number != running[at] {
        let i = running.index_of(number);
        let is = if i < at {
            i
        } else {
            i - 1
        };
        assert(rest[is] == number);
    }
}

proof fn lemma_one_more_exit<E>(
    exits: Seq<(usize, ProcResult<E>)>,
    exit: (usize, ProcResult<E>),
    number: usize,
)
    ensures
        (exists|i: int| 0 <= i < exits.push(exit).len() && (#[trigger] exits.push(exit)[i]).0 == number)
            <==> (exists|i: int| 0 <= i < exits.len() && (#[trigger] exits[i]).0 == number) || exit.0
            == number,
{
    let more = exits.push(exit);
    if exists|i: int| 0 <= i < exits.len() && (#[trigger] exits[i]).0 == number {
        let i = choose|i: int| 0 <= i < exits.len() && (#[trigger] exits[i]).0 == number;
        assert(more[i].0 == number);
    }
    if exit.0 == number {
        assert(more[exits.len() as int].0 == number);
    }
}

/// The supervisor returns only when every registered process has been started
/// and has ended.
pub proof fn law_returns_after_every_exit<E>(count: nat, events: Seq<Event<E>>)
    requires
        count <= usize::MAX,
        possible(count, events),
        replay(count, events).next() is Return,
    ensures
        starts(count, events).len() == count,
        exits(count, events).len() == count,
        forall|number: usize| number < count ==> #[trigger] ended(count, events, number),
{
    law_each_process_ends_once(count, events);
    lemma_starts(count, events);
    assert forall|number: usize| number < count implies #[trigger] ended(
        count,
        events,
        number,
    ) by {
        assert(!replay(count, events).running.contains(number));
    }
}

/// What the stops of a run have to do with where the plan stands.
proof fn lemma_stops<E>(count: nat, events: Seq<Event<E>>)
    requires
        count <= usize::MAX,
        possible(count, events),
    ensures
        ({
            let now = replay(count, events);
            let told = stops(count, events);
            &&& told.len() > 0 ==> now.stopping()
            &&& now.asked() ==> told.len() > 0 && told.last() == now.running.last()
            &&& forall|i: int, j: int| 0 <= i < j < told.len() ==> told[i] > told[j]
            &&& forall|i: int|
                0 <= i < now.running.len() - (if now.asked() {
                    1int
                } else {
                    0
                }) && told.len() > 0 ==> #[trigger] now.running[i] < told.last()
        }),
    decreases events.len(),
{
    if events.len() > 0 {
        let earlier = events.drop_last();
        lemma_stops(count, earlier);
        law_plan_stays_wf(count, earlier);
        let before = replay(count, earlier);
        let now = replay(count, events);
        if events.last() is Cancelled {
            assert(stops(count, events) == stops(count, earlier).push(before.running.last()));
        } else {
            assert(stops(count, events) == stops(count, earlier));
        }
    }
}

/// Processes are told to stop in the reverse order of their registration.
pub proof fn law_stop_order<E>(count: nat, events: Seq<Event<E>>, i: int, j: int)
    requires
        count <= usize::MAX,
        possible(count, events),
        0 <= i < j < stops(count, events).len(),
    ensures
        stops(count, events)[i] > stops(count, events)[j],
{
    lemma_stops(count, events);
}

/// Processes are stopped one at a time: of those that were told to stop, all
/// but the last one told have ended, and the next is told only when that one
/// has ended too.
pub proof fn law_one_stop_at_a_time<E>(count: nat, events: Seq<Event<E>>, i: int)
    requires
        count <= usize::MAX,
        possible(count, events),
        0 <= i < stops(count, events).len(),
    ensures
        i < stops(count, events).len() - 1 ==> ended(count, events, stops(count, events)[i]),
        replay(count, events).next() is Cancel ==> ended(count, events, stops(count, events)[i]),
{
    let now = replay(count, events);
    let told = stops(count, events);
    lemma_stops(count, events);
    law_plan_stays_wf(count, events);
    law_each_process_ends_once(count, events);
    lemma_stops_are_registered(count, events, i);
    lemma_starts(count, events);
    if now.running.contains(told[i]) {
        let at = now.running.index_of(told[i]);
        assert(now.running[at] == told[i]);
    }
}

pub(crate) proof fn lemma_stops_are_registered<E>(count: nat, events: Seq<Event<E>>, i: int)
    requires
        count <= usize::MAX,
        possible(count, events),
        0 <= i < stops(count, events).len(),
    ensures
        stops(count, events)[i] < count,
    decreases events.len(),
{
    if events.len() > 0 {
        let earlier = events.drop_last();
        law_plan_stays_wf(count, earlier);
        if i < stops(count, earlier).len() {
            lemma_stops_are_registered(count, earlier, i);
        }
    }
}

/// The processes that are yet to be told to stop, in the order in which they
/// will be told.
pub open spec fn yet_to_stop<E>(plan: PlanView<E>) -> Seq<usize> {
    if plan.asked() {
        plan.running.drop_last().reverse()
    } else {
        plan.running.reverse()
    }
}

/// Once the supervisor begins to stop, every process that runs at that time is
/// told to stop, last registered first, and nothing else is told. `began` is
/// the number of events before it begins.
pub proof fn law_stop_reaches_every_process<E>(count: nat, events: Seq<Event<E>>, began: int)
    requires
        count <= usize::MAX,
        possible(count, events),
        0 <= began <= events.len(),
        replay(count, events.take(began)).stage is Halting,
        stops(count, events.take(began)).len() == 0,
    ensures
        replay(count, events).stopping(),
        stops(count, events) + yet_to_stop(replay(count, events)) == replay(
            count,
            events.take(began),
        ).running.reverse(),
        replay(count, events).next() is Return ==> stops(count, events) == replay(
            count,
            events.take(began),
        ).running.reverse(),
    decreases events.len(),
{
    if began == events.len() {
        assert(events.take(began) == events);
    } else {
        let earlier = events.drop_last();
        assert(earlier.take(began) == events.take(began));
        law_stop_reaches_every_process(count, earlier, began);
        law_plan_stays_wf(count, earlier);
        let before = replay(count, earlier);
        let now = replay(count, events);
        if events.last() is Cancelled {
            assert(stops(count, events) == stops(count, earlier).push(before.running.last()));
            assert(yet_to_stop(before) == seq![before.running.last()] + yet_to_stop(now));
            assert(stops(count, events) + yet_to_stop(now) == stops(count, earlier) + yet_to_stop(
                before,
            ));
        } else {
            assert(stops(count, events) == stops(count, earlier));
            assert(yet_to_stop(now) == yet_to_stop(before));
        }
    }
    assert(replay(count, events).next() is Return ==> yet_to_stop(replay(count, events)).len()
        == 0);
}

/// Whether the shutdown signal was found ready.
pub open spec fn shutdown_came<E>(events: Seq<Event<E>>) -> bool {
    exists|i: int| 0 <= i < events.len() && #[trigger] events[i] == Event::<E>::Shutdown(true)
}

/// The supervisor stops its processes if and only if the shutdown signal came
/// or a process failed; from then on it never goes back.
pub proof fn law_what_makes_it_stop<E>(count: nat, events: Seq<Event<E>>)
    requires
        count <= usize::MAX,
        possible(count, events),
    ensures
        replay(count, events).stopping() <==> shutdown_came(events) || first_failure(
            exits(count, events),
        ) is Some,
        stops(count, events).len() > 0 ==> replay(count, events).stopping(),
    decreases events.len(),
{
    lemma_stops(count, events);
    law_first_failure_is_returned(count, events);
    if events.len() > 0 {
        let earlier = events.drop_last();
        law_what_makes_it_stop(count, earlier);
        law_first_failure_is_returned(count, earlier);
        law_plan_stays_wf(count, earlier);
        if shutdown_came(earlier) {
            let i = choose|i: int|
                0 <= i < earlier.len() && #[trigger] earlier[i] == Event::<E>::Shutdown(true);
            assert(events[i] == Event::<E>::Shutdown(true));
        }
        if shutdown_came(events) && !(events.last() == Event::<E>::Shutdown(true)) {
            let i = choose|i: int|
                0 <= i < events.len() && #[trigger] events[i] == Event::<E>::Shutdown(true);
            assert(earlier[i] == Event::<E>::Shutdown(true));
        }
        if events.last() == Event::<E>::Shutdown(true) {
            assert(events[events.len() - 1] == Event::<E>::Shutdown(true));
        }
    }
}

/// While nothing is being stopped, a process is polled only when, since the
/// supervisor was last woken or a process last ended, the shutdown signal was
/// found not ready and then all processes registered before it were polled
/// and found not ready.
pub proof fn law_shutdown_is_polled_first<E>(count: nat, events: Seq<Event<E>>, at: usize)
    requires
        count <= usize::MAX,
        possible(count, events),
        replay(count, events).stage == Stage::Scanning(at),
    ensures
        events.len() > at,
        events[events.len() - 1 - at] == Event::<E>::Shutdown(false),
        forall|i: int|
            events.len() - at <= i < events.len() ==> #[trigger] events[i] == Event::<E>::Polled(
                Poll::Pending,
            ),
    decreases events.len(),
{
    assert(events.len() > 0);
    let earlier = events.drop_last();
    law_plan_stays_wf(count, earlier);
    if at > 0 {
        law_shutdown_is_polled_first(count, earlier, (at - 1) as usize);
        assert forall|i: int| events.len() - at <= i < events.len() implies #[trigger] events[i]
            == Event::<E>::Polled(Poll::Pending) by {
            if i < earlier.len() {
                assert(earlier[i] == events[i]);
            }
        }
    }
}

/// A supervisor of no processes returns as soon as it is first woken, and
/// succeeds, whatever the shutdown signal says.
pub proof fn law_nothing_to_supervise<E>(events: Seq<Event<E>>)
    requires
        possible(0, events),
        events.len() > 0,
    ensures
        replay(0, events).next() is Return,
        replay(0, events).result() is Ok,
    decreases events.len(),
{
    let earlier = events.drop_last();
    if earlier.len() > 0 {
        law_nothing_to_supervise(earlier);
    }
}

/// Once woken, a supervisor comes to rest or returns after finitely many
/// events: each one leaves less work.
pub proof fn law_work_runs_out<E>(plan: PlanView<E>, event: Event<E>)
    requires
        plan.wf(),
        plan.expects(event),
        !(event is Woken),
    ensures
        plan.step(event).work() < plan.work(),
{
    let n = plan.running.len() as int;
    let m = plan.step(event).running.len() as int;
    assert((n + 1) * (n + 3) == n * n + 4 * n + 3) by (nonlinear_arith);
    assert(n * (n + 3) == n * n + 3 * n) by (nonlinear_arith);
    assert((m + 1) * (m + 3) == m * m + 4 * m + 3) by (nonlinear_arith);
    assert(m * (m + 3) == m * m + 3 * m) by (nonlinear_arith);
    assert(m == n - 1 ==> m * m == n * n - 2 * n + 1) by (nonlinear_arith);
    assert(n * n >= 0 && m * m >= 0) by (nonlinear_arith);
}

/// While processes are being stopped, only one that has been told to stop is
/// waited for.
pub proof fn law_told_before_awaited<E>(count: nat, events: Seq<Event<E>>, number: usize)
    requires
        count <= usize::MAX,
        possible(count, events),
        replay(count, events).stopping(),
        replay(count, events).next() == Action::PollProc(number),
    ensures
        stops(count, events).len() > 0,
        stops(count, events).last() == number,
{
    lemma_stops(count, events);
}

/// How often the process that was last told to stop has been found not ready
/// since.
pub open spec fn delays<E>(events: Seq<Event<E>>) -> nat
    decreases events.len(),
{
    if events.len() == 0 {
        0
    } else {
        match events.last() {
            Event::Cancelled => 0,
            Event::Polled(Poll::Pending) => delays(events.drop_last()) + 1,
            _ => delays(events.drop_last()),
        }
    }
}

/// Stopping comes to its end if the processes end once they are told to: when
/// none of them is found not ready more than `patience` times after it was
/// told, there are at most so many events from the moment at which the
/// supervisor begins to stop until it returns. `began` is the number of events
/// before it begins.
pub proof fn law_stopping_ends<E>(count: nat, events: Seq<Event<E>>, began: int, patience: nat)
    requires
        count <= usize::MAX,
        possible(count, events),
        0 <= began <= events.len(),
        replay(count, events.take(began)).stage is Halting,
        forall|k: int|
            began <= k <= events.len() && replay(count, #[trigger] events.take(k)).asked()
                ==> delays(events.take(k)) <= patience,
    ensures
        events.len() - began <= 2 * (patience + 1) * replay(count, events.take(began)).running.len(),
        events.len() - began == 2 * (patience + 1) * replay(
            count,
            events.take(began),
        ).running.len() ==> replay(count, events).next() is Return,
{
    lemma_stopping(count, events, began, patience);
    let now = replay(count, events);
    let r = now.running.len() as int;
    assert(r >= 1 ==> 2 * (patience + 1) * r >= 2 * (patience + 1)) by (nonlinear_arith);
    assert(2 * (patience + 1) * 0 == 0);
}

/// Each event on the way takes from what is left to be done.
proof fn lemma_stopping<E>(count: nat, events: Seq<Event<E>>, began: int, patience: nat)
    requires
        count <= usize::MAX,
        possible(count, events),
        0 <= began <= events.len(),
        replay(count, events.take(began)).stage is Halting,
        forall|k: int|
            began <= k <= events.len() && replay(count, #[trigger] events.take(k)).asked()
                ==> delays(events.take(k)) <= patience,
    ensures
        replay(count, events).wf(),
        replay(count, events).stopping(),
        replay(count, events).asked() ==> delays(events) <= patience,
        events.len() - began + (2 * (patience + 1) * replay(count, events).running.len()
            - told_off(replay(count, events), delays(events))) <= 2 * (patience + 1) * replay(
            count,
            events.take(began),
        ).running.len(),
    decreases events.len(),
{
    law_plan_stays_wf(count, events);
    assert(events.take(events.len() as int) == events);
    if events.len() > began {
        let earlier = events.drop_last();
        assert(earlier.take(began) == events.take(began));
        assert forall|k: int|
            began <= k <= earlier.len() && replay(count, #[trigger] earlier.take(k)).asked() implies
            delays(earlier.take(k)) <= patience by {
            assert(earlier.take(k) == events.take(k));
        }
        lemma_stopping(count, earlier, began, patience);
        let before = replay(count, earlier);
        let now = replay(count, events);
        let r = before.running.len() as int;
        assert(2 * (patience + 1) * (r - 1) == 2 * (patience + 1) * r - 2 * (patience + 1))
            by (nonlinear_arith);
    }
}

/// How many of the events that a process may take to stop have come about for
/// the one that was told last.
spec fn told_off<E>(plan: PlanView<E>, delays: nat) -> int {
    match plan.stage {
        Stage::Draining => 1 + 2 * (delays as int),
        Stage::Waiting => 2 * (delays as int),
        _ => 0,
    }
}

} // verus!
