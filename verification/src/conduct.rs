//! How a supervisor conducts itself, told from what has happened alone.
//!
//! The laws here speak of a history by its events, one by one, and of what was
//! to be done at each of them. They say what follows from what, and nothing of
//! how a plan keeps track of it.
use crate::error::{ProcResult, SupervisorError};
use crate::history::{
    ended, exits, law_each_process_ends_once, law_plan_stays_wf, lemma_first_events, lemma_starts,
    possible, replay, starts,
};
use crate::plan::{Action, Event, Stage};
use core::task::Poll;
use vstd::prelude::*;

verus! {

/// The beginning of a history that can come about can come about.
pub(crate) proof fn lemma_possible_so_far<E>(count: nat, events: Seq<Event<E>>, k: int)
    requires
        possible(count, events),
        0 <= k <= events.len(),
    ensures
        possible(count, events.take(k)),
    decreases events.len(),
{
    if k < events.len() {
        lemma_possible_so_far(count, events.drop_last(), k);
        assert(events.drop_last().take(k) == events.take(k));
    } else {
        assert(events.take(k) == events);
    }
}

/// Where a plan stands, told from the last event and what it came of.
proof fn lemma_stands<E>(count: nat, events: Seq<Event<E>>)
    requires
        count <= usize::MAX,
        possible(count, events),
    ensures
        ({
            let plan = replay(count, events);
            let done = replay(count, events.drop_last()).next();
            match plan.stage {
                Stage::Unstarted => events.len() == 0,
                Stage::Starting => 1 <= events.len() <= count && plan.running.len() == events.len()
                    - 1,
                Stage::Watching => {
                    &&& events.len() > count
                    &&& events.last() is Woken || events.last() is Started || events.last()
                        == Event::<E>::Polled(Poll::Ready(Ok(())))
                },
                Stage::Scanning(at) => {
                    &&& events.len() > count
                    &&& at == 0 ==> events.last() == Event::<E>::Shutdown(false)
                    &&& at > 0 ==> events.last() == Event::<E>::Polled(Poll::Pending) && done
                        == Action::PollProc(plan.running[at - 1])
                },
                Stage::Resting => {
                    &&& events.len() > count
                    &&& plan.running.len() > 0
                    &&& events.last() == Event::<E>::Polled(Poll::Pending)
                    &&& done == Action::PollProc(plan.running.last())
                },
                Stage::Halting => {
                    &&& events.len() > count
                    &&& events.last() == Event::<E>::Shutdown(true) || (
                    events.last() matches Event::Polled(Poll::Ready(_)))
                },
                Stage::Draining => {
                    &&& events.len() > count
                    &&& events.last() is Cancelled || events.last() is Woken
                },
                Stage::Waiting => {
                    &&& events.len() > count
                    &&& plan.running.len() > 0
                    &&& events.last() == Event::<E>::Polled(Poll::Pending)
                    &&& done == Action::PollProc(plan.running.last())
                },
            }
        }),
    decreases events.len(),
{
    if events.len() > 0 {
        lemma_stands(count, events.drop_last());
        law_plan_stays_wf(count, events.drop_last());
        if let Event::Polled(Poll::Ready(Ok(unit))) = events.last() {
            assert(unit == ());
        }
    }
}

/// All processes have been started once there are more events than processes.
pub(crate) proof fn lemma_done_starting<E>(count: nat, events: Seq<Event<E>>)
    requires
        count <= usize::MAX,
        possible(count, events),
        events.len() > count,
    ensures
        !(replay(count, events).stage is Unstarted),
        !(replay(count, events).stage is Starting),
{
    lemma_stands(count, events);
}

/// A supervisor stops its processes if and only if the shutdown was found
/// ready or a process ended with an error.
pub proof fn law_stops_for_a_cause<E>(count: nat, events: Seq<Event<E>>)
    requires
        count <= usize::MAX,
        possible(count, events),
    ensures
        (replay(count, events).stage is Halting || replay(count, events).stage is Draining
            || replay(count, events).stage is Waiting) <==> exists|i: int|
            0 <= i < events.len() && ((#[trigger] events[i]) == Event::<E>::Shutdown(true) || (
            events[i] matches Event::Polled(Poll::Ready(Err(_))))),
    decreases events.len(),
{
    if events.len() > 0 {
        let earlier = events.drop_last();
        law_stops_for_a_cause(count, earlier);
        law_plan_stays_wf(count, earlier);
        if exists|i: int|
            0 <= i < earlier.len() && ((#[trigger] earlier[i]) == Event::<E>::Shutdown(true) || (
            earlier[i] matches Event::Polled(Poll::Ready(Err(_))))) {
            let i = choose|i: int|
                0 <= i < earlier.len() && ((#[trigger] earlier[i]) == Event::<E>::Shutdown(true)
                    || (earlier[i] matches Event::Polled(Poll::Ready(Err(_)))));
            assert(events[i] == earlier[i]);
        }
        assert(events[events.len() - 1] == events.last());
        assert(forall|i: int| 0 <= i < earlier.len() ==> #[trigger] events[i] == earlier[i]);
    }
}

/// Each exit is a poll that found a process ready, and each such poll is an
/// exit.
pub proof fn law_exits_are_ready_polls<E>(
    count: nat,
    events: Seq<Event<E>>,
    number: usize,
    result: ProcResult<E>,
)
    requires
        count <= usize::MAX,
        possible(count, events),
    ensures
        exits(count, events).contains((number, result)) <==> exists|j: int|
            {
                &&& 0 <= j < events.len()
                &&& #[trigger] events[j] == Event::Polled(Poll::Ready(result))
                &&& replay(count, events.take(j)).next() == Action::PollProc(number)
            },
    decreases events.len(),
{
    if events.len() > 0 {
        let earlier = events.drop_last();
        let n = earlier.len() as int;
        law_exits_are_ready_polls(count, earlier, number, result);
        assert(events.take(n) == earlier);
        let was = exits(count, earlier);
        let now = exits(count, events);
        if was.contains((number, result)) {
            let i = was.index_of((number, result));
            assert(now[i] == (number, result));
            let j = choose|j: int|
                {
                    &&& 0 <= j < earlier.len()
                    &&& #[trigger] earlier[j] == Event::Polled(Poll::Ready(result))
                    &&& replay(count, earlier.take(j)).next() == Action::PollProc(number)
                };
            assert(events[j] == earlier[j]);
            assert(events.take(j) == earlier.take(j));
        }
        if events.last() == Event::Polled(Poll::Ready(result)) && replay(count, earlier).next()
            == Action::PollProc(number) {
            assert(now.last() == (number, result));
            assert(events[n] == Event::Polled(Poll::Ready(result)));
        }
        if exists|j: int|
            {
                &&& 0 <= j < events.len()
                &&& #[trigger] events[j] == Event::Polled(Poll::Ready(result))
                &&& replay(count, events.take(j)).next() == Action::PollProc(number)
            } {
            let j = choose|j: int|
                {
                    &&& 0 <= j < events.len()
                    &&& #[trigger] events[j] == Event::Polled(Poll::Ready(result))
                    &&& replay(count, events.take(j)).next() == Action::PollProc(number)
                };
            if j < n {
                assert(earlier[j] == events[j]);
                assert(events.take(j) == earlier.take(j));
            }
        }
        if now.contains((number, result)) && !was.contains((number, result)) {
            let i = now.index_of((number, result));
            if i < was.len() {
                assert(was[i] == (number, result));
            }
        }
    }
}

/// A process runs from when it was started until a poll finds it ready: of the
/// first `count + 1` events each but the first starts one process.
pub proof fn law_runs_until_found_ready<E>(count: nat, events: Seq<Event<E>>, number: usize)
    requires
        count <= usize::MAX,
        possible(count, events),
    ensures
        replay(count, events).running.contains(number) <==> {
            &&& number < count
            &&& number + 1 < events.len()
            &&& forall|j: int|
                0 <= j < events.len() && replay(count, #[trigger] events.take(j)).next()
                    == Action::PollProc(number) ==> !(events[j] matches Event::Polled(
                    Poll::Ready(_),
                ))
        },
{
    let plan = replay(count, events);
    law_each_process_ends_once(count, events);
    lemma_starts(count, events);
    lemma_stands(count, events);
    law_plan_stays_wf(count, events);
    assert(number < starts(count, events).len() <==> number < count && number + 1 < events.len());
    if ended(count, events, number) {
        let i = choose|i: int|
            0 <= i < exits(count, events).len() && (#[trigger] exits(count, events)[i]).0 == number;
        let result = exits(count, events)[i].1;
        assert(exits(count, events)[i] == (number, result));
        law_exits_are_ready_polls(count, events, number, result);
        let j = choose|j: int|
            {
                &&& 0 <= j < events.len()
                &&& #[trigger] events[j] == Event::Polled(Poll::Ready(result))
                &&& replay(count, events.take(j)).next() == Action::PollProc(number)
            };
        assert(replay(count, events.take(j)).next() == Action::PollProc(number));
    }
    if exists|j: int|
        0 <= j < events.len() && replay(count, #[trigger] events.take(j)).next()
            == Action::PollProc(number) && (events[j] matches Event::Polled(Poll::Ready(_))) {
        let j = choose|j: int|
            0 <= j < events.len() && replay(count, #[trigger] events.take(j)).next()
                == Action::PollProc(number) && (events[j] matches Event::Polled(Poll::Ready(_)));
        if let Event::Polled(Poll::Ready(result)) = events[j] {
            law_exits_are_ready_polls(count, events, number, result);
            let i = exits(count, events).index_of((number, result));
            assert(exits(count, events)[i].0 == number);
        }
    }
}

/// Nothing is done before the supervisor is first woken; then the processes are
/// started, one with each event, in the order of registration.
pub proof fn law_what_is_done_first<E>(count: nat, events: Seq<Event<E>>)
    requires
        count <= usize::MAX,
        possible(count, events),
        events.len() <= count,
    ensures
        events.len() == 0 ==> replay(count, events).next() is Rest,
        events.len() > 0 ==> replay(count, events).next() == Action::Start(
            (events.len() - 1) as usize,
        ),
{
    lemma_stands(count, events);
}

/// What is done next once all processes have been started and as long as the
/// shutdown was not found ready and no process ended with an error.
///
/// When no process runs any more, the supervisor returns. Otherwise it goes
/// round: it polls for the shutdown when it was woken, or when a process was
/// started or has ended, and when that was not ready, it polls every running
/// process, first registered first, until one is ready. It rests only when the
/// last of them was not.
pub proof fn law_what_is_done_next<E>(count: nat, events: Seq<Event<E>>)
    requires
        count <= usize::MAX,
        possible(count, events),
        events.len() > count,
        forall|i: int|
            0 <= i < events.len() ==> (#[trigger] events[i]) != Event::<E>::Shutdown(true) && !(
            events[i] matches Event::Polled(Poll::Ready(Err(_)))),
    ensures
        ({
            let running = replay(count, events).running;
            let next = replay(count, events).next();
            let done = replay(count, events.drop_last()).next();
            &&& running.len() == 0 <==> next is Return
            &&& running.len() > 0 ==> match events.last() {
                Event::Woken => next is PollShutdown,
                Event::Started => next is PollShutdown,
                Event::Shutdown(_) => next == Action::PollProc(running[0]),
                Event::Cancelled => false,
                Event::Polled(Poll::Ready(_)) => next is PollShutdown,
                Event::Polled(Poll::Pending) => exists|at: int|
                    {
                        &&& 0 <= at < running.len()
                        &&& done == Action::PollProc(#[trigger] running[at])
                        &&& at + 1 < running.len() ==> next == Action::PollProc(running[at + 1])
                        &&& at + 1 == running.len() ==> next is Rest
                    },
            }
        }),
{
    lemma_stands(count, events);
    law_stops_for_a_cause(count, events);
    law_plan_stays_wf(count, events);
    let plan = replay(count, events);
    assert(events.len() > 0);
    if let Stage::Scanning(at) = plan.stage {
        if at > 0 {
            assert(plan.running[at - 1] == plan.running[at - 1]);
        }
    }
    if plan.stage is Resting {
        assert(plan.running[plan.running.len() - 1] == plan.running.last());
    }
}

/// What is done next once the shutdown was found ready or a process ended with
/// an error.
///
/// When no process runs any more, the supervisor returns. Otherwise it sees to
/// the running process that was registered last: it tells that one to stop,
/// polls it, and rests when it was not ready, to poll it again when woken; and
/// so on with the next when it has ended.
pub proof fn law_what_is_done_to_stop<E>(count: nat, events: Seq<Event<E>>, cause: int)
    requires
        count <= usize::MAX,
        possible(count, events),
        0 <= cause < events.len(),
        events[cause] == Event::<E>::Shutdown(true) || (events[cause] matches Event::Polled(
            Poll::Ready(Err(_)),
        )),
    ensures
        ({
            let running = replay(count, events).running;
            let next = replay(count, events).next();
            let done = replay(count, events.drop_last()).next();
            &&& events.len() > count
            &&& running.len() == 0 <==> next is Return
            &&& running.len() > 0 ==> match events.last() {
                Event::Woken => next == Action::PollProc(running[running.len() - 1]),
                Event::Started => false,
                Event::Shutdown(ready) => ready && next == Action::Cancel(
                    running[running.len() - 1],
                ),
                Event::Cancelled => {
                    &&& done == Action::Cancel(running[running.len() - 1])
                    &&& next == Action::PollProc(running[running.len() - 1])
                },
                Event::Polled(Poll::Ready(_)) => next == Action::Cancel(running[running.len() - 1]),
                Event::Polled(Poll::Pending) => {
                    &&& done == Action::PollProc(running[running.len() - 1])
                    &&& next is Rest
                },
            }
        }),
{
    lemma_stands(count, events);
    law_stops_for_a_cause(count, events);
    law_plan_stays_wf(count, events);
    law_plan_stays_wf(count, events.drop_last());
    assert(events[cause] == Event::<E>::Shutdown(true) || (events[cause] matches Event::Polled(
        Poll::Ready(Err(_)),
    )));
}

/// The polls of a round so far.
proof fn lemma_round<E>(count: nat, events: Seq<Event<E>>, polled: int)
    requires
        count <= usize::MAX,
        possible(count, events),
        replay(count, events).stage == Stage::Scanning(polled as usize) && 0 <= polled
            <= usize::MAX || replay(count, events).stage is Resting && polled == replay(
            count,
            events,
        ).running.len(),
    ensures
        events.len() > polled,
        events[events.len() - 1 - polled] == Event::<E>::Shutdown(false),
        forall|i: int|
            0 <= i < polled ==> {
                &&& #[trigger] events[events.len() - polled + i] == Event::<E>::Polled(Poll::Pending)
                &&& replay(count, events.take(events.len() - polled + i)).next()
                    == Action::PollProc(replay(count, events).running[i])
            },
    decreases events.len(),
{
    let earlier = events.drop_last();
    let running = replay(count, events).running;
    law_plan_stays_wf(count, earlier);
    law_plan_stays_wf(count, events);
    lemma_stands(count, events);
    lemma_stands(count, earlier);
    if polled > 0 {
        lemma_round(count, earlier, polled - 1);
        assert(events.take(earlier.len() as int) == earlier);
        assert forall|i: int| 0 <= i < polled implies {
            &&& #[trigger] events[events.len() - polled + i] == Event::<E>::Polled(Poll::Pending)
            &&& replay(count, events.take(events.len() - polled + i)).next() == Action::PollProc(
                running[i],
            )
        } by {
            let k = events.len() - polled + i;
            if i < polled - 1 {
                assert(earlier[earlier.len() - (polled - 1) + i] == events[k]);
                assert(earlier.take(k) == events.take(k));
            } else {
                assert(events.take(k) == earlier);
            }
        }
        assert(earlier[earlier.len() - 1 - (polled - 1)] == events[events.len() - 1 - polled]);
    }
}

/// A supervisor that stops nothing rests only after a whole round: it polled
/// for the shutdown, which was not ready, and then each and every running
/// process, in order, none of which was.
pub proof fn law_rests_after_a_whole_round<E>(count: nat, events: Seq<Event<E>>)
    requires
        count <= usize::MAX,
        possible(count, events),
        events.len() > 0,
        replay(count, events).next() is Rest,
        forall|i: int|
            0 <= i < events.len() ==> (#[trigger] events[i]) != Event::<E>::Shutdown(true) && !(
            events[i] matches Event::Polled(Poll::Ready(Err(_)))),
    ensures
        ({
            let running = replay(count, events).running;
            let begin = events.len() - running.len();
            &&& running.len() > 0
            &&& begin > 0
            &&& events[begin - 1] == Event::<E>::Shutdown(false)
            &&& forall|i: int|
                0 <= i < running.len() ==> {
                    &&& #[trigger] events[begin + i] == Event::<E>::Polled(Poll::Pending)
                    &&& replay(count, events.take(begin + i)).next() == Action::PollProc(running[i])
                }
        }),
{
    lemma_stands(count, events);
    law_stops_for_a_cause(count, events);
    law_plan_stays_wf(count, events);
    let running = replay(count, events).running;
    lemma_round(count, events, running.len() as int);
}

/// A supervisor returns as soon as every registered process has been found
/// ready, however many there are. `ends` says for each process which event that
/// was.
pub proof fn law_returns_when_all_have_ended<E>(
    count: nat,
    events: Seq<Event<E>>,
    ends: Seq<int>,
)
    requires
        count <= usize::MAX,
        possible(count, events),
        events.len() > 0,
        ends.len() == count,
        forall|number: int|
            0 <= number < count ==> {
                &&& 0 <= #[trigger] ends[number] < events.len()
                &&& replay(count, events.take(ends[number])).next() == Action::PollProc(
                    number as usize,
                )
                &&& events[ends[number]] matches Event::Polled(Poll::Ready(_))
            },
    ensures
        replay(count, events).next() is Return,
{
    let plan = replay(count, events);
    lemma_stands(count, events);
    law_plan_stays_wf(count, events);
    if plan.running.len() > 0 {
        let number = plan.running[0];
        assert(plan.running.contains(number));
        law_runs_until_found_ready(count, events, number);
        let j = ends[number as int];
        assert(replay(count, events.take(j)).next() == Action::PollProc(number));
    }
    if events.len() <= count {
        let j = ends[0];
        lemma_possible_so_far(count, events, j);
        lemma_first_events(count, events.take(j));
    }
}

/// A supervisor returns if and only if it has been woken and as many processes
/// have ended as are registered.
pub proof fn law_returns_at_the_last_exit<E>(count: nat, events: Seq<Event<E>>)
    requires
        count <= usize::MAX,
        possible(count, events),
    ensures
        replay(count, events).next() is Return <==> events.len() > 0 && exits(
            count,
            events,
        ).len() == count,
{
    lemma_stands(count, events);
    law_plan_stays_wf(count, events);
    law_each_process_ends_once(count, events);
    lemma_starts(count, events);
}

/// The first error that a process ended with is what the supervisor returns,
/// whatever the others end with. `first` is the place of that end among the
/// events.
pub proof fn law_first_error_is_returned<E>(
    count: nat,
    events: Seq<Event<E>>,
    first: int,
    error: SupervisorError<E>,
)
    requires
        count <= usize::MAX,
        possible(count, events),
        0 <= first < events.len(),
        events[first] == Event::Polled(Poll::Ready(ProcResult::<E>::Err(error))),
        forall|j: int|
            0 <= j < first ==> !((#[trigger] events[j]) matches Event::Polled(
                Poll::Ready(Err(_)),
            )),
    ensures
        replay(count, events).result() == ProcResult::<E>::Err(error),
    decreases events.len(),
{
    let earlier = events.drop_last();
    law_plan_stays_wf(count, earlier);
    if first < earlier.len() {
        assert forall|j: int| 0 <= j < first implies !((#[trigger] earlier[j]) matches Event::Polled(
            Poll::Ready(Err(_)),
        )) by {
            assert(earlier[j] == events[j]);
        }
        law_first_error_is_returned(count, earlier, first, error);
    } else {
        assert forall|j: int|
            0 <= j < earlier.len() implies !((#[trigger] earlier[j]) matches Event::Polled(
            Poll::Ready(Err(_)),
        )) by {
            assert(earlier[j] == events[j]);
        }
        law_success_without_an_error(count, earlier);
    }
}

/// A supervisor succeeds as long as no process has ended with an error.
pub proof fn law_success_without_an_error<E>(count: nat, events: Seq<Event<E>>)
    requires
        count <= usize::MAX,
        possible(count, events),
        forall|j: int|
            0 <= j < events.len() ==> !((#[trigger] events[j]) matches Event::Polled(
                Poll::Ready(Err(_)),
            )),
    ensures
        replay(count, events).result() == ProcResult::<E>::Ok(()),
    decreases events.len(),
{
    if events.len() > 0 {
        let earlier = events.drop_last();
        assert forall|j: int|
            0 <= j < earlier.len() implies !((#[trigger] earlier[j]) matches Event::Polled(
            Poll::Ready(Err(_)),
        )) by {
            assert(earlier[j] == events[j]);
        }
        law_success_without_an_error(count, earlier);
        law_plan_stays_wf(count, earlier);
        assert(!(events[events.len() - 1] matches Event::Polled(Poll::Ready(Err(_)))));
    }
}

/// The first error among the exits is what the supervisor returns, whatever
/// the later exits are, and however many.
pub proof fn law_first_failing_exit_is_returned<E>(count: nat, events: Seq<Event<E>>, i: int)
    requires
        count <= usize::MAX,
        possible(count, events),
        0 <= i < exits(count, events).len(),
        exits(count, events)[i].1 is Err,
        forall|j: int| 0 <= j < i ==> (#[trigger] exits(count, events)[j]).1 is Ok,
    ensures
        replay(count, events).result() == exits(count, events)[i].1,
    decreases events.len(),
{
    if events.len() > 0 {
        let earlier = events.drop_last();
        let was = exits(count, earlier);
        let now = exits(count, events);
        law_plan_stays_wf(count, earlier);
        assert forall|j: int| 0 <= j < was.len() implies #[trigger] now[j] == was[j] by {}
        if i < was.len() {
            assert forall|j: int| 0 <= j < i implies (#[trigger] was[j]).1 is Ok by {
                assert(now[j] == was[j]);
            }
            law_first_failing_exit_is_returned(count, earlier, i);
        } else {
            assert forall|j: int|
                0 <= j < earlier.len() implies !((#[trigger] earlier[j]) matches Event::Polled(
                Poll::Ready(Err(_)),
            )) by {
                if let Event::Polled(Poll::Ready(Err(error))) = earlier[j] {
                    let result: ProcResult<E> = Err(error);
                    lemma_possible_so_far(count, events, j + 1);
                    assert(events.take(j + 1).drop_last() == earlier.take(j));
                    assert(events.take(j + 1).last() == earlier[j]);
                    let number = replay(count, earlier.take(j)).next()->PollProc_0;
                    law_exits_are_ready_polls(count, earlier, number, result);
                    assert(earlier[j] == Event::Polled(Poll::Ready(result)));
                    let at = was.index_of((number, result));
                    assert(now[at] == was[at]);
                }
            }
            law_success_without_an_error(count, earlier);
        }
    }
}

} // verus!
