use std::task::Poll;
use super_visor::plan::{Action, Event, Plan};
use super_visor::SupervisorError;

type Failing = SupervisorError<&'static str>;

fn failed(cause: &'static str) -> Event<&'static str> {
    Event::Polled(Poll::Ready(Err(Failing::Process(cause))))
}

fn ended() -> Event<&'static str> {
    Event::Polled(Poll::Ready(Ok(())))
}

fn pending() -> Event<&'static str> {
    Event::Polled(Poll::Pending)
}

/// Goes through the actions and what came of them, and returns the plan.
fn play(count: usize, script: Vec<(Action, Event<&'static str>)>) -> Plan<&'static str> {
    let mut plan = Plan::new(count);
    for (action, event) in script {
        assert_eq!(action, plan.next());
        plan.step(event);
    }
    plan
}

fn cause(plan: Plan<&'static str>) -> Option<&'static str> {
    assert_eq!(Action::Return, plan.next());
    match plan.into_result() {
        Ok(()) => None,
        Err(SupervisorError::Process(cause)) => Some(cause),
        Err(SupervisorError::Signal(_)) => panic!("no signal failed"),
    }
}

#[test]
fn shutdown_is_polled_before_every_round() {
    let plan = play(
        2,
        vec![
            (Action::Rest, Event::Woken),
            (Action::Start(0), Event::Started),
            (Action::Start(1), Event::Started),
            (Action::PollShutdown, Event::Shutdown(false)),
            (Action::PollProc(0), pending()),
            (Action::PollProc(1), pending()),
            (Action::Rest, Event::Woken),
            (Action::PollShutdown, Event::Shutdown(false)),
            (Action::PollProc(0), pending()),
            (Action::PollProc(1), ended()),
            (Action::PollShutdown, Event::Shutdown(false)),
            (Action::PollProc(0), ended()),
        ],
    );
    assert_eq!(None, cause(plan));
}

#[test]
fn the_rest_keep_their_order_when_one_ends() {
    let plan = play(
        4,
        vec![
            (Action::Rest, Event::Woken),
            (Action::Start(0), Event::Started),
            (Action::Start(1), Event::Started),
            (Action::Start(2), Event::Started),
            (Action::Start(3), Event::Started),
            (Action::PollShutdown, Event::Shutdown(false)),
            (Action::PollProc(0), pending()),
            (Action::PollProc(1), ended()),
        ],
    );
    assert_eq!(&vec![0, 2, 3], plan.running());
}

#[test]
fn shutdown_stops_last_registered_first_and_one_at_a_time() {
    let plan = play(
        3,
        vec![
            (Action::Rest, Event::Woken),
            (Action::Start(0), Event::Started),
            (Action::Start(1), Event::Started),
            (Action::Start(2), Event::Started),
            (Action::PollShutdown, Event::Shutdown(true)),
            (Action::Cancel(2), Event::Cancelled),
            (Action::PollProc(2), pending()),
            (Action::Rest, Event::Woken),
            (Action::PollProc(2), ended()),
            (Action::Cancel(1), Event::Cancelled),
            (Action::PollProc(1), ended()),
            (Action::Cancel(0), Event::Cancelled),
            (Action::PollProc(0), ended()),
        ],
    );
    assert_eq!(None, cause(plan));
}

#[test]
fn a_failure_stops_the_others_and_is_returned() {
    let plan = play(
        3,
        vec![
            (Action::Rest, Event::Woken),
            (Action::Start(0), Event::Started),
            (Action::Start(1), Event::Started),
            (Action::Start(2), Event::Started),
            (Action::PollShutdown, Event::Shutdown(false)),
            (Action::PollProc(0), pending()),
            (Action::PollProc(1), failed("first")),
            (Action::Cancel(2), Event::Cancelled),
            (Action::PollProc(2), failed("second")),
            (Action::Cancel(0), Event::Cancelled),
            (Action::PollProc(0), ended()),
        ],
    );
    assert_eq!(Some("first"), cause(plan));
}

#[test]
fn the_first_failure_while_stopping_is_returned() {
    let plan = play(
        3,
        vec![
            (Action::Rest, Event::Woken),
            (Action::Start(0), Event::Started),
            (Action::Start(1), Event::Started),
            (Action::Start(2), Event::Started),
            (Action::PollShutdown, Event::Shutdown(true)),
            (Action::Cancel(2), Event::Cancelled),
            (Action::PollProc(2), ended()),
            (Action::Cancel(1), Event::Cancelled),
            (Action::PollProc(1), failed("middle")),
            (Action::Cancel(0), Event::Cancelled),
            (Action::PollProc(0), failed("front")),
        ],
    );
    assert_eq!(Some("middle"), cause(plan));
}

#[test]
fn only_what_still_runs_is_stopped() {
    let plan = play(
        3,
        vec![
            (Action::Rest, Event::Woken),
            (Action::Start(0), Event::Started),
            (Action::Start(1), Event::Started),
            (Action::Start(2), Event::Started),
            (Action::PollShutdown, Event::Shutdown(false)),
            (Action::PollProc(0), pending()),
            (Action::PollProc(1), pending()),
            (Action::PollProc(2), ended()),
            (Action::PollShutdown, Event::Shutdown(true)),
            (Action::Cancel(1), Event::Cancelled),
            (Action::PollProc(1), ended()),
            (Action::Cancel(0), Event::Cancelled),
            (Action::PollProc(0), ended()),
        ],
    );
    assert_eq!(None, cause(plan));
}

#[test]
fn nothing_is_started_before_the_first_wake() {
    let plan = play(2, vec![]);
    assert_eq!(Action::Rest, plan.next());
    assert!(plan.running().is_empty());
}

#[test]
fn all_are_started_in_order_before_anything_is_polled() {
    let plan = play(
        3,
        vec![
            (Action::Rest, Event::Woken),
            (Action::Start(0), Event::Started),
            (Action::Start(1), Event::Started),
            (Action::Start(2), Event::Started),
        ],
    );
    assert_eq!(Action::PollShutdown, plan.next());
    assert_eq!(&vec![0, 1, 2], plan.running());
}

#[test]
fn stopping_ends_when_the_told_end() {
    let mut plan = play(
        2,
        vec![
            (Action::Rest, Event::Woken),
            (Action::Start(0), Event::Started),
            (Action::Start(1), Event::Started),
            (Action::PollShutdown, Event::Shutdown(true)),
        ],
    );
    let mut events = 0;
    let mut delays = 0;
    while plan.next() != Action::Return {
        let event = match plan.next() {
            Action::Cancel(_) => Event::Cancelled,
            Action::PollProc(_) if delays < 2 => {
                delays += 1;
                pending()
            }
            Action::PollProc(_) => {
                delays = 0;
                ended()
            }
            Action::Rest => Event::Woken,
            other => panic!("{:?} while stopping", other),
        };
        plan.step(event);
        events += 1;
    }
    assert_eq!(2 * 3 * 2, events);
    assert_eq!(None, cause(plan));
}

#[test]
fn nothing_to_supervise() {
    let plan = play(0, vec![(Action::Rest, Event::Woken)]);
    assert_eq!(None, cause(plan));
}
