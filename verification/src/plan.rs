//! The decisions of a supervisor: what it does next, given everything that
//! has come back from the outside so far.
//!
//! A supervised process is known here by its number, its place in the order
//! of registration. The plan says what is to be started, polled or cancelled
//! next, and takes note of what came of it.
use crate::error::{failure_result, failure_to_result, ProcResult, SupervisorError};
use core::task::Poll;
use vstd::prelude::*;

verus! {

/// How far a plan has come.
#[derive(Clone, Copy, Debug, PartialEq, Eq, Structural)]
pub enum Stage {
    /// No process has been started: wait to be woken.
    Unstarted,
    /// The next process that has not been started is to be started.
    Starting,
    /// Nothing is ready: wait to be woken.
    Resting,
    /// The shutdown signal is to be polled.
    Watching,
    /// The process at this place among the running ones is to be polled.
    Scanning(usize),
    /// The last of the running processes is to be told to stop.
    Halting,
    /// The last of the running processes, told to stop, is to be polled.
    Draining,
    /// The last of the running processes, told to stop, still works: wait to
    /// be woken.
    Waiting,
}

/// What a supervisor is to do next.
#[derive(Clone, Copy, Debug, PartialEq, Eq, Structural)]
pub enum Action {
    /// Wait to be woken.
    Rest,
    /// Start the process of this number.
    Start(usize),
    /// Poll the shutdown signal.
    PollShutdown,
    /// Poll the process of this number.
    PollProc(usize),
    /// Tell the process of this number to stop.
    Cancel(usize),
    /// Return the result.
    Return,
}

/// What came of an action.
#[derive(Debug)]
#[verifier::reject_recursive_types(E)]
pub enum Event<E> {
    /// The supervisor was woken.
    Woken,
    /// The process was started.
    Started,
    /// The shutdown signal was polled; it was ready or not.
    Shutdown(bool),
    /// The process was told to stop.
    Cancelled,
    /// The process was polled.
    Polled(Poll<ProcResult<E>>),
}

/// A plan as contracts see it.
#[verifier::ext_equal]
#[verifier::reject_recursive_types(E)]
pub struct PlanView<E> {
    /// How many processes are registered.
    pub count: nat,
    /// The processes that were started and have not ended, in the order of
    /// registration.
    pub running: Seq<usize>,
    /// How far the plan has come.
    pub stage: Stage,
    /// The first failure that a process ended with.
    pub failure: Option<SupervisorError<E>>,
}

impl<E> PlanView<E> {
    /// The plan for the processes `0..count` before anything has happened.
    pub open spec fn start(count: nat) -> Self {
        PlanView { count, running: Seq::empty(), stage: Stage::Unstarted, failure: None }
    }

    /// Whether there are processes that have not been started.
    pub open spec fn starting(self) -> bool {
        self.stage is Unstarted || self.stage is Starting
    }

    /// Whether the running processes are being stopped.
    pub open spec fn stopping(self) -> bool {
        self.stage is Halting || self.stage is Draining || self.stage is Waiting
    }

    /// Whether the last of the running processes has been told to stop.
    pub open spec fn asked(self) -> bool {
        self.stage is Draining || self.stage is Waiting
    }

    /// What a plan always keeps to.
    pub open spec fn wf(self) -> bool {
        &&& self.running.len() <= self.count <= usize::MAX
        &&& forall|i: int| 0 <= i < self.running.len() ==> #[trigger] self.running[i] < self.count
        &&& self.starting() ==> forall|i: int|
            0 <= i < self.running.len() ==> #[trigger] self.running[i] == i
        &&& self.stage is Unstarted ==> self.running.len() == 0
        &&& self.stage is Starting ==> self.running.len() < self.count
        &&& forall|i: int, j: int|
            0 <= i < j < self.running.len() ==> self.running[i] < self.running[j]
        &&& self.stage matches Stage::Scanning(at) ==> at < self.running.len()
        &&& self.asked() ==> self.running.len() > 0
        &&& !self.stopping() ==> self.failure is None
    }

    /// What is to be done next.
    pub open spec fn next(self) -> Action {
        match self.stage {
            Stage::Unstarted | Stage::Resting | Stage::Waiting => Action::Rest,
            Stage::Starting => Action::Start(self.running.len() as usize),
            Stage::Watching => if self.running.len() == 0 {
                Action::Return
            } else {
                Action::PollShutdown
            },
            Stage::Scanning(at) => Action::PollProc(self.running[at as int]),
            Stage::Halting => if self.running.len() == 0 {
                Action::Return
            } else {
                Action::Cancel(self.running.last())
            },
            Stage::Draining => Action::PollProc(self.running.last()),
        }
    }

    /// Whether the event can come of what is to be done next.
    pub open spec fn expects(self, event: Event<E>) -> bool {
        match event {
            Event::Woken => self.next() is Rest,
            Event::Started => self.next() is Start,
            Event::Shutdown(_) => self.next() is PollShutdown,
            Event::Cancelled => self.next() is Cancel,
            Event::Polled(_) => self.next() is PollProc,
        }
    }

    /// The plan after the event.
    pub open spec fn step(self, event: Event<E>) -> Self {
        match event {
            Event::Woken => PlanView {
                stage: if self.stage is Waiting {
                    Stage::Draining
                } else if self.stage is Unstarted && self.count > 0 {
                    Stage::Starting
                } else {
                    Stage::Watching
                },
                ..self
            },
            Event::Started => PlanView {
                running: self.running.push(self.running.len() as usize),
                stage: if self.running.len() + 1 < self.count {
                    Stage::Starting
                } else {
                    Stage::Watching
                },
                ..self
            },
            Event::Shutdown(ready) => PlanView {
                stage: if ready {
                    Stage::Halting
                } else {
                    Stage::Scanning(0)
                },
                ..self
            },
            Event::Cancelled => PlanView { stage: Stage::Draining, ..self },
            Event::Polled(Poll::Pending) => PlanView {
                stage: match self.stage {
                    Stage::Scanning(at) => if at + 1 < self.running.len() {
                        Stage::Scanning((at + 1) as usize)
                    } else {
                        Stage::Resting
                    },
                    _ => Stage::Waiting,
                },
                ..self
            },
            Event::Polled(Poll::Ready(result)) => self.after_exit(result),
        }
    }

    /// The plan after the process that was to be polled ended with `result`.
    /// The others keep their order. A failure makes the supervisor stop the
    /// others; while it stops them, only the first failure counts.
    pub open spec fn after_exit(self, result: ProcResult<E>) -> Self {
        PlanView {
            running: match self.stage {
                Stage::Scanning(at) => self.running.remove(at as int),
                _ => self.running.drop_last(),
            },
            stage: if self.stage is Scanning && result is Ok {
                Stage::Watching
            } else {
                Stage::Halting
            },
            failure: match (self.failure, result) {
                (None, Err(error)) => Some(error),
                _ => self.failure,
            },
            ..self
        }
    }

    /// The result of a plan that has come to its end.
    pub open spec fn result(self) -> ProcResult<E> {
        failure_result(self.failure)
    }

    /// How many events can at most come before the plan rests or returns.
    pub open spec fn work(self) -> nat {
        let n = self.running.len();
        match self.stage {
            Stage::Unstarted | Stage::Resting | Stage::Waiting => 0,
            Stage::Starting => ((self.count + 1) * (self.count + 3) + (self.count - n)) as nat,
            Stage::Watching => ((n + 1) * (n + 3)) as nat,
            Stage::Scanning(at) => (n * (n + 3) + (n - at) + 1) as nat,
            Stage::Halting => (2 * n + 1) as nat,
            Stage::Draining => (2 * n) as nat,
        }
    }
}

/// The decisions of one supervisor.
#[derive(Debug)]
#[verifier::reject_recursive_types(E)]
pub struct Plan<E> {
    count: usize,
    running: Vec<usize>,
    stage: Stage,
    failure: Option<SupervisorError<E>>,
}

impl<E> View for Plan<E> {
    type V = PlanView<E>;

    closed spec fn view(&self) -> PlanView<E> {
        PlanView {
            count: self.count as nat,
            running: self.running@,
            stage: self.stage,
            failure: self.failure,
        }
    }
}

impl<E> Plan<E> {
    /// The plan for the processes `0..count`.
    pub fn new(count: usize) -> (plan: Self)
        ensures
            plan@ == PlanView::<E>::start(count as nat),
            plan@.wf(),
    {
        Plan { count, running: Vec::new(), stage: Stage::Unstarted, failure: None }
    }

    /// The processes that were started and have not ended, in the order of
    /// registration.
    pub fn running(&self) -> (running: &Vec<usize>)
        ensures
            running@ == self@.running,
    {
        &self.running
    }

    /// What is to be done next.
    pub fn next(&self) -> (action: Action)
        requires
            self@.wf(),
        ensures
            action == self@.next(),
    {
        let count = self.running.len();
        match self.stage {
            Stage::Unstarted | Stage::Resting | Stage::Waiting => Action::Rest,
            Stage::Starting => Action::Start(count),
            Stage::Watching => if count == 0 {
                Action::Return
            } else {
                Action::PollShutdown
            },
            Stage::Scanning(at) => Action::PollProc(self.running[at]),
            Stage::Halting => if count == 0 {
                Action::Return
            } else {
                Action::Cancel(self.running[count - 1])
            },
            Stage::Draining => Action::PollProc(self.running[count - 1]),
        }
    }

    /// Takes note of what came of the action that [`Plan::next`] named.
    pub fn step(&mut self, event: Event<E>)
        requires
            old(self)@.wf(),
            old(self)@.expects(event),
        ensures
            final(self)@ == old(self)@.step(event),
            final(self)@.wf(),
    {
        match event {
            Event::Woken => match self.stage {
                Stage::Waiting => self.stage = Stage::Draining,
                Stage::Unstarted if self.count > 0 => self.stage = Stage::Starting,
                _ => self.stage = Stage::Watching,
            },
            Event::Started => {
                let number = self.running.len();
                self.running.push(number);
                if number + 1 < self.count {
                    self.stage = Stage::Starting;
                } else {
                    self.stage = Stage::Watching;
                }
            },
            Event::Shutdown(ready) => if ready {
                self.stage = Stage::Halting;
            } else {
                self.stage = Stage::Scanning(0);
            },
            Event::Cancelled => self.stage = Stage::Draining,
            Event::Polled(Poll::Pending) => match self.stage {
                Stage::Scanning(at) => if self.running.len() - at > 1 {
                    self.stage = Stage::Scanning(at + 1);
                } else {
                    self.stage = Stage::Resting;
                },
                _ => self.stage = Stage::Waiting,
            },
            Event::Polled(Poll::Ready(result)) => self.exit(result),
        }
    }

    /// Takes note that the process which was to be polled has ended.
    fn exit(&mut self, result: ProcResult<E>)
        requires
            old(self)@.wf(),
            old(self)@.next() is PollProc,
        ensures
            final(self)@ == old(self)@.after_exit(result),
            final(self)@.wf(),
    {
        let mut stage = Stage::Halting;
        match self.stage {
            Stage::Scanning(at) => {
                let _ = self.running.remove(at);
                if result.is_ok() {
                    stage = Stage::Watching;
                }
            },
            _ => {
                let _ = self.running.pop();
            },
        }
        self.stage = stage;
        if self.failure.is_none() {
            match result {
                Ok(()) => {},
                Err(error) => self.failure = Some(error),
            }
        }
    }

    /// The result of a plan that has come to its end: the first failure that
    /// a process ended with, if there was one.
    pub fn into_result(self) -> (result: ProcResult<E>)
        ensures
            result == self@.result(),
    {
        failure_to_result(self.failure)
    }
}

} // verus!
