//! Supervisors, and how they are put together.
use crate::error::{reports, SupervisorError};
use crate::proc::{BoxedProc, ManagedFuture, ManagedProc};
use crate::signal::ShutdownSignal;
use crate::supervision::{drives, RunFuture, Shutdown, Supervision};
use crate::trusted::box_run;
use futures::task::FutureObj;
use vstd::future::FutureAdditionalSpecFns;
use vstd::prelude::*;

verus! {

/// Manages the lifecycle of multiple async workers with coordinated, ordered
/// shutdown.
///
/// `Supervisor` runs all registered processes concurrently. Processes are shut
/// down in reverse order of their registration (LIFO), so that a process stops
/// before the ones it depends on.
#[verifier::reject_recursive_types(E)]
pub struct Supervisor<E> {
    procs: Vec<BoxedProc<E>>,
}

/// Builder for constructing a [`Supervisor`].
#[verifier::reject_recursive_types(E)]
pub struct SupervisorBuilder<E> {
    procs: Vec<BoxedProc<E>>,
}

impl<E> View for Supervisor<E> {
    type V = Seq<BoxedProc<E>>;

    /// The registered processes, in order.
    closed spec fn view(&self) -> Seq<BoxedProc<E>> {
        self.procs@
    }
}

impl<E> View for SupervisorBuilder<E> {
    type V = Seq<BoxedProc<E>>;

    /// The registered processes, in order.
    closed spec fn view(&self) -> Seq<BoxedProc<E>> {
        self.procs@
    }
}

impl<E> Supervisor<E> {
    /// Creates a new empty supervisor.
    pub fn new() -> (supervisor: Self)
        ensures
            supervisor@ == Seq::<BoxedProc<E>>::empty(),
    {
        Self { procs: Vec::new() }
    }

    /// Creates a new [`SupervisorBuilder`] for fluent process registration.
    pub fn builder() -> (builder: SupervisorBuilder<E>)
        ensures
            builder@ == Seq::<BoxedProc<E>>::empty(),
    {
        SupervisorBuilder { procs: Vec::new() }
    }

    /// Adds a process to the supervisor.
    ///
    /// Processes are started in the order they are added and shut down in the
    /// reverse order.
    pub fn add(&mut self, proc: impl ManagedProc<E> + 'static)
        ensures
            final(self)@ == old(self)@.push(BoxedProc::of(proc)),
    {
        self.procs.push(BoxedProc::new(proc));
    }

    /// Supervises all registered processes until the signal listeners hear that
    /// the program is to end. `listeners` is what came of setting them up:
    /// without them, no process is ever started.
    pub fn start(self, listeners: Result<FutureObj<'static, ()>, std::io::Error>) -> (run: Result<
        RunFuture<E>,
        SupervisorError<E>,
    >)
        ensures
            listeners matches Ok(heard) ==> run is Ok && run->Ok_0.waiting() == Some(
                (self@, Shutdown::Future(heard)),
            ),
            listeners matches Err(error) ==> run == Err::<RunFuture<E>, SupervisorError<E>>(
                SupervisorError::<E>::Signal(error),
            ),
    {
        match listeners {
            Ok(heard) => Ok(self.do_run(Shutdown::Future(heard))),
            Err(error) => Err(SupervisorError::Signal(error)),
        }
    }

    /// Returns the future that, when it is first polled, starts all registered
    /// processes, and sees them through: until all have ended, or until
    /// `shutdown` is ready or a process fails and all have been stopped.
    pub fn do_run(self, shutdown: Shutdown) -> (run: RunFuture<E>)
        ensures
            run.waiting() == Some((self@, shutdown)),
    {
        RunFuture::new(Supervision::new(self.procs, shutdown))
    }
}

impl<E> Default for Supervisor<E> {
    fn default() -> (supervisor: Self)
        ensures
            supervisor@ == Seq::<BoxedProc<E>>::empty(),
    {
        Self::new()
    }
}

impl<E> SupervisorBuilder<E> {
    /// Adds a process to the builder.
    ///
    /// Processes are started in the order they are registered and shut down in
    /// reverse order.
    pub fn add_proc(self, proc: impl ManagedProc<E> + 'static) -> (builder: Self)
        ensures
            builder@ == self@.push(BoxedProc::of(proc)),
    {
        let mut procs = self.procs;
        procs.push(BoxedProc::new(proc));
        SupervisorBuilder { procs }
    }

    /// Consumes the builder and returns a configured [`Supervisor`].
    pub fn build(self) -> (supervisor: Supervisor<E>)
        ensures
            supervisor@ == self@,
    {
        Supervisor { procs: self.procs }
    }
}

/// Registering the same processes in the same order, one by one, gives the
/// same supervisor by way of a builder as by adding them directly: one of
/// these processes, in that order. `builders` and `supervisors` are what the
/// calls of `add_proc` and `add` leave, one after the other, and `built` is
/// what comes of the last builder.
pub proof fn law_builder_agrees_with_adding<E>(
    procs: Seq<BoxedProc<E>>,
    builders: Seq<SupervisorBuilder<E>>,
    supervisors: Seq<Supervisor<E>>,
    built: Supervisor<E>,
)
    requires
        builders.len() == procs.len() + 1,
        supervisors.len() == procs.len() + 1,
        call_ensures(Supervisor::<E>::builder, (), builders[0]),
        call_ensures(Supervisor::<E>::new, (), supervisors[0]),
        forall|i: int|
            0 <= i < procs.len() ==> (#[trigger] builders[i + 1])@ == builders[i]@.push(procs[i]),
        forall|i: int|
            0 <= i < procs.len() ==> (#[trigger] supervisors[i + 1])@ == supervisors[i]@.push(
                procs[i],
            ),
        call_ensures(SupervisorBuilder::<E>::build, (builders.last(),), built),
    ensures
        built@ == procs,
        supervisors.last()@ == procs,
{
    lemma_one_by_one(procs, builders.map_values(|builder: SupervisorBuilder<E>| builder@));
    lemma_one_by_one(procs, supervisors.map_values(|supervisor: Supervisor<E>| supervisor@));
}

/// Pushing the elements one by one onto the empty sequence gives the sequence
/// of them.
proof fn lemma_one_by_one<A>(elements: Seq<A>, steps: Seq<Seq<A>>)
    requires
        steps.len() == elements.len() + 1,
        steps[0] == Seq::<A>::empty(),
        forall|i: int|
            0 <= i < elements.len() ==> #[trigger] steps[i + 1] == steps[i].push(elements[i]),
    ensures
        steps.last() == elements,
    decreases elements.len(),
{
    if elements.len() > 0 {
        let last = elements.len() - 1;
        assert(steps[last + 1] == steps[last].push(elements[last]));
        assert forall|i: int| 0 <= i < last implies #[trigger] steps.drop_last()[i + 1]
            == steps.drop_last()[i].push(elements.drop_last()[i]) by {
            assert(steps[i + 1] == steps[i].push(elements[i]));
        }
        lemma_one_by_one(elements.drop_last(), steps.drop_last());
    }
}

impl<E: From<SupervisorError<E>> + Send + 'static> ManagedProc<E> for Supervisor<E> {
    /// The future of a supervisor drives a run of its processes, which ends
    /// early with the signal that the supervisor was started with.
    open spec fn starts(&self, shutdown: ShutdownSignal, future: ManagedFuture<E>) -> bool {
        exists|run: RunFuture<E>|
            {
                &&& #[trigger] run.waiting() == Some((self@, Shutdown::Signal(shutdown)))
                &&& forall|polls: nat| #[trigger] drives(future, run, polls)
            }
    }

    fn run_proc(self: Box<Self>, shutdown: ShutdownSignal) -> (future: ManagedFuture<E>)
        ensures
            exists|run: RunFuture<E>|
                {
                    &&& #[trigger] run.waiting() == Some((self@, Shutdown::Signal(shutdown)))
                    &&& forall|polls: nat| #[trigger] drives(future, run, polls)
                    &&& reports(run@, future@)
                },
    {
        let run = (*self).do_run(Shutdown::Signal(shutdown));
        box_run(run)
    }
}

} // verus!
