//! The processes that a supervisor manages.
use crate::error::{reports, ProcResult, SupervisorError};
use crate::signal::ShutdownSignal;
use crate::supervisor::Supervisor;
use crate::trusted::{box_future, box_reported};
use core::marker::PhantomData;
use core::future::Future;
use futures::task::FutureObj;
use vstd::future::FutureAdditionalSpecFns;
use vstd::prelude::*;

verus! {

/// The return type for managed processes: a boxed future.
///
/// Processes should return `Ok(())` on successful shutdown or an error if
/// something went wrong.
pub type ManagedFuture<E> = FutureObj<'static, ProcResult<E>>;

/// A type that can be managed as a long-running process.
///
/// Implement this trait to make your type usable with a supervisor.
pub trait ManagedProc<E>: Send + Sync {
    /// Whether the process, started with the signal, can run as the future. An
    /// implementation says here what it knows of the futures that it returns;
    /// if it says nothing, any future will do.
    open spec fn starts(&self, shutdown: ShutdownSignal, future: ManagedFuture<E>) -> bool {
        true
    }

    /// Starts the process and returns a future that completes when the work is
    /// complete or runs indefinitely in a continual loop.
    ///
    /// The `shutdown` listener will be triggered when the supervisor wants to
    /// shut down the process. Implementations should listen for this signal
    /// and clean up gracefully.
    fn run_proc(self: Box<Self>, shutdown: ShutdownSignal) -> (future: ManagedFuture<E>)
        ensures
            self.starts(shutdown, future),
    ;
}

/// A managed process of any type.
#[verifier::reject_recursive_types(E)]
pub struct BoxedProc<E> {
    /// The process.
    pub inner: Box<dyn ManagedProc<E>>,
}

impl<E> BoxedProc<E> {
    /// Whether the process, started with the signal, can run as the future.
    pub open spec fn starts(self, shutdown: ShutdownSignal, future: ManagedFuture<E>) -> bool {
        self.inner.starts(shutdown, future)
    }

    /// The process, boxed.
    pub open spec fn of<P: ManagedProc<E> + 'static>(proc: P) -> Self {
        BoxedProc { inner: Box::new(proc) }
    }

    /// Boxes a process.
    pub(crate) fn new<P: ManagedProc<E> + 'static>(proc: P) -> (boxed: Self)
        ensures
            boxed == Self::of(proc),
    {
        BoxedProc { inner: Box::new(proc) }
    }

    /// Starts the process.
    pub(crate) fn start(self, shutdown: ShutdownSignal) -> (future: ManagedFuture<E>)
        ensures
            self.starts(shutdown, future),
    {
        self.inner.run_proc(shutdown)
    }
}

/// Marks the type of what a closure returns. Nothing implements this: it lets
/// a [`ProcFn`] name that type and be shared between threads all the same.
pub trait Returns<O>: Send + Sync {

}

/// A process made from a closure that, given the shutdown signal, returns the
/// future to run.
#[verifier::reject_recursive_types(O)]
pub struct ProcFn<P, O> where P: FnOnce(ShutdownSignal) -> O {
    call: P,
    returns: PhantomData<Box<dyn Returns<O>>>,
}

impl<P, O> ProcFn<P, O> where P: FnOnce(ShutdownSignal) -> O {
    /// The closure.
    pub closed spec fn closure(self) -> P {
        self.call
    }

    /// The closure can be called with any signal.
    #[verifier::type_invariant]
    spec fn callable(self) -> bool {
        forall|shutdown: ShutdownSignal| #[trigger] call_requires(self.call, (shutdown,))
    }

    /// The closure as a process.
    pub fn new(call: P) -> (proc: Self)
        requires
            forall|shutdown: ShutdownSignal| #[trigger] call_requires(call, (shutdown,)),
        ensures
            proc.closure() == call,
    {
        ProcFn { call, returns: PhantomData }
    }
}

impl<E, P, O> ManagedProc<E> for ProcFn<P, O> where
    O: Future<Output = ProcResult<E>> + Send + 'static,
    P: FnOnce(ShutdownSignal) -> O + Send + Sync,
 {
    /// The closure is called with the signal, and the future that it returns is
    /// boxed.
    closed spec fn starts(&self, shutdown: ShutdownSignal, future: ManagedFuture<E>) -> bool {
        exists|returned: O|
            {
                &&& #[trigger] call_ensures(self.closure(), (shutdown,), returned)
                &&& call_ensures(box_future::<O>, (returned,), future)
            }
    }

    fn run_proc(self: Box<Self>, shutdown: ShutdownSignal) -> (future: ManagedFuture<E>)
        ensures
            exists|returned: O|
                {
                    &&& #[trigger] call_ensures(self.closure(), (shutdown,), returned)
                    &&& future@ == returned@
                },
    {
        proof {
            use_type_invariant(&*self);
        }
        let call = self.call;
        let returned = call(shutdown);
        assert(call_ensures(self.closure(), (shutdown,), returned));
        box_future(returned)
    }
}

/// A group that is registered as a process is started as the group itself is:
/// as a future that drives a run of the group's processes.
pub proof fn law_group_in_a_box<E: From<SupervisorError<E>> + Send + 'static>(
    group: Supervisor<E>,
    shutdown: ShutdownSignal,
    future: ManagedFuture<E>,
)
    requires
        BoxedProc::of(group).starts(shutdown, future),
    ensures
        ManagedProc::<E>::starts(&group, shutdown, future),
{
}

/// A closure that is registered as a process is started as the closure itself
/// is.
pub proof fn law_closure_in_a_box<E, P, O>(
    proc: ProcFn<P, O>,
    shutdown: ShutdownSignal,
    future: ManagedFuture<E>,
) where
    O: Future<Output = ProcResult<E>> + Send + 'static,
    P: FnOnce(ShutdownSignal) -> O + Send + Sync + 'static,

    requires
        BoxedProc::of(proc).starts(shutdown, future),
    ensures
        ManagedProc::<E>::starts(&proc, shutdown, future),
{
}

/// A process made from a closure resolves to what the future resolves to that
/// the closure returned when it was called with the signal.
pub proof fn law_closure_is_called<E, P, O>(
    proc: ProcFn<P, O>,
    shutdown: ShutdownSignal,
    future: ManagedFuture<E>,
) -> (returned: O) where
    O: Future<Output = ProcResult<E>> + Send + 'static,
    P: FnOnce(ShutdownSignal) -> O + Send + Sync,

    requires
        ManagedProc::<E>::starts(&proc, shutdown, future),
    ensures
        call_ensures(proc.closure(), (shutdown,), returned),
        future@ == returned@,
{
    choose|returned: O|
        {
            &&& #[trigger] call_ensures(proc.closure(), (shutdown,), returned)
            &&& call_ensures(box_future::<O>, (returned,), future)
        }
}

/// Boxes a future without spawning a task of its own.
///
/// Use this in [`ManagedProc::run_proc`] implementations when you want to run
/// the future directly. What the future ends with is reported as the result of
/// a process.
pub fn run<F, T, E>(fut: F) -> (managed: ManagedFuture<E>) where
    F: Future<Output = Result<(), T>> + Send + 'static,
    T: Into<E> + 'static,
    E: 'static,

    ensures
        reports(fut@, managed@),
        fut@ is Ok ==> managed@ == ProcResult::<E>::Ok(()),
        fut@ matches Err(error) ==> {
            &&& managed@ matches Err(SupervisorError::Process(converted))
            &&& call_ensures(T::into, (error,), converted)
        },
{
    box_reported(fut)
}

} // verus!
