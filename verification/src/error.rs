//! What can go wrong under supervision, and how it is reported.
use vstd::prelude::*;
use vstd::std_specs::convert::IntoSpec;
use vstd::string::to_string_from_display_ensures;

verus! {

/// Error returned from supervised processes.
///
/// `E` is the error that a process fails with, most often a boxed one such as
/// `Box<dyn std::error::Error + Send + Sync>`.
#[derive(Debug)]
pub enum SupervisorError<E> {
    /// Error setting up signal listeners
    Signal(std::io::Error),
    /// Error from within the managed process
    Process(E),
}

/// Result type for supervised process operations.
pub type ProcResult<E> = Result<(), SupervisorError<E>>;

/// The result that reports `failure`, if there is one, and success otherwise.
pub open spec fn failure_result<E>(failure: Option<SupervisorError<E>>) -> ProcResult<E> {
    match failure {
        Some(error) => Err(error),
        None => Ok(()),
    }
}

/// Whether `result` is what a process that ended with `ended` reports: its
/// error comes converted, as the failure of a process.
pub open spec fn reports<T: Into<E>, E>(ended: Result<(), T>, result: ProcResult<E>) -> bool {
    match ended {
        Ok(()) => result == ProcResult::<E>::Ok(()),
        Err(error) => {
            &&& result matches Err(SupervisorError::Process(converted))
            &&& call_ensures(T::into, (error,), converted)
            &&& T::obeys_into_spec() ==> converted == error.into_spec()
        },
    }
}

impl<E> SupervisorError<E> {
    /// Creates a `SupervisorError::Process` from any error that converts into
    /// `E`.
    pub fn from_err<T: Into<E>>(err: T) -> (error: Self)
        ensures
            error is Process,
            call_ensures(T::into, (err,), error->Process_0),
            T::obeys_into_spec() ==> error == SupervisorError::Process(err.into_spec()),
    {
        Self::Process(err.into())
    }

    /// What stands before the cause in the error's description.
    pub open spec fn heading(self) -> Seq<char> {
        match self {
            SupervisorError::Signal(_) => "signal listener setup failed: "@,
            SupervisorError::Process(_) => "task failed: "@,
        }
    }

    /// Describes the error, given the description of its cause.
    pub fn describe(&self, cause: &str) -> (text: String)
        ensures
            text@ == self.heading() + cause@,
            self is Signal ==> text@ == "signal listener setup failed: "@ + cause@,
            self is Process ==> text@ == "task failed: "@ + cause@,
    {
        let heading = match self {
            SupervisorError::Signal(_) => "signal listener setup failed: ",
            SupervisorError::Process(_) => "task failed: ",
        };
        let mut text = heading.to_owned();
        text.append(cause);
        text
    }
}

impl<E: std::fmt::Display> SupervisorError<E> {
    /// Whether the cause of the error can be displayed as `text`.
    pub open spec fn cause_displays_as(self, text: String) -> bool {
        match self {
            SupervisorError::Signal(cause) => to_string_from_display_ensures(&cause, text),
            SupervisorError::Process(cause) => to_string_from_display_ensures(&cause, text),
        }
    }

    /// Describes the error with its cause.
    pub fn to_string(&self) -> (text: String)
        ensures
            exists|cause: String| #[trigger]
                self.cause_displays_as(cause) && text@ == self.heading() + cause@,
            *self matches SupervisorError::Signal(error) ==> exists|cause: String| #[trigger]
                to_string_from_display_ensures(&error, cause) && text@
                    == "signal listener setup failed: "@ + cause@,
            *self matches SupervisorError::Process(error) ==> exists|cause: String| #[trigger]
                to_string_from_display_ensures(&error, cause) && text@ == "task failed: "@ + cause@,
    {
        let cause = match self {
            SupervisorError::Signal(cause) => cause.to_string(),
            SupervisorError::Process(cause) => cause.to_string(),
        };
        assert(self.cause_displays_as(cause));
        self.describe(cause.as_str())
    }
}

impl<E> From<E> for SupervisorError<E> {
    fn from(err: E) -> (error: Self) {
        Self::Process(err)
    }
}

impl<E> vstd::std_specs::convert::FromSpecImpl<E> for SupervisorError<E> {
    open spec fn obeys_from_spec() -> bool {
        true
    }

    open spec fn from_spec(err: E) -> Self {
        SupervisorError::Process(err)
    }
}

/// The result to report for a process that ended with `ended`.
pub fn proc_result<T: Into<E>, E>(ended: Result<(), T>) -> (result: ProcResult<E>)
    ensures
        reports(ended, result),
        ended is Ok ==> result == ProcResult::<E>::Ok(()),
        ended matches Err(error) ==> {
            &&& result matches Err(SupervisorError::Process(converted))
            &&& call_ensures(T::into, (error,), converted)
        },
{
    match ended {
        Ok(()) => Ok(()),
        Err(error) => Err(SupervisorError::from_err(error)),
    }
}

/// The result to report for a process that ran in a task of its own: `joined`
/// is what joining the task brought, an error of type `J` if the task did not
/// run to its end.
pub fn join_result<T: Into<E>, J: Into<E>, E>(joined: Result<Result<(), T>, J>) -> (result:
    ProcResult<E>)
    ensures
        joined matches Ok(ended) ==> reports(ended, result),
        joined matches Err(error) ==> reports(Err::<(), J>(error), result),
        joined matches Ok(Ok(_)) ==> result == ProcResult::<E>::Ok(()),
        joined matches Ok(Err(error)) ==> {
            &&& result matches Err(SupervisorError::Process(converted))
            &&& call_ensures(T::into, (error,), converted)
        },
        joined matches Err(error) ==> {
            &&& result matches Err(SupervisorError::Process(converted))
            &&& call_ensures(J::into, (error,), converted)
        },
{
    match joined {
        Ok(Ok(())) => Ok(()),
        Ok(Err(error)) => Err(SupervisorError::from_err(error)),
        Err(error) => Err(SupervisorError::from_err(error)),
    }
}

/// A process that ended well reports success, and one that ended with an error
/// reports what that error converts into, as the failure of a process.
pub proof fn law_what_is_reported<T: Into<E>, E>(ended: Result<(), T>, result: ProcResult<E>)
    requires
        reports(ended, result),
    ensures
        ended is Ok ==> result == ProcResult::<E>::Ok(()),
        ended matches Err(error) ==> {
            &&& result matches Err(SupervisorError::Process(converted))
            &&& call_ensures(T::into, (error,), converted)
        },
{
}

/// A process reports the same whether its future is run as it is or in a task
/// of its own that runs to its end, provided that converting its error can
/// bring only one value.
pub proof fn law_run_agrees_with_join<T: Into<E>, E>(
    ended: Result<(), T>,
    alone: ProcResult<E>,
    joined: ProcResult<E>,
)
    requires
        reports(ended, alone),
        reports(ended, joined),
        ended matches Err(error) ==> forall|one: E, other: E| #[trigger]
            call_ensures(T::into, (error,), one) && #[trigger] call_ensures(
                T::into,
                (error,),
                other,
            ) ==> one == other,
    ensures
        alone == joined,
{
}

/// An error of the type that processes fail with becomes the same failure
/// whether it is converted by `From` or by [`SupervisorError::from_err`],
/// provided that converting it into its own type leaves it as it is.
pub proof fn law_from_agrees_with_from_err<E>(
    err: E,
    converted: SupervisorError<E>,
    created: SupervisorError<E>,
)
    requires
        call_ensures(SupervisorError::<E>::from, (err,), converted),
        call_ensures(SupervisorError::<E>::from_err::<E>, (err,), created),
        forall|same: E| #[trigger] call_ensures(<E as Into<E>>::into, (err,), same) ==> same == err,
    ensures
        converted == SupervisorError::Process(err),
        created == SupervisorError::Process(err),
{
}

/// The result that reports `failure`, if there is one.
pub(crate) fn failure_to_result<E>(failure: Option<SupervisorError<E>>) -> (result: ProcResult<E>)
    ensures
        result == failure_result(failure),
{
    match failure {
        Some(error) => Err(error),
        None => Ok(()),
    }
}

} // verus!
