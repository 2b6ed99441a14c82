//! Everything that this library takes on trust: the types of `std`, `futures`
//! and `tokio-util` that it carries, and what it believes of the calls it
//! makes on them.
//!
//! The view `@` of a future stands for what awaiting it brings.
use crate::error::{proc_result, reports, ProcResult, SupervisorError};
use crate::supervision::{drives, RunFuture, Slot};
use core::future::Future;
use core::pin::Pin;
use core::task::{Context, Poll};
use futures::task::FutureObj;
use futures::FutureExt;
use tokio_util::sync::{CancellationToken, WaitForCancellationFutureOwned};
use vstd::future::FutureAdditionalSpecFns;
use vstd::prelude::*;

verus! {

/// `std::io::Error`, carried as it is.
#[verifier::external_type_specification]
#[verifier::external_body]
pub struct ExIoError(std::io::Error);

/// `core::pin::Pin`, carried as it is.
#[verifier::external_type_specification]
#[verifier::external_body]
#[verifier::reject_recursive_types(Ptr)]
pub struct ExPin<Ptr>(core::pin::Pin<Ptr>);

/// `core::task::Context`, handed on to the futures that are polled.
#[verifier::external_type_specification]
#[verifier::external_body]
pub struct ExContext<'a>(core::task::Context<'a>);

/// `core::task::Poll`, with its two variants.
#[verifier::external_type_specification]
#[verifier::reject_recursive_types(T)]
pub struct ExPoll<T>(core::task::Poll<T>);

/// `futures::task::FutureObj`, a boxed future that can be sent to another
/// thread.
#[verifier::external_type_specification]
#[verifier::external_body]
#[verifier::reject_recursive_types(T)]
pub struct ExFutureObj<'a, T>(futures::task::FutureObj<'a, T>);

/// `tokio_util::sync::CancellationToken`, a handle on a node of a cancellation
/// tree.
#[verifier::external_type_specification]
#[verifier::external_body]
pub struct ExCancellationToken(CancellationToken);

/// `tokio_util::sync::WaitForCancellationFutureOwned`, the future that waits
/// for a token.
#[verifier::external_type_specification]
#[verifier::external_body]
pub struct ExWaitForCancellationFutureOwned(WaitForCancellationFutureOwned);

/// How the node that the token is a handle on was derived when it was created:
/// the node that was made first, then each one derived from the one before it,
/// down to the token's own. Nodes are numbered in the order of their creation.
/// This is history, so it never changes, whatever becomes of the links between
/// the nodes; all handles on a node share it.
pub uninterp spec fn token_lineage(token: CancellationToken) -> Seq<nat>;

/// Whether the token's node is known to be cancelled by whoever holds this
/// value. A cancelled node stays cancelled, so what is known stays true; that
/// it is not known rules nothing out, since any other handle on the node or
/// on one above it can cancel the node at any time.
pub uninterp spec fn token_cancelled(token: CancellationToken) -> bool;

/// The token that the future waits for.
pub uninterp spec fn awaited_token(
    wait: Pin<Box<WaitForCancellationFutureOwned>>,
) -> CancellationToken;

/// Whether the handle is the very one that `CancellationToken::new` gave out
/// here, and not a clone of it or a token derived from it. The library cancels
/// a node only through this handle, so that whoever holds it knows of every
/// cancellation that the library makes.
pub uninterp spec fn made_by_new(token: CancellationToken) -> bool;

/// Whether two tokens are handles on the same node, and as much is known of it
/// through the one as through the other.
pub open spec fn same_node(token: CancellationToken, other: CancellationToken) -> bool {
    &&& token_lineage(token) == token_lineage(other)
    &&& token_cancelled(token) == token_cancelled(other)
}

/// Whether the token's node is that of `other`, or was derived from it when it
/// was created, directly or through others.
pub open spec fn below(token: CancellationToken, other: CancellationToken) -> bool {
    token_lineage(other).is_prefix_of(token_lineage(token))
}

/// Whether `child` was derived directly from `parent`.
pub open spec fn derived_from(child: CancellationToken, parent: CancellationToken) -> bool {
    &&& token_lineage(child).len() > 0
    &&& token_lineage(child).drop_last() == token_lineage(parent)
}

/// Whether the token's node was created after that of `earlier`.
pub open spec fn created_after(token: CancellationToken, earlier: CancellationToken) -> bool {
    token_lineage(token).last() > token_lineage(earlier).last()
}

/// `CancellationToken::new` makes a node that is derived from no other and is
/// not cancelled. The processes that were started before are handed over so
/// that it can be said that the node is created after those of their tokens.
#[verifier::external_body]
pub(crate) fn new_token<E>(_earlier: &Vec<Slot<E>>) -> (token: CancellationToken)
    ensures
        token_lineage(token).len() == 1,
        !token_cancelled(token),
        made_by_new(token),
        forall|i: int|
            0 <= i < _earlier@.len() && #[trigger] _earlier@[i] is Started ==> created_after(
                token,
                _earlier@[i]->Started_0.cancel_token,
            ),
{
    CancellationToken::new()
}

/// `CancellationToken::child_token` makes a node that is derived directly from
/// the token's own. It comes cancelled below a cancelled node, so it is known
/// to be cancelled if that one is; beyond that nothing is known of it.
pub assume_specification[ CancellationToken::child_token ](parent: &CancellationToken) -> (child:
    CancellationToken)
    ensures
        derived_from(child, *parent),
        token_cancelled(child) == token_cancelled(*parent),
        !made_by_new(child),
;

/// `CancellationToken::is_cancelled` finds a node cancelled that is known to
/// be so. Of any other node nothing is said: it may have been cancelled
/// through another handle.
pub assume_specification[ CancellationToken::is_cancelled ](token: &CancellationToken) -> (found:
    bool)
    ensures
        token_cancelled(*token) ==> found,
;

/// `CancellationToken::clone` gives a second handle on the same node.
#[verifier::external_body]
pub(crate) fn clone_token(token: &CancellationToken) -> (handle: CancellationToken)
    ensures
        same_node(handle, *token),
        !made_by_new(handle),
{
    token.clone()
}

/// `CancellationToken::cancel` cancels the node; when it returns, the node is
/// cancelled. The token is taken by `&mut` so that its value can say so. Any
/// handle would do; only the one that `CancellationToken::new` gave out is
/// admitted, so that the library has not cancelled the node of such a handle
/// that does not know of it.
#[verifier::external_body]
pub(crate) fn cancel_token(token: &mut CancellationToken)
    requires
        made_by_new(*old(token)),
    ensures
        token_cancelled(*final(token)),
        made_by_new(*final(token)),
        token_lineage(*final(token)) == token_lineage(*old(token)),
{
    token.cancel()
}

/// `CancellationToken::cancelled_owned`, boxed, is a future that waits for the
/// token it is made from.
#[verifier::external_body]
pub(crate) fn wait_for_token(token: CancellationToken) -> (wait: Pin<
    Box<WaitForCancellationFutureOwned>,
>)
    ensures
        awaited_token(wait) == token,
{
    Box::pin(token.cancelled_owned())
}

/// `FutureObj::new` on a pinned box is a future that resolves to what the
/// boxed future resolves to.
#[verifier::external_body]
pub(crate) fn box_future<F: Future + Send + 'static>(future: F) -> (boxed: FutureObj<
    'static,
    F::Output,
>)
    ensures
        boxed@ == future@,
{
    FutureObj::new(Box::pin(future))
}

/// `FutureExt::map` with [`proc_result`], boxed by `FutureObj::new`, is a
/// future that resolves to what [`proc_result`] makes of that which the given
/// future resolves to.
#[verifier::external_body]
pub(crate) fn box_reported<F, T, E>(future: F) -> (boxed: FutureObj<'static, ProcResult<E>>) where
    F: Future<Output = Result<(), T>> + Send + 'static,
    T: Into<E> + 'static,
    E: 'static,

    ensures
        reports(future@, boxed@),
{
    FutureObj::new(Box::pin(future.map(|ended| proc_result(ended))))
}

/// `FutureExt::map` with [`proc_result`], boxed by `FutureObj::new`, polls the
/// given run once whenever it is polled, and brings what [`proc_result`] makes
/// of its result; so it resolves to what [`proc_result`] makes of that which
/// the run resolves to.
#[verifier::external_body]
pub(crate) fn box_run<E>(run: RunFuture<E>) -> (boxed: FutureObj<'static, ProcResult<E>>) where
    E: From<SupervisorError<E>> + Send + 'static,

    ensures
        forall|polls: nat| #[trigger] drives(boxed, run, polls),
        reports(run@, boxed@),
{
    FutureObj::new(Box::pin(run.map(|ended| proc_result(ended))))
}

/// Polling a `WaitForCancellationFutureOwned` reads whether its token is
/// cancelled and is ready if so, and only then. The future is given back and
/// goes on waiting for the same node, and what is known of that is what this
/// poll found; it may be polled again in any case.
#[verifier::external_body]
pub(crate) fn poll_wait(
    wait: Pin<Box<WaitForCancellationFutureOwned>>,
    cx: &mut Context<'_>,
) -> (polled: (Poll<()>, Pin<Box<WaitForCancellationFutureOwned>>))
    ensures
        token_lineage(awaited_token(polled.1)) == token_lineage(awaited_token(wait)),
        token_cancelled(awaited_token(wait)) ==> polled.0 is Ready,
        polled.0 is Ready <==> token_cancelled(awaited_token(polled.1)),
{
    let mut wait = wait;
    (wait.as_mut().poll(cx), wait)
}

/// `Future::poll` on a boxed future. If the future is ready, this brings what
/// the future resolves to and the future is gone, so that it is never polled
/// again; if not, it is given back and goes on to resolve to the same. Whether
/// it is ready depends on whoever wrote the future and on when it is asked, so
/// nothing is said of that.
#[verifier::external_body]
pub(crate) fn poll_future<T>(future: FutureObj<'static, T>, cx: &mut Context<'_>) -> (polled:
    Result<T, FutureObj<'static, T>>)
    ensures
        polled matches Ok(output) ==> output == future@,
        polled matches Err(rest) ==> rest@ == future@,
{
    let mut future = future;
    match Pin::new(&mut future).poll(cx) {
        Poll::Ready(output) => Ok(output),
        Poll::Pending => Err(future),
    }
}

/// `Pin::get_mut` gives out the reference that is pinned. What a `Pin` holds
/// is hidden, so nothing is said of it; contracts speak of it as that which
/// this call gives out.
pub assume_specification<'a, T: ?Sized>[ Pin::<&'a mut T>::get_mut ](
    pinned: Pin<&'a mut T>,
) -> (reference: &'a mut T) where T: Unpin
;

} // verus!
