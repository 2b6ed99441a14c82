//! The signal by which a supervised process learns that it is to stop.
use crate::trusted::{
    awaited_token, clone_token, poll_wait, same_node, token_cancelled, token_lineage,
    wait_for_token,
};
use core::future::Future;
use core::pin::Pin;
use core::task::{Context, Poll};
use tokio_util::sync::{CancellationToken, WaitForCancellationFutureOwned};
use vstd::prelude::*;

verus! {

/// An awaitable construct for signalling shutdown to supervised processes to
/// complete work and exit on the next available await point.
///
/// The future that waits for the token is made when the signal is first
/// polled, so that a signal can be cloned and one source can reach many
/// listeners.
pub struct ShutdownSignal {
    token: CancellationToken,
    future: Option<Pin<Box<WaitForCancellationFutureOwned>>>,
}

impl ShutdownSignal {
    /// The token that the signal listens to.
    pub closed spec fn source(self) -> CancellationToken {
        self.token
    }

    /// Whether the signal has been polled, so that a future waits for the
    /// token.
    pub closed spec fn listening(self) -> bool {
        self.future is Some
    }

    /// Whether a poll of the signal has found the token cancelled.
    pub closed spec fn fired(self) -> bool {
        self.future is Some && token_cancelled(awaited_token(self.future->0))
    }

    /// The future that waits for the token, once there is one.
    pub closed spec fn held(self) -> Option<Pin<Box<WaitForCancellationFutureOwned>>> {
        self.future
    }

    /// The future of a signal waits for the node of the signal's own token,
    /// and knows of a cancellation that the token knows of.
    #[verifier::type_invariant]
    spec fn waits_for_own_token(self) -> bool {
        self.future matches Some(wait) ==> {
            &&& token_lineage(awaited_token(wait)) == token_lineage(self.token)
            &&& token_cancelled(self.token) ==> token_cancelled(awaited_token(wait))
        }
    }

    /// A signal that fires when `token` is cancelled.
    pub fn new(token: CancellationToken) -> (signal: Self)
        ensures
            signal.source() == token,
            !signal.listening(),
            !signal.fired(),
    {
        Self { token, future: None }
    }

    /// Whether the token is cancelled now: the answer that the token itself
    /// gives.
    ///
    /// A token that is not known to be cancelled may have been cancelled
    /// through another handle, so in that case either answer can come.
    pub fn is_cancelled(&self) -> (found: bool)
        ensures
            call_ensures(CancellationToken::is_cancelled, (&self.source(),), found),
            token_cancelled(self.source()) ==> found,
    {
        self.token.is_cancelled()
    }

    /// The token that the signal listens to.
    pub fn token(&self) -> (token: &CancellationToken)
        ensures
            *token == self.source(),
    {
        &self.token
    }

    /// Whether `polled` is what the future that waits for this signal's token
    /// answered when it was polled with the context, which left the signal as
    /// `after`. Before the first poll that future is one made for the token.
    pub closed spec fn asks_token(
        self,
        cx: &mut Context<'_>,
        after: Self,
        polled: Poll<()>,
    ) -> bool {
        exists|wait: Pin<Box<WaitForCancellationFutureOwned>>|
            {
                &&& after.future is Some
                &&& #[trigger] call_ensures(poll_wait, (wait, cx), (polled, after.future->0))
                &&& match self.future {
                    Some(held) => wait == held,
                    None => same_node(awaited_token(wait), self.token),
                }
            }
    }

    /// Whether a poll of this signal can bring `polled` and leave `after`: the
    /// answer is that of the future which waits for the token, the signal goes
    /// on listening to the same token, it is ready if the token is known to be
    /// cancelled or if it was ready before, and it is ready only if the token
    /// has been found cancelled.
    pub open spec fn polls_to(self, after: Self, polled: Poll<()>) -> bool {
        &&& exists|cx: &mut Context<'_>| #[trigger] self.asks_token(cx, after, polled)
        &&& after.source() == self.source()
        &&& after.listening()
        &&& token_cancelled(self.source()) ==> polled is Ready
        &&& self.fired() ==> polled is Ready
        &&& polled is Ready <==> after.fired()
    }

    /// Polls the signal. The first poll makes the future that waits for the
    /// token; this poll and all later ones ask that future, with the given
    /// context.
    pub fn poll_signal(&mut self, cx: &mut Context<'_>) -> (polled: Poll<()>)
        ensures
            old(self).polls_to(*final(self), polled),
            exists|context: &mut Context<'_>|
                {
                    &&& #[trigger] old(self).asks_token(context, *final(self), polled)
                    &&& *context == *old(cx)
                    &&& *final(context) == *final(cx)
                },
    {
        proof {
            use_type_invariant(&*self);
        }
        let mut held: Option<Pin<Box<WaitForCancellationFutureOwned>>> = None;
        std::mem::swap(&mut held, &mut self.future);
        let wait = match held {
            Some(wait) => wait,
            None => wait_for_token(clone_token(&self.token)),
        };
        let context = &mut *cx;
        let (polled, rest) = poll_wait(wait, context);
        self.future = Some(rest);
        proof {
            assert forall|context: &mut Context<'_>| #[trigger]
                call_ensures(poll_wait, (wait, context), (polled, rest)) implies old(
                self,
            ).asks_token(context, *self, polled) by {}
        }
        polled
    }
}

impl Future for ShutdownSignal {
    type Output = ();

    /// Polls the signal that is pinned, as [`ShutdownSignal::poll_signal`]
    /// does.
    fn poll(self: Pin<&mut Self>, cx: &mut Context<'_>) -> (polled: Poll<Self::Output>)
        ensures
            exists|signal: &mut Self|
                {
                    &&& #[trigger] call_ensures(Pin::<&mut Self>::get_mut, (self,), signal)
                    &&& (*signal).polls_to(*final(signal), polled)
                    &&& exists|context: &mut Context<'_>|
                        {
                            &&& #[trigger] (*signal).asks_token(context, *final(signal), polled)
                            &&& *context == *old(cx)
                            &&& *final(context) == *final(cx)
                        }
                },
    {
        let signal = self.get_mut();
        signal.poll_signal(cx)
    }
}

impl Clone for ShutdownSignal {
    fn clone(&self) -> (signal: Self)
        ensures
            same_node(signal.source(), self.source()),
            !signal.listening(),
            !signal.fired(),
    {
        Self { token: clone_token(&self.token), future: None }
    }
}

/// A poll of a signal is a poll, with the same context, of the future that it
/// holds, or of one made for its token if it holds none yet; and what that
/// poll left of the future is what the signal holds afterwards. So the future
/// that is held while the signal waits is always the one that was asked last.
pub(crate) proof fn law_keeps_the_polled_future(
    signal: ShutdownSignal,
    cx: &mut Context<'_>,
    after: ShutdownSignal,
    polled: Poll<()>,
) -> (wait: Pin<Box<WaitForCancellationFutureOwned>>)
    requires
        signal.asks_token(cx, after, polled),
    ensures
        after.held() is Some,
        call_ensures(poll_wait, (wait, cx), (polled, after.held()->0)),
        signal.held() is Some ==> wait == signal.held()->0,
        signal.held() is None ==> token_lineage(awaited_token(wait)) == token_lineage(
            signal.source(),
        ),
        signal.held() is None ==> token_cancelled(awaited_token(wait)) == token_cancelled(
            signal.source(),
        ),
        polled is Ready <==> token_cancelled(awaited_token(after.held()->0)),
{
    choose|wait: Pin<Box<WaitForCancellationFutureOwned>>|
        {
            &&& after.future is Some
            &&& #[trigger] call_ensures(poll_wait, (wait, cx), (polled, after.future->0))
            &&& match signal.future {
                Some(held) => wait == held,
                None => same_node(awaited_token(wait), signal.token),
            }
        }
}

/// A signal that was not polled holds no future.
pub(crate) proof fn lemma_not_listening(signal: ShutdownSignal)
    requires
        !signal.listening(),
    ensures
        signal.held() is None,
{
}

/// What a poll of a signal brings and leaves: it listens to the same token as
/// before, it is ready if the token was known to be cancelled or if an earlier
/// poll was ready, and then it stays so.
pub proof fn law_what_a_poll_brings(
    signal: ShutdownSignal,
    after: ShutdownSignal,
    polled: Poll<()>,
)
    requires
        signal.polls_to(after, polled),
    ensures
        exists|cx: &mut Context<'_>| #[trigger] signal.asks_token(cx, after, polled),
        after.source() == signal.source(),
        after.held() is Some,
        polled is Ready <==> token_cancelled(awaited_token(after.held()->0)),
        token_cancelled(signal.source()) ==> polled is Ready,
        signal.held() is Some && token_cancelled(awaited_token(signal.held()->0))
            ==> polled is Ready,
{
}

/// A signal answers as its token does: what it says is an answer that the
/// token gave, and it finds a cancellation that is known.
pub proof fn law_answers_as_its_token(signal: ShutdownSignal, found: bool)
    requires
        call_ensures(ShutdownSignal::is_cancelled, (&signal,), found),
    ensures
        call_ensures(CancellationToken::is_cancelled, (&signal.source(),), found),
        token_cancelled(signal.source()) ==> found,
{
}

/// A poll is ready exactly if it finds the token cancelled, and once a poll
/// was ready, all later ones are. `signals` are what the polls leave, one
/// after the other, and `polled` is what they bring.
pub proof fn law_ready_for_ever(
    signals: Seq<ShutdownSignal>,
    polled: Seq<Poll<()>>,
    i: int,
    j: int,
)
    requires
        signals.len() == polled.len() + 1,
        forall|k: int|
            0 <= k < polled.len() ==> signals[k].polls_to(
                signals[k + 1],
                #[trigger] polled[k],
            ),
        0 <= i <= j < polled.len(),
    ensures
        signals[j + 1].source() == signals[i].source(),
        polled[j] is Ready <==> signals[j + 1].fired(),
        polled[i] is Ready ==> polled[j] is Ready,
        token_cancelled(signals[i].source()) ==> polled[j] is Ready,
    decreases j - i,
{
    assert(signals[j].polls_to(signals[j + 1], polled[j]));
    if i < j {
        law_ready_for_ever(signals, polled, i, j - 1);
    }
}

/// A signal and its clone listen to the same node: once the cancellation is
/// known, both are ready when they are polled, and both say that they are
/// cancelled.
pub proof fn law_clones_agree(
    signal: ShutdownSignal,
    copy: ShutdownSignal,
    after: ShutdownSignal,
    polled: Poll<()>,
    found: bool,
)
    requires
        call_ensures(ShutdownSignal::clone, (&signal,), copy),
        token_cancelled(signal.source()) || token_cancelled(copy.source()),
    ensures
        token_lineage(copy.source()) == token_lineage(signal.source()),
        signal.polls_to(after, polled) ==> polled is Ready,
        copy.polls_to(after, polled) ==> polled is Ready,
        call_ensures(ShutdownSignal::is_cancelled, (&signal,), found) ==> found,
        call_ensures(ShutdownSignal::is_cancelled, (&copy,), found) ==> found,
{
}

impl Unpin for ShutdownSignal {

}

} // verus!
