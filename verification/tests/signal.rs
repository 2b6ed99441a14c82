use futures::FutureExt;
use std::task::{Context, Poll};
use super_visor::ShutdownSignal;
use tokio_util::sync::CancellationToken;

#[test]
fn signal_follows_its_token() {
    let token = CancellationToken::new();
    let signal = ShutdownSignal::new(token.clone());
    assert!(!signal.is_cancelled());
    assert!(signal.token() == &token);
    token.cancel();
    assert!(signal.is_cancelled());
}

#[test]
fn signal_follows_the_parent_of_its_token() {
    let parent = CancellationToken::new();
    let signal = ShutdownSignal::new(parent.child_token());
    assert!(!signal.is_cancelled());
    parent.cancel();
    assert!(signal.is_cancelled());
}

#[test]
fn cancelling_a_signal_leaves_the_parent_alone() {
    let parent = CancellationToken::new();
    let signal = ShutdownSignal::new(parent.child_token());
    signal.token().cancel();
    assert!(signal.is_cancelled());
    assert!(!parent.is_cancelled());
}

#[test]
fn polling_waits_for_the_token() {
    let token = CancellationToken::new();
    let mut signal = ShutdownSignal::new(token.clone());
    let waker = futures::task::noop_waker();
    let mut cx = Context::from_waker(&waker);
    assert_eq!(Poll::Pending, signal.poll_signal(&mut cx));
    assert_eq!(Poll::Pending, signal.poll_unpin(&mut cx));
    token.cancel();
    assert_eq!(Poll::Ready(()), signal.poll_unpin(&mut cx));
    assert_eq!(Poll::Ready(()), signal.poll_signal(&mut cx));
}

#[test]
fn clones_listen_to_the_same_token() {
    let token = CancellationToken::new();
    let mut signal = ShutdownSignal::new(token);
    let waker = futures::task::noop_waker();
    let mut cx = Context::from_waker(&waker);
    assert_eq!(Poll::Pending, signal.poll_signal(&mut cx));
    let mut copy = signal.clone();
    assert!(copy.token() == signal.token());
    assert_eq!(Poll::Pending, copy.poll_signal(&mut cx));
    copy.token().cancel();
    assert!(signal.is_cancelled());
    assert_eq!(Poll::Ready(()), signal.poll_signal(&mut cx));
    assert_eq!(Poll::Ready(()), copy.poll_signal(&mut cx));
}
