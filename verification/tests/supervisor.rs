use futures::future::{pending, select};
use futures::task::FutureObj;
use futures::FutureExt;
use std::fmt;
use std::future::Future;
use std::task::Context;
use std::time::Duration;
use super_visor::supervision::Shutdown;
use super_visor::{
    ManagedFuture, ManagedProc, ProcFn, ProcResult, ShutdownSignal, Supervisor, SupervisorError,
};
use tokio::signal;
use tokio::sync::mpsc;
use tokio_util::sync::CancellationToken;

type BoxError = Box<dyn std::error::Error + Send + Sync>;

#[derive(Debug)]
struct Cause(BoxError);

impl fmt::Display for Cause {
    fn fmt(&self, f: &mut fmt::Formatter<'_>) -> fmt::Result {
        self.0.fmt(f)
    }
}

impl From<TestError> for Cause {
    fn from(err: TestError) -> Self {
        Cause(Box::new(err))
    }
}

impl From<tokio::task::JoinError> for Cause {
    fn from(err: tokio::task::JoinError) -> Self {
        Cause(Box::new(err))
    }
}

impl From<SupervisorError<Cause>> for Cause {
    fn from(err: SupervisorError<Cause>) -> Self {
        Cause(err.to_string().into())
    }
}

#[derive(Debug)]
struct TestError(&'static str);

impl fmt::Display for TestError {
    fn fmt(&self, f: &mut fmt::Formatter<'_>) -> fmt::Result {
        f.write_str(self.0)
    }
}

impl std::error::Error for TestError {}

fn test_err(msg: &'static str) -> SupervisorError<Cause> {
    SupervisorError::from_err(TestError(msg))
}

struct TestProc {
    name: &'static str,
    delay: u64,
    result: ProcResult<Cause>,
    sender: mpsc::Sender<&'static str>,
}

impl ManagedProc<Cause> for TestProc {
    fn run_proc(self: Box<Self>, shutdown: ShutdownSignal) -> ManagedFuture<Cause> {
        let handle = tokio::spawn(async move {
            let nap = tokio::time::sleep(Duration::from_millis(self.delay));
            select(shutdown, Box::pin(nap)).await;
            self.sender.send(self.name).await.expect("unable to send");
            self.result
        });

        FutureObj::new(Box::pin(handle.map(|result| match result {
            Ok(inner) => inner,
            Err(e) => Err(SupervisorError::from_err(e)),
        })))
    }
}

fn block_on<F: Future>(future: F) -> F::Output {
    let runtime = tokio::runtime::Builder::new_current_thread().enable_all().build();
    runtime.expect("runtime").block_on(future)
}

fn listeners() -> Result<FutureObj<'static, ()>, std::io::Error> {
    let mut sigterm = signal::unix::signal(signal::unix::SignalKind::terminate())?;
    let heard = select(
        Box::pin(async move { sigterm.recv().await }),
        Box::pin(signal::ctrl_c()),
    );
    Ok(FutureObj::new(Box::pin(heard.map(|_| ()))))
}

async fn start(supervisor: Supervisor<Cause>) -> ProcResult<Cause> {
    supervisor.start(listeners())?.await
}

fn never() -> Shutdown {
    Shutdown::Future(FutureObj::new(Box::pin(pending())))
}

#[test]
fn stop_when_all_tasks_have_completed() {
    block_on(async {
        let (sender, mut receiver) = mpsc::channel(5);

        let result = start(
            Supervisor::builder()
                .add_proc(TestProc {
                    name: "1",
                    delay: 50,
                    result: Ok(()),
                    sender: sender.clone(),
                })
                .add_proc(TestProc {
                    name: "2",
                    delay: 100,
                    result: Ok(()),
                    sender: sender.clone(),
                })
                .build(),
        )
        .await;

        assert_eq!(Some("1"), receiver.recv().await);
        assert_eq!(Some("2"), receiver.recv().await);
        assert!(result.is_ok());
    })
}

#[test]
fn will_stop_all_in_reverse_order_after_error() {
    block_on(async {
        let (sender, mut receiver) = mpsc::channel(5);

        let result = start(
            Supervisor::builder()
                .add_proc(TestProc {
                    name: "1",
                    delay: 1000,
                    result: Ok(()),
                    sender: sender.clone(),
                })
                .add_proc(TestProc {
                    name: "2",
                    delay: 50,
                    result: Err(test_err("error")),
                    sender: sender.clone(),
                })
                .add_proc(TestProc {
                    name: "3",
                    delay: 1000,
                    result: Ok(()),
                    sender: sender.clone(),
                })
                .build(),
        )
        .await;

        assert_eq!(Some("2"), receiver.recv().await);
        assert_eq!(Some("3"), receiver.recv().await);
        assert_eq!(Some("1"), receiver.recv().await);
        assert_eq!("task failed: error", result.unwrap_err().to_string());
    })
}

#[test]
fn will_return_first_error_returned() {
    block_on(async {
        let (sender, mut receiver) = mpsc::channel(5);

        let result = start(
            Supervisor::builder()
                .add_proc(TestProc {
                    name: "1",
                    delay: 1000,
                    result: Ok(()),
                    sender: sender.clone(),
                })
                .add_proc(TestProc {
                    name: "2",
                    delay: 50,
                    result: Err(test_err("error")),
                    sender: sender.clone(),
                })
                .add_proc(TestProc {
                    name: "3",
                    delay: 200,
                    result: Err(test_err("second error")),
                    sender: sender.clone(),
                })
                .build(),
        )
        .await;

        assert_eq!(Some("2"), receiver.recv().await);
        assert_eq!(Some("3"), receiver.recv().await);
        assert_eq!(Some("1"), receiver.recv().await);
        assert_eq!("task failed: error", result.unwrap_err().to_string());
    })
}

#[test]
fn nested_procs_will_stop_parent_then_move_up() {
    block_on(async {
        let (sender, mut receiver) = mpsc::channel(10);

        let result = start(
            Supervisor::builder()
                .add_proc(TestProc {
                    name: "proc-1",
                    delay: 500,
                    result: Ok(()),
                    sender: sender.clone(),
                })
                .add_proc(
                    Supervisor::builder()
                        .add_proc(TestProc {
                            name: "proc-2-1",
                            delay: 500,
                            result: Ok(()),
                            sender: sender.clone(),
                        })
                        .add_proc(TestProc {
                            name: "proc-2-2",
                            delay: 100,
                            result: Err(test_err("error")),
                            sender: sender.clone(),
                        })
                        .add_proc(TestProc {
                            name: "proc-2-3",
                            delay: 500,
                            result: Ok(()),
                            sender: sender.clone(),
                        })
                        .add_proc(TestProc {
                            name: "proc-2-4",
                            delay: 500,
                            result: Ok(()),
                            sender: sender.clone(),
                        })
                        .build(),
                )
                .add_proc(
                    Supervisor::builder()
                        .add_proc(TestProc {
                            name: "proc-3-1",
                            delay: 1000,
                            result: Ok(()),
                            sender: sender.clone(),
                        })
                        .add_proc(TestProc {
                            name: "proc-3-2",
                            delay: 1000,
                            result: Ok(()),
                            sender: sender.clone(),
                        })
                        .add_proc(TestProc {
                            name: "proc-3-3",
                            delay: 1000,
                            result: Ok(()),
                            sender: sender.clone(),
                        })
                        .build(),
                )
                .build(),
        )
        .await;

        assert_eq!(Some("proc-2-2"), receiver.recv().await);
        assert_eq!(Some("proc-2-4"), receiver.recv().await);
        assert_eq!(Some("proc-2-3"), receiver.recv().await);
        assert_eq!(Some("proc-2-1"), receiver.recv().await);
        assert_eq!(Some("proc-3-3"), receiver.recv().await);
        assert_eq!(Some("proc-3-2"), receiver.recv().await);
        assert_eq!(Some("proc-3-1"), receiver.recv().await);
        assert_eq!(Some("proc-1"), receiver.recv().await);
        assert!(result.is_err());
    })
}

#[test]
fn failure_of_a_nested_supervisor_is_reported_as_its_own() {
    block_on(async {
        let (sender, _receiver) = mpsc::channel(5);
        let mut inner = Supervisor::new();
        inner.add(TestProc {
            name: "inner",
            delay: 5,
            result: Err(test_err("error")),
            sender,
        });
        let mut outer: Supervisor<Cause> = Supervisor::default();
        outer.add(inner);

        let result = outer.do_run(never()).await;

        assert_eq!("task failed: task failed: error", result.unwrap_err().to_string());
    })
}

#[test]
fn shutdown_stops_all_in_reverse_order() {
    block_on(async {
        let (sender, mut receiver) = mpsc::channel(5);
        let mut supervisor = Supervisor::new();
        for name in ["1", "2", "3"] {
            supervisor.add(TestProc { name, delay: 10_000, result: Ok(()), sender: sender.clone() });
        }
        let token = CancellationToken::new();
        let mut run = supervisor.do_run(Shutdown::Signal(ShutdownSignal::new(token.child_token())));

        let early = tokio::time::timeout(Duration::from_millis(20), &mut run).await;
        assert!(early.is_err());
        assert!(!run.is_done());
        token.cancel();
        let result = run.await;

        assert_eq!(Some("3"), receiver.recv().await);
        assert_eq!(Some("2"), receiver.recv().await);
        assert_eq!(Some("1"), receiver.recv().await);
        assert!(result.is_ok());
    })
}

#[test]
fn shutdown_reports_the_first_failure_of_the_stopped() {
    block_on(async {
        let (sender, _receiver) = mpsc::channel(5);
        let supervisor = Supervisor::builder()
            .add_proc(TestProc {
                name: "1",
                delay: 10_000,
                result: Err(test_err("first registered")),
                sender: sender.clone(),
            })
            .add_proc(TestProc {
                name: "2",
                delay: 10_000,
                result: Err(test_err("last registered")),
                sender: sender.clone(),
            })
            .build();
        let shutdown = Shutdown::Future(FutureObj::new(Box::pin(async {})));

        let result = supervisor.do_run(shutdown).await;

        assert_eq!("task failed: last registered", result.unwrap_err().to_string());
    })
}

#[test]
fn no_processes_end_at_once() {
    block_on(async {
        let supervisor: Supervisor<Cause> = Supervisor::new();
        assert!(supervisor.do_run(never()).await.is_ok());
    })
}

#[test]
fn without_listeners_nothing_is_started() {
    block_on(async {
        let (sender, mut receiver) = mpsc::channel(5);
        let supervisor = Supervisor::builder()
            .add_proc(TestProc { name: "1", delay: 0, result: Ok(()), sender })
            .build();

        let refused = supervisor.start(Err(std::io::Error::other("no signals")));

        match refused {
            Ok(_) => panic!("started"),
            Err(error) => {
                assert!(matches!(error, SupervisorError::Signal(_)));
                assert_eq!("signal listener setup failed: no signals", error.to_string());
            }
        }
        assert_eq!(None, receiver.recv().await);
    })
}

#[test]
fn a_finished_run_stays_pending() {
    block_on(async {
        let supervisor: Supervisor<Cause> = Supervisor::new();
        let mut run = supervisor.do_run(never());
        let waker = futures::task::noop_waker();
        let mut cx = Context::from_waker(&waker);
        assert!(run.poll_run(&mut cx).is_ready());
        assert!(run.is_done());
        assert!(run.poll_unpin(&mut cx).is_pending());
    })
}

#[test]
fn run_converts_the_error() {
    block_on(async {
        let failing = super_visor::run(async { Err::<(), TestError>(TestError("late")) });
        let result: ProcResult<Cause> = failing.await;
        assert_eq!("task failed: late", result.unwrap_err().to_string());

        let ending: ManagedFuture<Cause> = super_visor::run(async { Ok::<(), TestError>(()) });
        assert!(ending.await.is_ok());
    })
}

#[test]
fn supervisors_can_be_shared_between_threads() {
    fn is_send_and_sync<T: Send + Sync>(_: &T) {}
    let supervisor: Supervisor<Cause> = Supervisor::new();
    is_send_and_sync(&supervisor);
}

#[test]
fn processes_start_in_order_of_registration() {
    block_on(async {
        let (sender, mut receiver) = mpsc::channel(5);
        let mut supervisor = Supervisor::new();
        for name in ["1", "2", "3"] {
            supervisor.add(Announcing { name, sender: sender.clone() });
        }

        let run = supervisor.do_run(never());
        assert!(receiver.try_recv().is_err());
        assert!(run.await.is_ok());

        assert_eq!(Some("1"), receiver.recv().await);
        assert_eq!(Some("2"), receiver.recv().await);
        assert_eq!(Some("3"), receiver.recv().await);
    })
}

#[test]
fn a_group_starts_its_processes_after_its_siblings_have_started() {
    block_on(async {
        let (sender, mut receiver) = mpsc::channel(5);
        let announcing = |name| Announcing { name, sender: sender.clone() };
        let group = Supervisor::builder()
            .add_proc(announcing("g1"))
            .add_proc(announcing("g2"))
            .build();
        let supervisor = Supervisor::builder()
            .add_proc(announcing("p0"))
            .add_proc(group)
            .add_proc(announcing("p1"))
            .build();

        assert!(supervisor.do_run(never()).await.is_ok());

        assert_eq!(Some("p0"), receiver.recv().await);
        assert_eq!(Some("p1"), receiver.recv().await);
        assert_eq!(Some("g1"), receiver.recv().await);
        assert_eq!(Some("g2"), receiver.recv().await);
    })
}

#[test]
fn a_group_that_is_never_polled_starts_nothing() {
    let (sender, mut receiver) = mpsc::channel(5);
    let group: Box<Supervisor<Cause>> =
        Box::new(Supervisor::builder().add_proc(Announcing { name: "g1", sender }).build());

    let future = group.run_proc(ShutdownSignal::new(CancellationToken::new()));

    assert!(receiver.try_recv().is_err());
    drop(future);
    assert!(receiver.try_recv().is_err());
}

#[test]
fn a_group_told_to_stop_before_its_first_poll_starts_and_stops() {
    block_on(async {
        let (sender, mut receiver) = mpsc::channel(5);
        let group = Supervisor::builder()
            .add_proc(TestProc { name: "g1", delay: 10_000, result: Ok(()), sender })
            .build();
        let supervisor = Supervisor::builder().add_proc(FailingProc).add_proc(group).build();

        let result = supervisor.do_run(never()).await;

        assert_eq!(Some("g1"), receiver.recv().await);
        assert_eq!("task failed: at once", result.unwrap_err().to_string());
    })
}

#[test]
fn a_group_that_is_told_to_stop_tells_its_processes() {
    block_on(async {
        let (sender, mut receiver) = mpsc::channel(5);
        let group: Box<Supervisor<Cause>> = Box::new(
            Supervisor::builder()
                .add_proc(TestProc {
                    name: "g1",
                    delay: 10_000,
                    result: Ok(()),
                    sender: sender.clone(),
                })
                .add_proc(TestProc {
                    name: "g2",
                    delay: 10_000,
                    result: Err(test_err("error")),
                    sender: sender.clone(),
                })
                .build(),
        );
        let token = CancellationToken::new();
        token.cancel();

        let result = group.run_proc(ShutdownSignal::new(token)).await;

        assert_eq!(Some("g2"), receiver.recv().await);
        assert_eq!(Some("g1"), receiver.recv().await);
        assert_eq!("task failed: task failed: error", result.unwrap_err().to_string());
    })
}

#[test]
fn signals_of_different_processes_are_apart() {
    block_on(async {
        let (sender, mut receiver) = mpsc::channel(5);
        let supervisor = Supervisor::builder()
            .add_proc(SelfCancelling)
            .add_proc(TestProc { name: "other", delay: 30, result: Ok(()), sender })
            .build();
        let mut run = supervisor.do_run(never());

        let early = tokio::time::timeout(Duration::from_millis(10), &mut run).await;
        assert!(early.is_err());
        assert!(receiver.try_recv().is_err());
        assert!(run.await.is_ok());
        assert_eq!(Some("other"), receiver.recv().await);
    })
}

#[test]
fn a_shutdown_that_was_heard_stays_so() {
    block_on(async {
        let (sender, mut receiver) = mpsc::channel(5);
        let supervisor = Supervisor::builder()
            .add_proc(TestProc { name: "1", delay: 10_000, result: Ok(()), sender })
            .build();
        assert!(supervisor.do_run(Shutdown::Heard).await.is_ok());
        assert_eq!(Some("1"), receiver.recv().await);
    })
}

#[test]
fn closures_can_be_processes() {
    block_on(async {
        let (sender, mut receiver) = mpsc::channel(5);
        let slow = sender.clone();
        let supervisor: Supervisor<Cause> = Supervisor::builder()
            .add_proc(ProcFn::new(move |shutdown: ShutdownSignal| async move {
                shutdown.await;
                slow.send("stopped").await.expect("unable to send");
                Ok(())
            }))
            .add_proc(ProcFn::new(move |_: ShutdownSignal| async move {
                sender.send("failed").await.expect("unable to send");
                Err(test_err("closure"))
            }))
            .build();

        let result = supervisor.do_run(never()).await;

        assert_eq!(Some("failed"), receiver.recv().await);
        assert_eq!(Some("stopped"), receiver.recv().await);
        assert_eq!("task failed: closure", result.unwrap_err().to_string());
    })
}

#[test]
fn builder_and_direct_adding_agree() {
    block_on(async {
        let mut orders = Vec::new();
        for by_builder in [true, false] {
            let (sender, mut receiver) = mpsc::channel(5);
            let announcing = |name| Announcing { name, sender: sender.clone() };
            let supervisor = if by_builder {
                Supervisor::builder().add_proc(announcing("1")).add_proc(announcing("2")).build()
            } else {
                let mut supervisor = Supervisor::new();
                supervisor.add(announcing("1"));
                supervisor.add(announcing("2"));
                supervisor
            };
            assert!(supervisor.do_run(never()).await.is_ok());
            orders.push((receiver.recv().await, receiver.recv().await));
        }
        assert_eq!((Some("1"), Some("2")), orders[0]);
        assert_eq!(orders[0], orders[1]);
    })
}

#[test]
fn run_agrees_with_a_joined_task() {
    block_on(async {
        let alone: ProcResult<Cause> =
            super_visor::run(async { Err::<(), TestError>(TestError("late")) }).await;
        let task = tokio::spawn(async { Err::<(), TestError>(TestError("late")) });
        let joined: ProcResult<Cause> = super_visor::error::join_result(task.await);
        assert_eq!(alone.unwrap_err().to_string(), joined.unwrap_err().to_string());
    })
}

struct FailingProc;

impl ManagedProc<Cause> for FailingProc {
    fn run_proc(self: Box<Self>, _shutdown: ShutdownSignal) -> ManagedFuture<Cause> {
        super_visor::run(async { Err::<(), TestError>(TestError("at once")) })
    }
}

struct SelfCancelling;

impl ManagedProc<Cause> for SelfCancelling {
    fn run_proc(self: Box<Self>, shutdown: ShutdownSignal) -> ManagedFuture<Cause> {
        super_visor::run(async move {
            shutdown.token().cancel();
            Ok::<(), TestError>(())
        })
    }
}

struct Announcing {
    name: &'static str,
    sender: mpsc::Sender<&'static str>,
}

impl ManagedProc<Cause> for Announcing {
    fn run_proc(self: Box<Self>, shutdown: ShutdownSignal) -> ManagedFuture<Cause> {
        assert!(!shutdown.is_cancelled());
        self.sender.try_send(self.name).expect("unable to send");
        FutureObj::new(Box::pin(async { Ok(()) }))
    }
}
