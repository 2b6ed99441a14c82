//! Ordered startup and shutdown of long-running processes.
//!
//! A [`Supervisor`] starts the processes that are registered with it in the
//! order of their registration, drives them side by side, and, when it is told
//! to shut down or when one of them fails, stops them one by one, last
//! registered first.
//!
//! - [`plan`] holds the decisions: a state machine that says what to start,
//!   poll or cancel next and takes note of what came of it.
//! - [`history`] states and proves what holds of every run of that machine.
//! - [`supervision`] starts and drives the processes by a plan, and keeps a
//!   record that ties each step of the plan to what was really done.
//! - [`conduct`] tells what is done next from what has happened, event by event,
//!   and [`record`] what was really done with each event and each poll.
//! - [`nested`] states what is known of a process under its supervisor, and of
//!   the processes of a group that is itself supervised.
//! - [`supervisor`], [`proc`], [`signal`] and [`error`] are what programs use.
//! - [`trusted`] lists what is believed of `std`, `futures` and `tokio-util`.
pub mod conduct;
pub mod error;
pub mod history;
pub mod nested;
pub mod plan;
pub mod proc;
pub mod record;
pub mod signal;
pub mod supervision;
pub mod supervisor;
pub mod trusted;

pub use error::{ProcResult, SupervisorError};
pub use proc::{run, ManagedFuture, ManagedProc, ProcFn};
pub use signal::ShutdownSignal;
pub use supervisor::{Supervisor, SupervisorBuilder};
