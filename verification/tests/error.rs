use super_visor::error::{join_result, proc_result};
use super_visor::{ProcResult, SupervisorError};

#[test]
fn from_err_converts_into_the_payload() {
    let error: SupervisorError<String> = SupervisorError::from_err("broken");
    match error {
        SupervisorError::Process(cause) => assert_eq!("broken", cause),
        SupervisorError::Signal(_) => panic!("not a signal"),
    }
}

#[test]
fn payload_becomes_a_process_error() {
    let error: SupervisorError<u32> = SupervisorError::from(7);
    assert!(matches!(error, SupervisorError::Process(7)));
    let created: SupervisorError<u32> = SupervisorError::from_err(7u32);
    assert!(matches!(created, SupervisorError::Process(7)));
}

#[test]
fn descriptions_name_the_kind_of_error() {
    let process: SupervisorError<String> = SupervisorError::Process(String::from("x"));
    assert_eq!("task failed: x", process.to_string());
    assert_eq!("task failed: y", process.describe("y"));
    assert_eq!("task failed: ", process.describe(""));

    let signal: SupervisorError<String> = SupervisorError::Signal(std::io::Error::other("x"));
    assert_eq!("signal listener setup failed: x", signal.to_string());
    assert_eq!("signal listener setup failed: y", signal.describe("y"));
}

#[test]
fn results_of_processes_are_converted() {
    let fine: ProcResult<u64> = proc_result(Ok::<(), u8>(()));
    assert!(fine.is_ok());
    let failed: ProcResult<u64> = proc_result(Err::<(), u8>(3));
    assert!(matches!(failed, Err(SupervisorError::Process(3))));
}

#[test]
fn results_of_joined_tasks_are_converted() {
    let fine: ProcResult<u64> = join_result(Ok::<Result<(), u8>, u16>(Ok(())));
    assert!(fine.is_ok());
    let failed: ProcResult<u64> = join_result(Ok::<Result<(), u8>, u16>(Err(3)));
    assert!(matches!(failed, Err(SupervisorError::Process(3))));
    let lost: ProcResult<u64> = join_result(Err::<Result<(), u8>, u16>(500));
    assert!(matches!(lost, Err(SupervisorError::Process(500))));
}
