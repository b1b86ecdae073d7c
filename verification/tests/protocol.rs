use hm::app::App;
use hm::config::{classify_release, determine_os, LinuxDistro, ManagedObject, Worker, OS};
use hm::hmerror::{ErrorKind, HMError, HomemakerError};
use hm::task::{all_workers_done, executor_step, ExecutorStep, PollStatus, WorkerTable};

#[test]
fn new_worker_is_unfinished() {
    let w = Worker::new();
    assert_eq!(w.name, "");
    assert_eq!(w.status, Some(1));
    assert!(!w.completed);
}

#[test]
fn workers_compare_by_name_only() {
    let a = Worker { name: String::from("t"), status: None, completed: false };
    let b = Worker { name: String::from("t"), status: Some(0), completed: true };
    let c = Worker { name: String::from("u"), status: None, completed: false };
    assert!(a == b);
    assert!(a != c);
}

#[test]
fn running_poll_sends_a_non_terminal_message() {
    let name = String::from("job");
    let solution = String::from("true");
    match executor_step(&name, &solution, PollStatus::Running) {
        ExecutorStep::Progress { message } => {
            assert_eq!(message.name, "job");
            assert_eq!(message.status, None);
            assert!(!message.completed);
        }
        _ => panic!("a running task must report progress"),
    }
}

#[test]
fn successful_exit_sends_the_terminal_message() {
    let name = String::from("job");
    let solution = String::from("true");
    let poll = PollStatus::Exited { success: true, code: Some(0) };
    match executor_step(&name, &solution, poll) {
        ExecutorStep::Finished { message } => {
            assert_eq!(message.name, "job");
            assert_eq!(message.status, Some(0));
            assert!(message.completed);
        }
        _ => panic!("a successful task must finish"),
    }
}

#[test]
fn failing_solution_never_reports_completion() {
    let name = String::from("job");
    let solution = String::from("exit 1");
    let poll = PollStatus::Exited { success: false, code: Some(1) };
    match executor_step(&name, &solution, poll) {
        ExecutorStep::Abandoned { error } => match error {
            HMError::Regular(ErrorKind::SolutionError { solution: s }) => {
                assert_eq!(s, "exit 1");
            }
            other => panic!("expected a solution error, got {:?}", other),
        },
        _ => panic!("a failed task must be abandoned, not report completion"),
    }
}

#[test]
fn poll_failure_abandons_the_task() {
    let name = String::from("job");
    let solution = String::from("sleep 5");
    match executor_step(&name, &solution, PollStatus::PollFailed) {
        ExecutorStep::Abandoned { error } => match error {
            HMError::Regular(ErrorKind::SolutionError { solution: s }) => {
                assert_eq!(s, "sleep 5");
            }
            other => panic!("expected a solution error, got {:?}", other),
        },
        _ => panic!("a poll failure must abandon the task"),
    }
}

#[test]
fn collector_keeps_the_newest_message_per_name() {
    let mut table = WorkerTable::new();
    assert!(all_workers_done(&table));
    table.update(Worker { name: String::from("a"), status: None, completed: false });
    table.update(Worker { name: String::from("b"), status: None, completed: false });
    assert!(!all_workers_done(&table));
    table.update(Worker { name: String::from("a"), status: Some(0), completed: true });
    assert!(!all_workers_done(&table));
    table.update(Worker { name: String::from("b"), status: Some(0), completed: true });
    assert!(all_workers_done(&table));
}

#[test]
fn collector_never_finishes_while_a_task_is_unfinished() {
    // a task that exits nonzero never sends a terminal message, so its last
    // message keeps the run incomplete for good
    let mut table = WorkerTable::new();
    table.update(Worker { name: String::from("broken"), status: None, completed: false });
    assert!(!all_workers_done(&table));
    table.update(Worker { name: String::from("broken"), status: None, completed: false });
    assert!(!all_workers_done(&table));
}

#[test]
fn error_kinds_describe_themselves() {
    assert_eq!(
        ErrorKind::ConfigError { line_number: 3 }.as_str(),
        "configuration error"
    );
    assert_eq!(
        ErrorKind::SolutionError { solution: String::from("x") }.as_str(),
        "solution error"
    );
    assert_eq!(
        ErrorKind::DependencyUndefinedError { dependency: String::from("x") }.as_str(),
        "dependency undefined"
    );
    assert_eq!(
        ErrorKind::IncorrectPlatformError {
            dependency: String::from("x"),
            platform: OS::Unknown,
            target_platform: OS::Windows,
        }
        .as_str(),
        "incorrect platform for dependency"
    );
    assert_eq!(
        ErrorKind::CyclicalDependencyError { dependency_graph: String::from("g") }.as_str(),
        "cyclical dependency"
    );
    assert_eq!(ErrorKind::Other.as_str(), "other error");
}

#[test]
fn release_names_classify_case_insensitively() {
    assert_eq!(
        classify_release(&String::from("Fedora Linux")),
        OS::Linux(LinuxDistro::Fedora)
    );
    assert_eq!(
        classify_release(&String::from("DEBIAN GNU/Linux")),
        OS::Linux(LinuxDistro::Debian)
    );
    assert_eq!(
        classify_release(&String::from("Ubuntu")),
        OS::Linux(LinuxDistro::Ubuntu)
    );
    assert_eq!(classify_release(&String::from("Slackware")), OS::Unknown);
}

#[test]
fn host_platform_is_one_of_the_recognized_ones() {
    let os = determine_os();
    assert!(matches!(
        os,
        OS::Windows
            | OS::Unknown
            | OS::Linux(LinuxDistro::Fedora)
            | OS::Linux(LinuxDistro::Debian)
            | OS::Linux(LinuxDistro::Ubuntu)
    ));
}

#[test]
fn objects_with_a_solution_are_tasks() {
    let mut mo = ManagedObject::default();
    assert!(!mo.is_task());
    mo.solution = String::from("make install");
    assert!(mo.is_task());
    assert!(!mo.satisfied);
    mo.set_satisfied();
    assert!(mo.satisfied);
}

#[test]
fn app_collects_output_and_summary() {
    let mut app = App::default();
    app.append_output("line one");
    app.append_output("line two");
    app.append_summary("done");
    assert_eq!(app.hm_task_output(), vec!["line one", "line two"]);
    assert_eq!(app.hm_task_summary(), vec!["done"]);
    app.set_hm_task_output(Vec::new());
    assert_eq!(app.hm_task_output().len(), 0);
    assert_eq!(app.hm_task_summary(), vec!["done"]);
}

#[test]
fn homemaker_errors_carry_their_parts() {
    let e = HomemakerError::new(7, String::from("bad line"), Some(String::from("io text")));
    assert_eq!(e.line_number, 7);
    assert_eq!(e.complaint, "bad line");
    assert_eq!(e.encapsulated_error, Some(String::from("io text")));
}
