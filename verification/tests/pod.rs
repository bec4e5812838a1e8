use psctl::config::Options;
use psctl::runner::error::Error;
use psctl::runner::proc::{Process, Taskfile};
use psctl::runner::{
    available_line, exit_code_from, keys_banner, log_prefix, max_key_width, origin_from_path,
    read_specs, reap_action, readiness_outcome, should_emit_available, Pod, ReadyEvent, ReapAction,
    ReapEvent, KEY_WIDTH_CAP,
};
use psctl::waiter::error::AwaitError;

#[test]
fn error_constructors_keep_messages() {
    let e = psctl::runner::error::ExecError::new("Could not run process: x");
    assert_eq!(e.message, "Could not run process: x");
    let a = AwaitError::new("Deadline exceeded");
    assert_eq!(a.message, "Deadline exceeded");
    assert_eq!(psctl::runner::proc::wait_default(), 30_000);
}

#[test]
fn options_policies() {
    let mut o = Options::new();
    assert!(!o.debug() && !o.verbose() && !o.quiet());
    assert!(o.prefix());
    o.quiet = true;
    assert!(o.quiet());
    assert!(!o.prefix());
    // verbose wins over quiet
    o.verbose = true;
    assert!(!o.quiet());
    assert!(o.prefix());
    // debug implies verbose
    let mut d = Options::new();
    d.debug = true;
    assert!(d.verbose());
}

#[test]
fn pod_overlay_appends() {
    let a = Process::new(None, Some("a"), "cmd a", vec![], None);
    let pod = Pod::new(Options::new(), vec![a]);
    let b = Process::new(None, Some("b"), "cmd b", vec![], None);
    let both = pod.overlay(vec![b]);
    assert_eq!(both.procs.len(), 2);
    assert_eq!(both.procs[0].label(), Some("a"));
    assert_eq!(both.procs[1].label(), Some("b"));
    // the original pod is untouched
    assert_eq!(pod.procs.len(), 1);
}

#[test]
fn max_key_width_caps_at_limit() {
    let short = Process::new(None, Some("ab"), "x", vec![], None);
    let longer = Process::new(None, Some("abcde"), "x", vec![], None);
    assert_eq!(max_key_width(&vec![&short, &longer]), 5);
    let huge_label = "x".repeat(64);
    let huge = Process::new(None, Some(huge_label.as_str()), "x", vec![], None);
    assert_eq!(max_key_width(&vec![&short, &huge]), KEY_WIDTH_CAP);
    assert_eq!(max_key_width(&vec![]), 0);
}

#[test]
fn banner_and_prefix_lines() {
    let a = Process::new(None, Some("a"), "cmd a", vec![], None);
    let b = Process::new(None, Some("b"), "cmd b", vec![], None);
    assert_eq!(keys_banner(&vec![&a, &b]), "====> a, b");
    assert_eq!(log_prefix("ab "), "[ ab  ]");
    assert_eq!(available_line("a"), "----> a: available");
}

#[test]
fn available_emission_policy() {
    // a gated process is announced unless the run is quiet
    assert!(should_emit_available(false, false, false));
    assert!(!should_emit_available(false, true, false));
    // the trivial no-checks case is announced only in verbose runs
    assert!(!should_emit_available(true, true, false));
    assert!(should_emit_available(true, false, true));
    assert!(!should_emit_available(true, false, false));
}

#[test]
fn readiness_outcomes() {
    assert_eq!(readiness_outcome("a", ReadyEvent::NoChecks).unwrap(), true);
    assert_eq!(readiness_outcome("a", ReadyEvent::WaiterDone(Ok(()))).unwrap(), false);
    match readiness_outcome("a", ReadyEvent::Canceled) {
        Err(Error::CanceledError) => {},
        other => panic!("expected cancellation, got {:?}", other),
    }
    match readiness_outcome("a", ReadyEvent::ChildExited) {
        Err(Error::NeverInitializedError(key)) => assert_eq!(key, "a"),
        other => panic!("expected never-initialized, got {:?}", other),
    }
    let we = psctl::waiter::error::Error::AwaitError(AwaitError::new("Deadline exceeded"));
    match readiness_outcome("a", ReadyEvent::WaiterDone(Err(we))) {
        Err(Error::WaiterError(_)) => {},
        other => panic!("expected a waiter error, got {:?}", other),
    }
}

#[test]
fn exit_code_policy() {
    assert_eq!(exit_code_from(Some(3)), 3);
    assert_eq!(exit_code_from(Some(0)), 0);
    // a signaled child has no code and counts as 0
    assert_eq!(exit_code_from(None), 0);
}

#[test]
fn reap_decisions() {
    assert_eq!(reap_action(ReapEvent::KillFailed), ReapAction::SkipToNext);
    assert_eq!(reap_action(ReapEvent::WaitOk), ReapAction::Reaped);
    assert_eq!(reap_action(ReapEvent::WaitInvalidInput), ReapAction::AlreadyEnded);
    assert_eq!(reap_action(ReapEvent::WaitOtherError), ReapAction::Fatal);
}

#[test]
fn read_specs_homes_to_terminal() {
    let specs = vec!["a: echo A".to_owned(), "b +a: echo B".to_owned()];
    let procs = read_specs(&specs).unwrap();
    assert_eq!(procs.len(), 2);
    assert_eq!(procs[0].label(), Some("a"));
    assert_eq!(procs[0].qualified_label(), Some("STDIN/a"));
    assert_eq!(procs[1].deps().clone(), vec!["a".to_owned()]);
}

#[test]
fn origin_from_paths() {
    assert_eq!(origin_from_path("/etc/stack/tasks.yml").unwrap(), "tasks.yml");
    assert_eq!(origin_from_path("tasks.yml").unwrap(), "tasks.yml");
    assert_eq!(origin_from_path("/").unwrap(), "<invalid>");
    assert_eq!(origin_from_path("..").unwrap(), "<invalid>");
}

#[test]
fn taskfile_rehomes_tasks() {
    let a = Process::new(None, Some("a"), "cmd a", vec![], None);
    let b = Process::new(None, None, "cmd b", vec![], None);
    let tf = Taskfile { version: 1, tasks: vec![a, b] };
    let homed = tf.tasks_with_origin("stack.yml");
    assert_eq!(homed.len(), 2);
    assert_eq!(homed[0].qualified_label(), Some("stack.yml/a"));
    // a label-less task gets no qualified label; it displays by its command
    assert_eq!(homed[1].qualified_label(), None);
    assert_eq!(homed[1].key(), "cmd b");
}
