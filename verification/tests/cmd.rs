use std::time::Duration;

use chezfl::cmd::{cmd, AttemptAction, AttemptOutcome, Cmd};

#[test]
fn failing_command_message_names_it_and_its_exit_code() {
    let c = cmd("false");
    let failed = AttemptOutcome::Failed { code: Some(1), stderr: String::new() };
    match c.next_action(1, &failed) {
        AttemptAction::Fail { message } => {
            assert!(message.contains("false"), "error should name command: {message}");
            assert!(message.contains("exit code"), "error should mention code: {message}");
        }
        _ => panic!("a single attempt that fails ends the run"),
    }
}

#[test]
fn every_retry_failing_ends_with_the_failure() {
    let c = cmd("false").retry(2);
    let failed = AttemptOutcome::Failed { code: Some(1), stderr: String::new() };
    assert!(matches!(c.next_action(1, &failed), AttemptAction::Retry));
    assert!(matches!(c.next_action(2, &failed), AttemptAction::Retry));
    match c.next_action(3, &failed) {
        AttemptAction::Fail { message } => assert!(message.contains("false"), "{message}"),
        _ => panic!("the third attempt is the last"),
    }
}

#[test]
fn args_are_kept_in_order() {
    let c = cmd("echo").arg("a").arg("b").args(&["c", "d"]);
    assert_eq!(c.arg_list().join(" "), "a b c d");
}

#[test]
fn env_var_is_recorded() {
    let c = cmd("sh").args(&["-c", "echo $CHEZFL_TEST"]).env("CHEZFL_TEST", "works");
    assert_eq!(c.env_vars(), &vec![("CHEZFL_TEST".to_string(), "works".to_string())]);
}

#[test]
fn timeout_is_recorded_and_success_finishes() {
    let c = cmd("true").timeout(Duration::from_secs(10));
    assert_eq!(c.timeout_limit(), Some(Duration::from_secs(10)));
    assert!(matches!(c.next_action(1, &AttemptOutcome::Succeeded), AttemptAction::Finish));
}

#[test]
fn builder_records_program_args_dir_and_retry() {
    let c = Cmd::new("git").arg("-C").args(&["repo", "status"]).dir("/tmp").retry(3);
    assert_eq!(c.program(), "git");
    assert_eq!(c.arg_list(), &vec!["-C".to_string(), "repo".to_string(), "status".to_string()]);
    assert_eq!(c.working_dir(), &Some("/tmp".to_string()));
    assert_eq!(c.retries(), 3);
    assert_eq!(c.timeout_limit(), None);
    assert_eq!(c.command_line(), "git -C repo status");
}

#[test]
fn command_line_without_args_keeps_the_space() {
    assert_eq!(cmd("false").command_line(), "false ");
}

#[test]
fn later_env_value_wins() {
    let c = cmd("sh").env("A", "1").env("B", "2").env("A", "3");
    let mut last_a = None;
    for (k, v) in c.env_vars() {
        if k == "A" {
            last_a = Some(v.clone());
        }
    }
    assert_eq!(last_a, Some("3".to_string()));
}

#[test]
fn failure_message_formats() {
    let c = cmd("false");
    assert_eq!(c.failure_message(Some(1), ""), "`false ` failed (exit code Some(1))");
    assert_eq!(c.failure_message(None, "  boom \n"), "`false ` failed (exit code None): boom");
    assert_eq!(
        cmd("sh").args(&["-c", "x"]).failure_message(Some(-2), "oops"),
        "`sh -c x` failed (exit code Some(-2)): oops"
    );
}

#[test]
fn attempts_follow_the_retry_budget() {
    let c = cmd("false").retry(1);
    let failed = AttemptOutcome::Failed { code: Some(1), stderr: String::new() };
    assert!(matches!(c.next_action(1, &failed), AttemptAction::Retry));
    match c.next_action(2, &failed) {
        AttemptAction::Fail { message } => assert_eq!(message, "`false ` failed (exit code Some(1))"),
        _ => panic!("the last attempt ends the run"),
    }
    assert!(matches!(c.next_action(1, &AttemptOutcome::Errored), AttemptAction::Retry));
    assert!(matches!(c.next_action(2, &AttemptOutcome::Errored), AttemptAction::ReturnError));
    assert!(matches!(c.next_action(1, &AttemptOutcome::Succeeded), AttemptAction::Finish));
}
