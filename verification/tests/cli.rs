use std::sync::atomic::{AtomicBool, Ordering};
use std::sync::Arc;

use chezfl::cli::{
    apply_overrides, config_of, label_names, matching_names, parse_set, run_command, starts_with, Cli, Command,
};
use chezfl::{App, Target, Task};

fn cli_with(command: Option<Command>) -> Cli {
    Cli {
        command,
        label: vec![],
        exclude_label: vec![],
        set: vec![],
        unset: vec![],
        recheck: vec![],
        show_descriptions: false,
        no_banner: false,
    }
}

#[test]
fn parse_set_forms() {
    assert_eq!(parse_set("docker_installed=true"), ("docker_installed".to_string(), true));
    assert_eq!(parse_set("docker_installed=false"), ("docker_installed".to_string(), false));
    assert_eq!(parse_set("stub"), ("stub".to_string(), true));
    assert_eq!(parse_set("a=b=false"), ("a".to_string(), true));
    assert_eq!(parse_set("=false"), ("".to_string(), false));
}

#[test]
fn overrides_set_unset_and_recheck() {
    let mut app = App::new();
    app.target(Target::new("stub"));
    app.state_mut().set_check_result("leaf", true);
    app.state_mut().set_check_result("other", true);
    let mut cli = cli_with(None);
    cli.set = vec!["stub".to_string(), "off=false".to_string()];
    cli.unset = vec!["leaf".to_string()];
    cli.recheck = vec!["other".to_string()];
    apply_overrides(&mut app, &cli);

    let stub = app.state().get("stub").unwrap();
    assert_eq!(stub.satisfied, Some(true));
    assert!(stub.manually_set);
    let off = app.state().get("off").unwrap();
    assert_eq!(off.satisfied, Some(false));
    assert!(off.manually_set);
    assert!(app.state().get("leaf").is_none());
    assert!(app.state().get("other").is_none());
}

#[test]
fn config_from_filters() {
    let mut cli = cli_with(None);
    let c = config_of(&cli);
    assert!(c.label_filter.is_none());
    assert!(c.exclude_labels.is_empty());
    cli.label = vec!["install".to_string()];
    cli.exclude_label = vec!["slow".to_string()];
    let c = config_of(&cli);
    assert_eq!(c.label_filter, Some(vec!["install".to_string()]));
    assert_eq!(c.exclude_labels, vec!["slow".to_string()]);
}

#[test]
fn run_command_reports_validation_errors() {
    let mut app = App::new();
    app.target(Target::new("a").depends_on("missing"));
    let err = run_command(&mut app, &cli_with(None), false).unwrap_err();
    assert_eq!(err.message(), "target 'a' depends on unknown target 'missing'");
}

#[test]
fn run_command_reports_validation_errors_before_looking_at_names() {
    let mut app = App::new();
    app.target(Target::new("a").depends_on("missing"));
    let cli = cli_with(Some(Command::Check { targets: vec!["nowhere".to_string()] }));
    let err = run_command(&mut app, &cli, false).unwrap_err();
    assert_eq!(err.message(), "target 'a' depends on unknown target 'missing'");
    assert!(app.state().get("a").is_none());
}

#[test]
fn run_command_check_renders_lines() {
    let mut app = App::new();
    app.target(Target::new("ok").check(|| Ok(true)));
    app.target(Target::new("stub").description("set me by hand"));
    let cli = cli_with(Some(Command::Check { targets: vec![] }));
    let lines = run_command(&mut app, &cli, false).unwrap();
    assert_eq!(lines, vec!["✓ ok".to_string(), "✗ stub  set me by hand  ((no check, no deps))".to_string()]);
}

#[test]
fn run_command_plan_marks_lines() {
    let mut app = App::new();
    app.target(Target::new("agg").depends_on("leaf"));
    app.target(Target::new("leaf").check(|| Ok(false)));
    app.task(Task::new("task").satisfies("agg"));
    let cli = cli_with(Some(Command::Plan { targets: vec!["agg".to_string()] }));
    let lines = run_command(&mut app, &cli, false).unwrap();
    assert_eq!(
        lines,
        vec!["(P) ✗ leaf".to_string(), "(P) ✓ agg  ((would be satisfied by task))".to_string()]
    );
    // a plan leaves the state alone
    assert!(app.state().get("leaf").is_none());
}

#[test]
fn run_command_defaults_to_apply_and_honours_exclusions() {
    let mut app = App::new();
    let ran = Arc::new(AtomicBool::new(false));
    let r = ran.clone();
    app.target(Target::new("agg").depends_on("leaf"));
    app.target(Target::new("leaf").check(|| Ok(false)));
    app.task(Task::new("task").satisfies("agg").label("slow").run(move || {
        r.store(true, Ordering::SeqCst);
        Ok(())
    }));
    let mut cli = cli_with(None);
    cli.exclude_label = vec!["slow".to_string()];
    let lines = run_command(&mut app, &cli, false).unwrap();
    assert!(!ran.load(Ordering::SeqCst));
    assert_eq!(lines[1], "✗ agg  ((task disabled by label filter))");
}

#[test]
fn manual_set_on_stub_is_kept_by_persisted_state() {
    let mut app = App::new();
    app.target(Target::new("stub"));
    app.target(Target::new("leaf").check(|| Ok(true)));
    let mut cli = cli_with(Some(Command::Check { targets: vec![] }));
    cli.set = vec!["stub=true".to_string(), "leaf=true".to_string()];
    apply_overrides(&mut app, &cli);
    let saved = app.persisted_state();
    assert_eq!(saved.get("stub").unwrap().satisfied, Some(true));
    assert!(saved.get("stub").unwrap().manually_set);
    assert!(saved.get("leaf").is_none());
    let lines = run_command(&mut app, &cli, false).unwrap();
    assert_eq!(lines, vec!["✓ leaf  ((manually set))".to_string(), "✓ stub  ((manually set))".to_string()]);
}

#[test]
fn completion_filters_by_prefix() {
    assert!(starts_with("rg_installed", "rg"));
    assert!(starts_with("rg", ""));
    assert!(!starts_with("r", "rg"));
    let names = vec!["rg_ready".to_string(), "network".to_string(), "rg_installed".to_string()];
    assert_eq!(matching_names(&names, "rg"), vec!["rg_ready".to_string(), "rg_installed".to_string()]);
    assert_eq!(matching_names(&names, "x"), Vec::<String>::new());
}

#[test]
fn labels_sorted_once_each() {
    let tasks = vec![
        Task::new("a").label("slow").label("install"),
        Task::new("b").label("install"),
        Task::new("c"),
        Task::new("d").label("Net"),
    ];
    assert_eq!(
        label_names(&tasks),
        vec!["Net".to_string(), "install".to_string(), "slow".to_string()]
    );
}
