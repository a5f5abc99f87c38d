use std::sync::atomic::{AtomicBool, Ordering};
use std::sync::Arc;

use chezfl::app::is_task_disabled;
use chezfl::state::State;
use chezfl::{App, Config, Satisfaction, Target, Task};

#[test]
fn manual_override_beats_the_check() {
    let mut app = App::new();
    let called = Arc::new(AtomicBool::new(false));
    let c = called.clone();
    app.target(Target::new("leaf").check(move || {
        c.store(true, Ordering::SeqCst);
        Ok(false)
    }));
    app.validate().unwrap();
    app.state_mut().set("leaf", true);
    let steps = app.run_check(&Config::default(), &[]);
    assert_eq!(steps[0].sat, Satisfaction::Satisfied);
    assert_eq!(steps[0].detail, "(manually set)");
    assert!(!called.load(Ordering::SeqCst));

    app.state_mut().set("leaf", false);
    let steps = app.run_check(&Config::default(), &[]);
    assert_eq!(steps[0].sat, Satisfaction::Unsatisfied);
    assert_eq!(steps[0].detail, "(manually unset)");
}

#[test]
fn stub_is_unsatisfied_until_set() {
    let mut app = App::new();
    app.target(Target::new("stub"));
    app.validate().unwrap();
    let steps = app.run_check(&Config::default(), &[]);
    assert_eq!(steps[0].sat, Satisfaction::Unsatisfied);
    assert_eq!(steps[0].detail, "(no check, no deps)");
}

#[test]
fn aggregate_is_unsatisfied_when_a_dependency_is() {
    let mut app = App::new();
    app.target(Target::new("a").check(|| Ok(true)));
    app.target(Target::new("b").check(|| Ok(false)));
    app.target(Target::new("c_agg").depends_on("a").depends_on("b"));
    app.validate().unwrap();
    let steps = app.run_check(&Config::default(), &[]);
    assert_eq!(steps[2].name, "c_agg");
    assert_eq!(steps[2].sat, Satisfaction::Unsatisfied);
    assert_eq!(steps[2].detail, "(aggregate, deps unsatisfied)");
}

#[test]
fn check_error_is_unsatisfied_with_its_message() {
    let mut app = App::new();
    app.target(Target::new("leaf").check(|| Err(anyhow::Error::msg("probe broke"))));
    app.validate().unwrap();
    let steps = app.run_check(&Config::default(), &[]);
    assert_eq!(steps[0].sat, Satisfaction::Unsatisfied);
    assert_eq!(steps[0].detail, "check error: probe broke");
}

#[test]
fn failure_skips_everything_downstream() {
    let mut app = App::new();
    let later_ran = Arc::new(AtomicBool::new(false));
    let l = later_ran.clone();
    app.target(Target::new("base").check(|| Ok(false)));
    app.target(Target::new("mid").depends_on("base"));
    app.target(Target::new("top").depends_on("mid"));
    app.task(Task::new("fix_mid").satisfies("mid").run(|| Err(anyhow::Error::msg("no"))));
    app.task(Task::new("fix_top").satisfies("top").run(move || {
        l.store(true, Ordering::SeqCst);
        Ok(())
    }));
    app.validate().unwrap();
    let steps = app.run_apply(&Config::default(), &[]);
    let names: Vec<&str> = steps.iter().map(|s| s.name.as_str()).collect();
    assert_eq!(names, vec!["base", "mid", "top"]);
    assert_eq!(steps[1].detail, "(task failed)");
    assert_eq!(steps[2].detail, "(skipped, upstream failure)");
    assert_eq!(steps[2].sat, Satisfaction::Unsatisfied);
    assert!(!later_ran.load(Ordering::SeqCst));
}

#[test]
fn failed_task_blocks_every_target_it_satisfies() {
    let mut app = App::new();
    app.target(Target::new("leaf").check(|| Ok(false)));
    app.target(Target::new("x").depends_on("leaf"));
    app.target(Target::new("y").depends_on("leaf"));
    app.task(Task::new("both").satisfies("x").satisfies("y").run(|| Err(anyhow::Error::msg("no"))));
    app.validate().unwrap();
    let steps = app.run_apply(&Config::default(), &[]);
    // "x" and "y" both wait on "leaf"; the order visits "y" first
    let view: Vec<(&str, &str)> = steps.iter().map(|s| (s.name.as_str(), s.detail.as_str())).collect();
    assert_eq!(
        view,
        vec![
            ("leaf", ""),
            ("x", "(task failed)"),
            ("y", "(task failed)"),
            ("x", "(skipped, upstream failure)"),
        ]
    );
}

#[test]
fn task_deps_not_satisfied_blocks_its_targets_in_plan_and_apply() {
    let mut app = App::new();
    app.target(Target::new("gate").check(|| Ok(false)));
    app.target(Target::new("leaf").check(|| Ok(false)));
    app.target(Target::new("x").depends_on("leaf"));
    app.task(Task::new("t").satisfies("x").depends_on("gate"));
    app.validate().unwrap();
    let steps = app.run_apply(&Config::default(), &[]);
    let x = steps.iter().find(|s| s.name == "x").unwrap();
    assert_eq!(x.detail, "(task deps not satisfied)");
    let steps = app.run_plan(&Config::default(), &[]);
    let x = steps.iter().find(|s| s.name == "x").unwrap();
    assert_eq!(x.detail, "(task deps not satisfied)");
}

#[test]
fn exclusion_wins_over_the_label_filter() {
    let task = Task::new("t").label("slow").label("install");
    let both = Config {
        label_filter: Some(vec!["install".to_string()]),
        exclude_labels: vec!["slow".to_string()],
    };
    assert!(is_task_disabled(&task, &both));
    let filter_only = Config { label_filter: Some(vec!["install".to_string()]), exclude_labels: vec![] };
    assert!(!is_task_disabled(&task, &filter_only));
    let other_filter = Config { label_filter: Some(vec!["net".to_string()]), exclude_labels: vec![] };
    assert!(is_task_disabled(&task, &other_filter));
    assert!(!is_task_disabled(&task, &Config::default()));
}

#[test]
fn state_read_after_write() {
    let mut s = State::new();
    s.set("a", true);
    s.set_check_result("b", false);
    let a = s.get("a").unwrap();
    assert_eq!(a.satisfied, Some(true));
    assert!(a.manually_set);
    assert!(a.checked_at.as_ref().unwrap().chars().all(|c| c.is_ascii_digit()));
    let b = s.get("b").unwrap();
    assert_eq!(b.satisfied, Some(false));
    assert!(!b.manually_set);
    s.unset("a");
    assert!(s.get("a").is_none());
    assert!(s.get("b").is_some());
    s.set("b", true);
    assert!(s.get("b").unwrap().manually_set);
    assert_eq!(s.entries().len(), 1);
}

#[test]
fn only_stub_state_is_persisted() {
    let mut app = App::new();
    app.target(Target::new("stub"));
    app.target(Target::new("leaf").check(|| Ok(true)));
    app.target(Target::new("agg").depends_on("leaf"));
    app.validate().unwrap();
    app.state_mut().set("stub", true);
    app.run_check(&Config::default(), &[]);
    let saved = app.persisted_state();
    assert_eq!(saved.entries().len(), 1);
    assert!(saved.get("stub").is_some());
}

#[test]
fn requested_targets_bring_their_dependencies() {
    let mut app = App::new();
    app.target(Target::new("net").check(|| Ok(true)));
    app.target(Target::new("rg").check_dep("net").check(|| Ok(true)));
    app.target(Target::new("unrelated").check(|| Ok(true)));
    app.validate().unwrap();
    let steps = app.run_check(&Config::default(), &["rg".to_string()]);
    let names: Vec<&str> = steps.iter().map(|s| s.name.as_str()).collect();
    assert_eq!(names, vec!["net", "rg"]);
}

#[test]
fn validation_errors_name_their_parts() {
    let mut app = App::new();
    app.target(Target::new("a").check(|| Ok(true)));
    app.task(Task::new("t").satisfies("ghost"));
    assert_eq!(app.validate().unwrap_err().message(), "task 't' satisfies unknown target 'ghost'");

    let mut app = App::new();
    app.target(Target::new("a").check(|| Ok(true)));
    app.task(Task::new("t").satisfies("a").depends_on("ghost"));
    assert_eq!(app.validate().unwrap_err().message(), "task 't' depends on unknown target 'ghost'");

    let mut app = App::new();
    app.target(Target::new("a").depends_on("b"));
    app.target(Target::new("b").check(|| Ok(true)));
    app.task(Task::new("t1").satisfies("a"));
    app.task(Task::new("t2").satisfies("a"));
    assert_eq!(
        app.validate().unwrap_err().message(),
        "target 'a' satisfied by multiple tasks: 't1' and 't2'"
    );

    let mut app = App::new();
    app.target(Target::new("a").check_dep("b").check(|| Ok(true)));
    assert_eq!(app.validate().unwrap_err().message(), "target 'a' has check dep on unknown target 'b'");
}

#[test]
fn manual_override_outlasts_runs() {
    let mut app = App::new();
    app.target(Target::new("stub"));
    app.target(Target::new("leaf").check(|| Ok(false)));
    app.validate().unwrap();
    app.state_mut().set("stub", true);
    app.state_mut().set("leaf", true);
    app.run_check(&Config::default(), &[]);
    app.run_apply(&Config::default(), &[]);
    let steps = app.run_check(&Config::default(), &[]);
    assert_eq!(steps[0].detail, "(manually set)");
    assert_eq!(steps[1].detail, "(manually set)");
    assert!(app.state().get("stub").unwrap().manually_set);
    assert!(app.persisted_state().get("stub").unwrap().manually_set);
    app.state_mut().unset("leaf");
    let steps = app.run_check(&Config::default(), &[]);
    assert_eq!(steps[0].name, "leaf");
    assert_eq!(steps[0].sat, Satisfaction::Unsatisfied);
}

#[test]
fn freed_targets_go_next() {
    let mut app = App::new();
    app.target(Target::new("c").depends_on("a"));
    app.target(Target::new("b").check(|| Ok(true)));
    app.target(Target::new("a").check(|| Ok(true)));
    app.validate().unwrap();
    let steps = app.run_check(&Config::default(), &[]);
    let names: Vec<&str> = steps.iter().map(|s| s.name.as_str()).collect();
    // "a" comes first by name; placing it frees "c", which goes before "b"
    assert_eq!(names, vec!["a", "c", "b"]);
}
