use std::sync::atomic::{AtomicBool, AtomicUsize, Ordering};
use std::sync::Arc;

use chezfl::{App, Config, Satisfaction, Target, Task};

fn tracked_check() -> (Arc<AtomicBool>, Target) {
    let called = Arc::new(AtomicBool::new(false));
    let c = called.clone();
    let t = Target::new("leaf").check(move || {
        c.store(true, Ordering::SeqCst);
        anyhow::Ok(true)
    });
    (called, t)
}

fn make_config() -> Config {
    Config::default()
}

#[test]
fn test_cache_hit_skips_check() {
    let mut app = App::new();
    let (called, t) = tracked_check();
    app.target(t);
    app.validate().unwrap();

    // Pre-populate state as satisfied (simulating a previous run)
    app.state_mut().set_check_result("leaf", true);

    let steps = app.run_check(&make_config(), &[]);
    assert_eq!(steps[0].sat, Satisfaction::Satisfied);
    assert!(steps[0].detail.contains("cached"));
    assert!(
        !called.load(Ordering::SeqCst),
        "check should not have been called"
    );
}

#[test]
fn test_cache_miss_check_dep_changed_runs_check() {
    let mut app = App::new();
    let (called, t) = tracked_check();
    app.target(Target::new("dep").check(|| Ok(false)));
    app.target(t.check_dep("dep"));
    app.validate().unwrap();

    // Pre-populate as satisfied
    app.state_mut().set_check_result("leaf", true);

    let steps = app.run_check(&make_config(), &[]);
    // "dep" (alphabetically first) is unsatisfied → "leaf" check dep unsatisfied → demoted
    assert_eq!(steps[0].name, "dep");
    assert_eq!(steps[0].sat, Satisfaction::Unsatisfied);
    assert_eq!(steps[1].name, "leaf");
    assert_eq!(steps[1].sat, Satisfaction::Unsatisfied);
    assert!(
        steps[1].detail.contains("check dep not satisfied"),
        "should show check dep not satisfied, got: {}",
        steps[1].detail
    );
    assert!(
        !called.load(Ordering::SeqCst),
        "check should NOT have been called when check dep is unsatisfied"
    );
}

#[test]
fn test_cache_miss_previously_unsatisfied_runs_check() {
    let mut app = App::new();
    let (called, t) = tracked_check();
    app.target(t);
    app.validate().unwrap();

    // Pre-populate as unsatisfied
    app.state_mut().set_check_result("leaf", false);

    let steps = app.run_check(&make_config(), &[]);
    assert_eq!(steps[0].sat, Satisfaction::Satisfied);
    assert!(
        called.load(Ordering::SeqCst),
        "check should have been called because previous state was unsatisfied"
    );
}

#[test]
fn test_aggregate_never_cached() {
    let mut app = App::new();
    app.target(Target::new("leaf").check(|| Ok(true)));
    app.target(Target::new("agg").depends_on("leaf"));
    app.validate().unwrap();

    app.state_mut().set_check_result("leaf", true);

    let steps = app.run_check(&make_config(), &[]);
    assert_eq!(steps[0].sat, Satisfaction::Satisfied);
    assert!(steps[0].detail.contains("cached"));
    assert_eq!(steps[1].sat, Satisfaction::Satisfied);
    assert!(
        steps[1].detail.contains("aggregate"),
        "aggregate should show aggregate detail, not cached"
    );
}

#[test]
fn test_check_dep_blocks_check() {
    let mut app = App::new();
    app.target(Target::new("prereq").check(|| Ok(false)));
    app.target(Target::new("main").check_dep("prereq").check(|| {
        panic!("check should never be called");
    }));
    app.validate().unwrap();

    let steps = app.run_check(&make_config(), &[]);
    // "main" > "prereq" alphabetically → prereq first
    assert_eq!(steps[0].name, "prereq");
    assert_eq!(steps[0].sat, Satisfaction::Unsatisfied);
    assert_eq!(steps[1].name, "main");
    assert_eq!(steps[1].sat, Satisfaction::Unsatisfied);
    assert!(steps[1].detail.contains("check dep not satisfied"));
}

#[test]
fn test_check_dep_satisfied_runs_check() {
    let mut app = App::new();
    let called = Arc::new(AtomicBool::new(false));
    let c = called.clone();
    app.target(Target::new("prereq").check(|| Ok(true)));
    app.target(Target::new("main").check_dep("prereq").check(move || {
        c.store(true, Ordering::SeqCst);
        Ok(true)
    }));
    app.validate().unwrap();

    let steps = app.run_check(&make_config(), &[]);
    // "main" > "prereq" → prereq first
    assert_eq!(steps[0].name, "prereq");
    assert_eq!(steps[0].sat, Satisfaction::Satisfied);
    assert_eq!(steps[1].name, "main");
    assert_eq!(steps[1].sat, Satisfaction::Satisfied);
    assert!(called.load(Ordering::SeqCst));
}

#[test]
fn test_demoted_leaf_skips_task() {
    let mut app = App::new();
    let task_ran = Arc::new(AtomicBool::new(false));
    let tr = task_ran.clone();

    app.target(Target::new("net").check(|| Ok(false)));
    app.target(Target::new("rg").check_dep("net").check(|| Ok(true)));
    app.task(Task::new("install_net").satisfies("net").run(move || {
        tr.store(true, Ordering::SeqCst);
        Ok(())
    }));

    app.validate().unwrap();
    let steps = app.run_apply(&make_config(), &[]);

    // "net" check fails → demoted to stub → no task runs
    // "rg" check dep unsatisfied → demoted to stub → no task
    assert_eq!(steps.len(), 2);
    assert_eq!(steps[0].sat, Satisfaction::Unsatisfied);
    assert_eq!(steps[1].sat, Satisfaction::Unsatisfied);
    assert!(
        !task_ran.load(Ordering::SeqCst),
        "task should NOT have run for demoted leaf"
    );
}

#[test]
fn test_leaf_check_fails_no_task() {
    let mut app = App::new();
    let task_ran = Arc::new(AtomicBool::new(false));
    let tr = task_ran.clone();

    app.target(Target::new("leaf").check(|| Ok(false)));
    app.task(Task::new("task").satisfies("leaf").run(move || {
        tr.store(true, Ordering::SeqCst);
        Ok(())
    }));

    app.validate().unwrap();
    let steps = app.run_apply(&make_config(), &[]);

    assert_eq!(steps.len(), 1);
    assert_eq!(steps[0].sat, Satisfaction::Unsatisfied);
    assert!(
        !task_ran.load(Ordering::SeqCst),
        "task should NOT run for a demoted leaf"
    );
}

#[test]
fn test_task_still_runs_for_aggregate() {
    let mut app = App::new();
    let task_ran = Arc::new(AtomicBool::new(false));
    let tr = task_ran.clone();

    app.target(Target::new("leaf").check(|| Ok(false)));
    app.target(Target::new("agg").depends_on("leaf"));
    app.task(Task::new("task").satisfies("agg").run(move || {
        tr.store(true, Ordering::SeqCst);
        Ok(())
    }));

    app.validate().unwrap();
    let steps = app.run_apply(&make_config(), &[]);

    assert!(task_ran.load(Ordering::SeqCst));
    // leaf (initial) + agg (initial → task runs) + leaf (re-check dep) + agg (re-check)
    assert!(
        steps.len() == 3 || steps.len() == 4,
        "expected 3 or 4 steps, got {}",
        steps.len()
    );
    let last = steps.last().unwrap();
    assert_eq!(last.name, "agg");
    assert_eq!(last.sat, Satisfaction::Unsatisfied);
}

#[test]
fn test_check_dep_cycle_detected() {
    let mut app = App::new();
    app.target(Target::new("a").check_dep("b").check(|| Ok(true)));
    app.target(Target::new("b").check_dep("a").check(|| Ok(true)));

    let err = app.validate().unwrap_err();
    assert!(err.message().contains("cycle"));
}

#[test]
fn test_unknown_check_dep_detected() {
    let mut app = App::new();
    app.target(Target::new("a").check_dep("nonexistent").check(|| Ok(true)));

    let err = app.validate().unwrap_err();
    assert!(err.message().contains("nonexistent"));
}

#[test]
fn test_apply_writes_state_and_caches_next_check() {
    let mut app = App::new();
    let (check_called, t) = tracked_check();
    app.target(t);
    app.task(Task::new("task").satisfies("leaf").run(|| Ok(())));
    app.validate().unwrap();

    // First apply — check runs, task runs, re-check runs
    let steps = app.run_apply(&make_config(), &[]);
    assert_eq!(steps[0].sat, Satisfaction::Satisfied);
    assert!(check_called.load(Ordering::SeqCst));

    // Reset tracker, check again — should use cache now
    check_called.store(false, Ordering::SeqCst);
    let steps2 = app.run_check(&make_config(), &[]);
    assert_eq!(steps2[0].sat, Satisfaction::Satisfied);
    assert!(steps2[0].detail.contains("cached"));
    assert!(!check_called.load(Ordering::SeqCst));
}

fn counting_task(name: &str, target: &str) -> (Arc<AtomicUsize>, Task) {
    let count = Arc::new(AtomicUsize::new(0));
    let c = count.clone();
    let task = Task::new(name).satisfies(target).run(move || {
        c.fetch_add(1, Ordering::SeqCst);
        Ok(())
    });
    (count, task)
}

#[test]
fn aggregate_task_action_runs_exactly_once() {
    let mut app = App::new();
    app.target(Target::new("leaf").check(|| Ok(false)));
    app.target(Target::new("agg").depends_on("leaf"));
    let (count, task) = counting_task("task", "agg");
    app.task(task);
    app.validate().unwrap();
    app.run_apply(&make_config(), &[]);
    assert_eq!(count.load(Ordering::SeqCst), 1);
}

#[test]
fn plan_never_runs_a_task_action() {
    let mut app = App::new();
    app.target(Target::new("leaf").check(|| Ok(false)));
    app.target(Target::new("agg").depends_on("leaf"));
    let (count, task) = counting_task("task", "agg");
    app.task(task);
    app.validate().unwrap();
    let steps = app.run_plan(&make_config(), &[]);
    assert_eq!(count.load(Ordering::SeqCst), 0);
    assert_eq!(steps[1].detail, "(would be satisfied by task)");
    assert!(app.state().get("leaf").is_none());
}

#[test]
fn check_run_never_runs_a_task_action() {
    let mut app = App::new();
    app.target(Target::new("leaf").check(|| Ok(false)));
    app.target(Target::new("agg").depends_on("leaf"));
    let (count, task) = counting_task("task", "agg");
    app.task(task);
    app.validate().unwrap();
    app.run_check(&make_config(), &[]);
    assert_eq!(count.load(Ordering::SeqCst), 0);
}

#[test]
fn satisfied_aggregate_runs_no_action() {
    let mut app = App::new();
    app.target(Target::new("leaf").check(|| Ok(true)));
    app.target(Target::new("agg").depends_on("leaf"));
    let (count, task) = counting_task("task", "agg");
    app.task(task);
    app.validate().unwrap();
    let steps = app.run_apply(&make_config(), &[]);
    assert_eq!(count.load(Ordering::SeqCst), 0);
    assert_eq!(steps[1].detail, "(aggregate)");
}

#[test]
fn skipped_downstream_target_runs_no_action() {
    let mut app = App::new();
    app.target(Target::new("base").check(|| Ok(false)));
    app.target(Target::new("x").depends_on("base"));
    app.target(Target::new("y").depends_on("x"));
    app.task(Task::new("fx").satisfies("x").run(|| Err(anyhow::Error::msg("boom"))));
    let (count, task) = counting_task("fy", "y");
    app.task(task);
    app.validate().unwrap();
    let steps = app.run_apply(&make_config(), &[]);
    assert_eq!(count.load(Ordering::SeqCst), 0);
    let x = steps.iter().find(|s| s.name == "x").unwrap();
    assert_eq!(x.detail, "(task failed)");
    let y = steps.iter().find(|s| s.name == "y").unwrap();
    assert_eq!(y.sat, Satisfaction::Unsatisfied);
    assert_eq!(y.detail, "(skipped, upstream failure)");
}

#[test]
fn task_waiting_on_unsatisfied_dependency_runs_no_action() {
    let mut app = App::new();
    app.target(Target::new("gate").check(|| Ok(false)));
    app.target(Target::new("leaf").check(|| Ok(false)));
    app.target(Target::new("agg").depends_on("leaf"));
    let count = Arc::new(AtomicUsize::new(0));
    let c = count.clone();
    app.task(Task::new("t").satisfies("agg").depends_on("gate").run(move || {
        c.fetch_add(1, Ordering::SeqCst);
        Ok(())
    }));
    app.validate().unwrap();
    let steps = app.run_apply(&make_config(), &[]);
    assert_eq!(count.load(Ordering::SeqCst), 0);
    let agg = steps.iter().find(|s| s.name == "agg").unwrap();
    assert_eq!(agg.detail, "(task deps not satisfied)");
}

#[test]
fn plan_honours_manual_set() {
    let mut app = App::new();
    app.target(Target::new("s"));
    app.state_mut().set("s", true);
    app.validate().unwrap();
    let steps = app.run_plan(&make_config(), &[]);
    assert_eq!(steps.len(), 1);
    assert_eq!(steps[0].sat, Satisfaction::Satisfied);
    assert_eq!(steps[0].detail, "(manually set)");
}

#[test]
fn plan_honours_manual_unset_without_running_the_check() {
    let mut app = App::new();
    let (called, t) = tracked_check();
    app.target(t);
    app.state_mut().set("leaf", false);
    app.validate().unwrap();
    let steps = app.run_plan(&make_config(), &[]);
    assert!(!called.load(Ordering::SeqCst));
    assert_eq!(steps[0].sat, Satisfaction::Unsatisfied);
    assert_eq!(steps[0].detail, "(manually unset)");
}

#[test]
fn plan_of_manually_set_aggregate_runs_no_task() {
    let mut app = App::new();
    app.target(Target::new("leaf").check(|| Ok(false)));
    app.target(Target::new("agg").depends_on("leaf"));
    app.task(Task::new("task").satisfies("agg"));
    app.state_mut().set("agg", true);
    app.validate().unwrap();
    let steps = app.run_plan(&make_config(), &[]);
    let agg = steps.iter().find(|s| s.name == "agg").unwrap();
    assert_eq!(agg.sat, Satisfaction::Satisfied);
    assert_eq!(agg.detail, "(manually set)");
}

#[test]
fn failing_task_is_reported_as_failed() {
    let mut app = App::new();
    app.target(Target::new("leaf").check(|| Ok(false)));
    app.target(Target::new("agg").depends_on("leaf"));
    app.task(Task::new("task").satisfies("agg").run(|| Err(anyhow::Error::msg("boom"))));
    app.validate().unwrap();
    let steps = app.run_apply(&make_config(), &[]);
    assert_eq!(steps.len(), 2);
    assert_eq!(steps[1].name, "agg");
    assert_eq!(steps[1].detail, "(task failed)");
}
