use chezfl::render::{render_step, render_steps};
use chezfl::{Satisfaction, Step};

fn step(name: &str, description: Option<&str>, sat: Satisfaction, detail: &str) -> Step {
    Step {
        name: name.to_string(),
        description: description.map(|d| d.to_string()),
        sat,
        detail: detail.to_string(),
    }
}

#[test]
fn plain_lines() {
    let s = step("net", Some("network is up"), Satisfaction::Satisfied, "(cached)");
    assert_eq!(render_step(&s, false, false, false), "✓ net  ((cached))");
    assert_eq!(render_step(&s, false, true, false), "✓ net  network is up  ((cached))");
    let u = step("net", Some("network is up"), Satisfaction::Unsatisfied, "");
    assert_eq!(render_step(&u, false, false, false), "✗ net  network is up");
}

#[test]
fn plan_prefix() {
    let s = step("a", None, Satisfaction::Satisfied, "");
    assert_eq!(render_step(&s, true, false, false), "(P) ✓ a");
}

#[test]
fn coloured_line() {
    let s = step("a", Some("d"), Satisfaction::Unsatisfied, "x");
    assert_eq!(
        render_step(&s, true, false, true),
        "\x1b[33m(P)\x1b[0m \x1b[31m✗\x1b[0m \x1b[1ma\x1b[0m  \x1b[31;9md\x1b[0m  \x1b[2m(x)\x1b[0m"
    );
}

#[test]
fn one_line_per_step() {
    let steps = vec![
        step("a", None, Satisfaction::Satisfied, ""),
        step("b", None, Satisfaction::Unsatisfied, "(aggregate, deps unsatisfied)"),
    ];
    assert_eq!(
        render_steps(&steps, false, false, false),
        vec!["✓ a".to_string(), "✗ b  ((aggregate, deps unsatisfied))".to_string()]
    );
}

#[test]
fn satisfied_description_is_dimmed_when_shown() {
    let s = step("a", Some("d"), Satisfaction::Satisfied, "");
    assert_eq!(render_step(&s, false, true, true), "\x1b[32m✓\x1b[0m \x1b[1ma\x1b[0m  \x1b[2md\x1b[0m");
    assert_eq!(render_step(&s, false, false, true), "\x1b[32m✓\x1b[0m \x1b[1ma\x1b[0m");
}
