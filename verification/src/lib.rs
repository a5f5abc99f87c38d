//! chezfl: a personal system state manager. Users declare desired state as
//! targets and the tasks that satisfy them; the engine checks, plans and
//! applies them in dependency order.
pub mod app;
pub mod cli;
pub mod cmd;
pub mod graph;
pub mod laws;
pub mod render;
pub mod state;
pub mod target;
pub mod task;
pub mod text;
pub mod tools;

pub use app::{App, Config};
pub use cmd::{cmd, Cmd};
pub use target::Target;
pub use task::Task;

use vstd::prelude::*;

verus! {

/// Whether a target was satisfied after a check.
#[derive(Debug, Clone, Copy, PartialEq, Eq, Structural)]
pub enum Satisfaction {
    Satisfied,
    Unsatisfied,
}

/// One entry in the output of a check/apply/plan run.
///
/// Each step corresponds to one target (or one re-check after a task).
#[derive(Debug, Clone)]
pub struct Step {
    pub name: String,
    pub description: Option<String>,
    pub sat: Satisfaction,
    pub detail: String,
}

/// The mathematical content of a [`Step`]: name, description, satisfaction
/// and detail text.
pub type StepView = (Seq<char>, Option<Seq<char>>, Satisfaction, Seq<char>);

pub open spec fn opt_string_view(o: Option<String>) -> Option<Seq<char>> {
    match o {
        Some(s) => Some(s@),
        None => None,
    }
}

pub open spec fn step_view(s: Step) -> StepView {
    (s.name@, opt_string_view(s.description), s.sat, s.detail@)
}

pub open spec fn steps_view(v: Seq<Step>) -> Seq<StepView> {
    v.map_values(|s: Step| step_view(s))
}

/// A call of a user's closure during a run, with what it gave back: the
/// check function of the target at a position of the registry and its
/// answer (an error by its message), or the action of the task at a
/// position and whether it succeeded.
pub enum Call {
    Check(int, Result<bool, Seq<char>>),
    Action(int, bool),
}

/// The tasks whose actions `calls` lists, in order.
pub open spec fn actions_in(calls: Seq<Call>) -> Seq<int>
    decreases calls.len(),
{
    if calls.len() == 0 {
        Seq::empty()
    } else {
        let rest = actions_in(calls.drop_last());
        match calls.last() {
            Call::Action(j, _) => rest.push(j),
            Call::Check(..) => rest,
        }
    }
}

/// `calls`, followed by a call of the check function of target `i` that
/// answered `o`, when `runs` holds.
pub open spec fn with_check(calls: Seq<Call>, runs: bool, i: int, o: Result<bool, Seq<char>>) -> Seq<Call> {
    if runs {
        calls.push(Call::Check(i, o))
    } else {
        calls
    }
}

} // verus!
