//! The registry of targets and tasks, its validation, and the check, plan
//! and apply engines.
use vstd::prelude::*;

use crate::graph::{
    acyclic, deps_of, detect_cycles, edge, find_key, graph_ok, is_cycle, path_ints, relevant,
    topo_order,
};
use crate::state::{State, TargetStateView};
use crate::target::{names_view, run_probe, Target};
use crate::task::Task;
use crate::text::{decimal, join, join_strings, same_text};
use crate::{opt_string_view, step_view, steps_view, with_check, Call, Satisfaction, Step, StepView};

verus! {

/// Execution configuration for a check/apply/plan run.
#[derive(Clone)]
pub struct Config {
    /// Only consider tasks that have at least one of these labels.
    /// `None` means no filter — consider all tasks.
    pub label_filter: Option<Vec<String>>,
    /// Exclude tasks that have any of these labels.
    pub exclude_labels: Vec<String>,
}

impl Default for Config {
    fn default() -> (c: Config)
        ensures
            c.label_filter.is_none(),
            c.exclude_labels@.len() == 0,
    {
        Config { label_filter: None, exclude_labels: Vec::new() }
    }
}

/// A task is left out of a run: it carries an excluded label, or a label
/// filter is given and it carries none of the filter's labels.
pub open spec fn task_disabled(labels: Seq<Seq<char>>, config: Config) -> bool {
    (exists|k: int| 0 <= k < config.exclude_labels@.len() && labels.contains(#[trigger] config.exclude_labels@[k]@))
        || match config.label_filter {
        Some(f) => !(exists|k: int| 0 <= k < labels.len() && names_view(f@).contains(#[trigger] labels[k])),
        None => false,
    }
}

/// Whether the names `names` include `name`.
pub fn contains_name(names: &Vec<String>, name: &str) -> (r: bool)
    ensures
        r == names_view(names@).contains(name@),
{
    let mut i: usize = 0;
    while i < names.len()
        invariant
            i <= names@.len(),
            forall|k: int| 0 <= k < i ==> names@[k]@ != name@,
        decreases names@.len() - i,
    {
        if same_text(names[i].as_str(), name) {
            proof {
                assert(names_view(names@)[i as int] == name@);
            }
            return true;
        }
        i = i + 1;
    }
    proof {
        if names_view(names@).contains(name@) {
            let k = choose|k: int| 0 <= k < names@.len() && names_view(names@)[k] == name@;
            assert(names@[k]@ == name@);
        }
    }
    false
}

/// Whether a task is disabled by the label filter and exclusions of `config`.
pub fn is_task_disabled(task: &Task, config: &Config) -> (r: bool)
    ensures
        r == task_disabled(names_view(task.labels@), *config),
{
    let ghost labels = names_view(task.labels@);
    let mut i: usize = 0;
    while i < config.exclude_labels.len()
        invariant
            i <= config.exclude_labels@.len(),
            labels == names_view(task.labels@),
            forall|k: int| 0 <= k < i ==> !labels.contains(#[trigger] config.exclude_labels@[k]@),
        decreases config.exclude_labels@.len() - i,
    {
        if contains_name(&task.labels, config.exclude_labels[i].as_str()) {
            return true;
        }
        i = i + 1;
    }
    match config.label_filter.as_ref() {
        Some(filter) => {
            let mut j: usize = 0;
            while j < task.labels.len()
                invariant
                    j <= task.labels@.len(),
                    labels == names_view(task.labels@),
                    config.label_filter == Some(*filter),
                    forall|k: int| 0 <= k < config.exclude_labels@.len() ==> !labels.contains(#[trigger] config.exclude_labels@[k]@),
                    forall|k: int| 0 <= k < j ==> !names_view(filter@).contains(#[trigger] labels[k]),
                decreases task.labels@.len() - j,
            {
                if contains_name(filter, task.labels[j].as_str()) {
                    proof {
                        assert(labels[j as int] == task.labels@[j as int]@);
                        assert(names_view(filter@).contains(labels[j as int]));
                        assert(exists|k: int| 0 <= k < labels.len() && names_view(filter@).contains(#[trigger] labels[k]));
                    }
                    return false;
                }
                j = j + 1;
            }
            true
        },
        None => false,
    }
}

/// Why a registry is not valid.
#[derive(Debug)]
pub enum ValidationError {
    UnknownDependency { target: String, dep: String },
    UnknownCheckDependency { target: String, dep: String },
    TaskSatisfiesUnknown { task: String, target: String },
    TaskDependsOnUnknown { task: String, target: String },
    MultipleTasks { target: String, first: String, second: String },
    Cycle { path: Vec<String> },
}

impl ValidationError {
    /// The text of the error.
    pub open spec fn spec_message(&self) -> Seq<char> {
        match self {
            ValidationError::UnknownDependency { target, dep } => "target '"@ + target@
                + "' depends on unknown target '"@ + dep@ + "'"@,
            ValidationError::UnknownCheckDependency { target, dep } => "target '"@ + target@
                + "' has check dep on unknown target '"@ + dep@ + "'"@,
            ValidationError::TaskSatisfiesUnknown { task, target } => "task '"@ + task@
                + "' satisfies unknown target '"@ + target@ + "'"@,
            ValidationError::TaskDependsOnUnknown { task, target } => "task '"@ + task@
                + "' depends on unknown target '"@ + target@ + "'"@,
            ValidationError::MultipleTasks { target, first, second } => "target '"@ + target@
                + "' satisfied by multiple tasks: '"@ + first@ + "' and '"@ + second@ + "'"@,
            ValidationError::Cycle { path } => "dependency cycle: "@ + join(
                names_view(path@),
                " -> "@,
            ),
        }
    }

    /// The text of the error, as the command line prints it.
    pub fn message(&self) -> (m: String)
        ensures
            m@ == self.spec_message(),
    {
        let mut m = String::new();
        match self {
            ValidationError::UnknownDependency { target, dep } => {
                m.append("target '");
                m.append(target.as_str());
                m.append("' depends on unknown target '");
                m.append(dep.as_str());
                m.append("'");
            },
            ValidationError::UnknownCheckDependency { target, dep } => {
                m.append("target '");
                m.append(target.as_str());
                m.append("' has check dep on unknown target '");
                m.append(dep.as_str());
                m.append("'");
            },
            ValidationError::TaskSatisfiesUnknown { task, target } => {
                m.append("task '");
                m.append(task.as_str());
                m.append("' satisfies unknown target '");
                m.append(target.as_str());
                m.append("'");
            },
            ValidationError::TaskDependsOnUnknown { task, target } => {
                m.append("task '");
                m.append(task.as_str());
                m.append("' depends on unknown target '");
                m.append(target.as_str());
                m.append("'");
            },
            ValidationError::MultipleTasks { target, first, second } => {
                m.append("target '");
                m.append(target.as_str());
                m.append("' satisfied by multiple tasks: '");
                m.append(first.as_str());
                m.append("' and '");
                m.append(second.as_str());
                m.append("'");
            },
            ValidationError::Cycle { path } => {
                m.append("dependency cycle: ");
                let j = join_strings(path, " -> ");
                m.append(j.as_str());
            },
        }
        proof {
            assert(m@ =~= self.spec_message());
        }
        m
    }
}

/// Every name of `ds` is a registered target.
pub open spec fn all_known(kv: Seq<Seq<char>>, ds: Seq<Seq<char>>) -> bool {
    forall|k: int| 0 <= k < ds.len() ==> kv.contains(#[trigger] ds[k])
}

/// `ds[k]` is the first name of `ds` that is not a registered target.
pub open spec fn first_unknown(kv: Seq<Seq<char>>, ds: Seq<Seq<char>>, k: int) -> bool {
    0 <= k < ds.len() && !kv.contains(ds[k]) && all_known(kv, ds.take(k))
}

pub open spec fn target_refs_known(kv: Seq<Seq<char>>, t: Target) -> bool {
    all_known(kv, names_view(t.depends_on@)) && all_known(kv, names_view(t.check_deps@))
}

pub open spec fn task_refs_known(kv: Seq<Seq<char>>, t: Task) -> bool {
    all_known(kv, names_view(t.satisfies@)) && all_known(kv, names_view(t.depends_on@))
}

/// Position `k` of the `satisfies` list of task `j`.
pub open spec fn sat_pos(ts: Seq<Task>, j: int, k: int) -> bool {
    0 <= j < ts.len() && 0 <= k < ts[j].satisfies@.len()
}

pub open spec fn sat_name(ts: Seq<Task>, j: int, k: int) -> Seq<char> {
    ts[j].satisfies@[k]@
}

/// Position `(j1, k1)` comes before `(j2, k2)` in task order, then list order.
pub open spec fn sat_before(j1: int, k1: int, j2: int, k2: int) -> bool {
    j1 < j2 || (j1 == j2 && k1 < k2)
}

/// The target at `(j, k)` was already claimed at an earlier position.
pub open spec fn repeats(ts: Seq<Task>, j: int, k: int) -> bool {
    sat_pos(ts, j, k) && exists|j1: int, k1: int|
        #![trigger sat_name(ts, j1, k1)]
        sat_pos(ts, j1, k1) && sat_before(j1, k1, j, k) && sat_name(ts, j1, k1) == sat_name(ts, j, k)
}

/// No target is claimed twice by the tasks' `satisfies` lists.
pub open spec fn unique_satisfiers(ts: Seq<Task>) -> bool {
    forall|j: int, k: int| !#[trigger] repeats(ts, j, k)
}

/// `(j, k)` is the first repeated claim.
pub open spec fn first_repeat(ts: Seq<Task>, j: int, k: int) -> bool {
    repeats(ts, j, k) && forall|j2: int, k2: int|
        sat_before(j2, k2, j, k) ==> !#[trigger] repeats(ts, j2, k2)
}

/// `(j, k)` is the first position claiming its target.
pub open spec fn first_claim(ts: Seq<Task>, j: int, k: int) -> bool {
    sat_pos(ts, j, k) && forall|j2: int, k2: int|
        #![trigger sat_name(ts, j2, k2)]
        sat_pos(ts, j2, k2) && sat_before(j2, k2, j, k) ==> sat_name(ts, j2, k2) != sat_name(ts, j, k)
}

/// The registry a run may rely on: every reference names a registered
/// target, no target is claimed by two task positions, and the dependency
/// graph has no cycle.
pub open spec fn valid_registry(kv: Seq<Seq<char>>, ts: Seq<Target>, tasks: Seq<Task>) -> bool {
    &&& forall|i: int| 0 <= i < ts.len() ==> target_refs_known(kv, #[trigger] ts[i])
    &&& forall|j: int| 0 <= j < tasks.len() ==> task_refs_known(kv, #[trigger] tasks[j])
    &&& unique_satisfiers(tasks)
    &&& acyclic(kv, deps_of(ts))
}

/// `e` is the failure that validation reports first.
pub open spec fn validation_error_is(kv: Seq<Seq<char>>, ts: Seq<Target>, tasks: Seq<Task>, e: ValidationError) -> bool {
    let targets_ok = forall|i: int| 0 <= i < ts.len() ==> target_refs_known(kv, #[trigger] ts[i]);
    let tasks_ok = forall|j: int| 0 <= j < tasks.len() ==> task_refs_known(kv, #[trigger] tasks[j]);
    match e {
        ValidationError::UnknownDependency { target, dep } => exists|i: int, k: int|
            0 <= i < ts.len() && (forall|i2: int| 0 <= i2 < i ==> target_refs_known(kv, #[trigger] ts[i2]))
                && #[trigger] first_unknown(kv, names_view(ts[i].depends_on@), k) && target@ == ts[i].name@
                && dep@ == ts[i].depends_on@[k]@,
        ValidationError::UnknownCheckDependency { target, dep } => exists|i: int, k: int|
            0 <= i < ts.len() && (forall|i2: int| 0 <= i2 < i ==> target_refs_known(kv, #[trigger] ts[i2]))
                && all_known(kv, names_view(ts[i].depends_on@))
                && #[trigger] first_unknown(kv, names_view(ts[i].check_deps@), k) && target@ == ts[i].name@
                && dep@ == ts[i].check_deps@[k]@,
        ValidationError::TaskSatisfiesUnknown { task, target } => targets_ok && exists|j: int, k: int|
            0 <= j < tasks.len() && (forall|j2: int| 0 <= j2 < j ==> task_refs_known(kv, #[trigger] tasks[j2]))
                && #[trigger] first_unknown(kv, names_view(tasks[j].satisfies@), k) && task@ == tasks[j].name@
                && target@ == tasks[j].satisfies@[k]@,
        ValidationError::TaskDependsOnUnknown { task, target } => targets_ok && exists|j: int, k: int|
            0 <= j < tasks.len() && (forall|j2: int| 0 <= j2 < j ==> task_refs_known(kv, #[trigger] tasks[j2]))
                && all_known(kv, names_view(tasks[j].satisfies@))
                && #[trigger] first_unknown(kv, names_view(tasks[j].depends_on@), k) && task@ == tasks[j].name@
                && target@ == tasks[j].depends_on@[k]@,
        ValidationError::MultipleTasks { target, first, second } => targets_ok && tasks_ok && exists|
            j: int,
            k: int,
            j1: int,
            k1: int,
        |
            #[trigger] first_repeat(tasks, j, k) && #[trigger] claimed_first_by(tasks, j1, k1, j, k)
                && target@ == sat_name(tasks, j, k) && first@ == tasks[j1].name@ && second@ == tasks[j].name@,
        ValidationError::Cycle { path } => targets_ok && tasks_ok && unique_satisfiers(tasks) && exists|c: Seq<int>|
            #[trigger] is_cycle(kv, deps_of(ts), c) && names_view(path@) == c.map_values(|x: int| kv[x]),
    }
}

/// The target at `(j, k)` was first claimed at the earlier position `(j1, k1)`.
pub open spec fn claimed_first_by(ts: Seq<Task>, j1: int, k1: int, j: int, k: int) -> bool {
    first_claim(ts, j1, k1) && sat_before(j1, k1, j, k) && sat_name(ts, j1, k1) == sat_name(ts, j, k)
}

/// The task whose `satisfies` list first (in task order, then list order)
/// names the target at position `(j, k)`, when that is an earlier position.
fn earlier_claim(tasks: &Vec<Task>, j: usize, k: usize) -> (r: Option<(usize, usize)>)
    requires
        sat_pos(tasks@, j as int, k as int),
    ensures
        match r {
            Some((j1, k1)) => claimed_first_by(tasks@, j1 as int, k1 as int, j as int, k as int),
            None => !repeats(tasks@, j as int, k as int),
        },
{
    let ghost ts = tasks@;
    let ghost name = sat_name(ts, j as int, k as int);
    let target = tasks[j].satisfies[k].as_str();
    let ntasks = tasks.len();
    let mut j1: usize = 0;
    while j1 <= j
        invariant
            ntasks == tasks@.len(),
            sat_pos(ts, j as int, k as int),
            ts == tasks@,
            name == target@,
            name == sat_name(ts, j as int, k as int),
            j1 <= j + 1,
            forall|j2: int, k2: int|
                #![trigger sat_name(ts, j2, k2)]
                sat_pos(ts, j2, k2) && j2 < j1 && sat_before(j2, k2, j as int, k as int) ==> sat_name(ts, j2, k2) != name,
        decreases j + 1 - j1,
    {
        let lim = if j1 == j { k } else { tasks[j1].satisfies.len() };
        let mut k1: usize = 0;
        while k1 < lim
            invariant
                sat_pos(ts, j as int, k as int),
                ts == tasks@,
                name == target@,
                name == sat_name(ts, j as int, k as int),
            name == sat_name(ts, j as int, k as int),
                j1 <= j,
                lim <= ts[j1 as int].satisfies@.len(),
                j1 == j ==> lim == k,
                j1 < j ==> lim == ts[j1 as int].satisfies@.len(),
                k1 <= lim,
                forall|j2: int, k2: int|
                    #![trigger sat_name(ts, j2, k2)]
                    sat_pos(ts, j2, k2) && j2 < j1 && sat_before(j2, k2, j as int, k as int) ==> sat_name(ts, j2, k2) != name,
                forall|k2: int| 0 <= k2 < k1 ==> sat_name(ts, j1 as int, k2) != name,
            decreases lim - k1,
        {
            if same_text(tasks[j1].satisfies[k1].as_str(), target) {
                proof {
                    assert(tasks@[j1 as int].satisfies@[k1 as int]@ == target@);
                    assert(ts[j1 as int].satisfies@[k1 as int]@ == name);
                    assert(sat_before(j1 as int, k1 as int, j as int, k as int));
                    assert(first_claim(ts, j1 as int, k1 as int)) by {
                        assert forall|j2: int, k2: int|
                            #![trigger sat_name(ts, j2, k2)]
                            sat_pos(ts, j2, k2) && sat_before(j2, k2, j1 as int, k1 as int) implies sat_name(ts, j2, k2) != sat_name(ts, j1 as int, k1 as int) by {
                            if j2 < j1 {
                                assert(sat_before(j2, k2, j as int, k as int));
                            }
                        }
                    }
                    assert(sat_name(ts, j1 as int, k1 as int) == sat_name(ts, j as int, k as int));
                    assert(claimed_first_by(tasks@, j1 as int, k1 as int, j as int, k as int));
                }
                return Some((j1, k1));
            }
            k1 = k1 + 1;
        }
        proof {
            assert forall|j2: int, k2: int|
                #![trigger sat_name(ts, j2, k2)]
                sat_pos(ts, j2, k2) && j2 < j1 + 1 && sat_before(j2, k2, j as int, k as int) implies sat_name(ts, j2, k2) != name by {
                if j2 == j1 {
                    assert(k2 < lim);
                }
            }
        }
        j1 = j1 + 1;
    }
    proof {
        if repeats(ts, j as int, k as int) {
            let (j2, k2) = choose|j2: int, k2: int|
                #![trigger sat_name(ts, j2, k2)]
                sat_pos(ts, j2, k2) && sat_before(j2, k2, j as int, k as int) && sat_name(ts, j2, k2) == sat_name(ts, j as int, k as int);
            assert(j2 <= j);
        }
    }
    None
}

/// What a run remembers of a target: its last satisfaction and whether that
/// was set by hand.
pub type Mark = (Option<bool>, bool);

pub open spec fn marks(st: Map<Seq<char>, TargetStateView>) -> Map<Seq<char>, Mark> {
    st.map_values(|v: TargetStateView| (v.satisfied, v.manually_set))
}

pub open spec fn mark_of(m: Map<Seq<char>, Mark>, name: Seq<char>) -> Option<Mark> {
    if m.contains_key(name) {
        Some(m[name])
    } else {
        None
    }
}

/// The satisfaction a run found so far for the target named `d`.
pub open spec fn sat_of(kv: Seq<Seq<char>>, sat: Seq<Option<Satisfaction>>, d: Seq<char>) -> Option<Satisfaction> {
    if kv.contains(d) {
        sat[kv.index_of(d)]
    } else {
        None
    }
}

/// Every target named in `ds` was found satisfied in this run.
pub open spec fn all_sat(kv: Seq<Seq<char>>, sat: Seq<Option<Satisfaction>>, ds: Seq<Seq<char>>) -> bool {
    forall|k: int| 0 <= k < ds.len() ==> sat_of(kv, sat, #[trigger] ds[k]) == Some(Satisfaction::Satisfied)
}

/// Every target named in `ds` was found satisfied, or would be by a planned task.
pub open spec fn all_sat_or_would(kv: Seq<Seq<char>>, sat: Seq<Option<Satisfaction>>, would: Seq<bool>, ds: Seq<Seq<char>>) -> bool {
    forall|k: int|
        0 <= k < ds.len() ==> sat_of(kv, sat, #[trigger] ds[k]) == Some(Satisfaction::Satisfied) || (kv.contains(ds[k])
            && would[kv.index_of(ds[k])])
}

/// What a check function's outcome means: `Ok(b)` gives its answer with no
/// detail, an error gives unsatisfied with the error's text.
pub open spec fn outcome_result(o: Result<bool, Seq<char>>) -> (Satisfaction, Seq<char>) {
    match o {
        Ok(true) => (Satisfaction::Satisfied, Seq::empty()),
        Ok(false) => (Satisfaction::Unsatisfied, Seq::empty()),
        Err(e) => (Satisfaction::Unsatisfied, "check error: "@ + e),
    }
}

pub open spec fn result_view(o: Result<bool, String>) -> Result<bool, Seq<char>> {
    match o {
        Ok(b) => Ok(b),
        Err(e) => Err(e@),
    }
}

pub open spec fn gives(r: (Satisfaction, String), e: (Satisfaction, Seq<char>)) -> bool {
    r.0 == e.0 && r.1@ == e.1
}

/// How a target is judged in a check or apply run, given what is remembered
/// of it (`entry`), what the run found so far (`sat`), and what its check
/// function would answer (`o`, used only when the check runs):
/// - a manual override wins;
/// - a leaf is unsatisfied while a check dependency is unsatisfied, is
///   satisfied from memory when last found satisfied, and otherwise runs its
///   check;
/// - a target with neither check nor dependencies is unsatisfied;
/// - an aggregate is satisfied exactly when all its dependencies are.
pub open spec fn eval_spec(
    kv: Seq<Seq<char>>,
    sat: Seq<Option<Satisfaction>>,
    t: Target,
    entry: Option<Mark>,
    o: Result<bool, Seq<char>>,
) -> (Satisfaction, Seq<char>) {
    if entry is Some && entry.unwrap().1 {
        if entry.unwrap().0 == Some(true) {
            (Satisfaction::Satisfied, "(manually set)"@)
        } else {
            (Satisfaction::Unsatisfied, "(manually unset)"@)
        }
    } else if t.check is Some {
        if !all_sat(kv, sat, names_view(t.check_deps@)) {
            (Satisfaction::Unsatisfied, "(check dep not satisfied)"@)
        } else if entry is Some && entry.unwrap().0 == Some(true) {
            (Satisfaction::Satisfied, "(cached)"@)
        } else {
            outcome_result(o)
        }
    } else if t.depends_on@.len() == 0 {
        (Satisfaction::Unsatisfied, "(no check, no deps)"@)
    } else if all_sat(kv, sat, names_view(t.depends_on@)) {
        (Satisfaction::Satisfied, "(aggregate)"@)
    } else {
        (Satisfaction::Unsatisfied, "(aggregate, deps unsatisfied)"@)
    }
}

/// Whether judging the target runs its check function.
pub open spec fn eval_runs_check(kv: Seq<Seq<char>>, sat: Seq<Option<Satisfaction>>, t: Target, entry: Option<Mark>) -> bool {
    !(entry is Some && entry.unwrap().1) && t.check is Some && all_sat(kv, sat, names_view(t.check_deps@)) && !(entry is Some
        && entry.unwrap().0 == Some(true))
}

/// How a target is judged in a plan: a manual override (in `entry`) wins, as
/// in a run; otherwise no memory is consulted, a leaf runs its check, and
/// targets that a planned task would satisfy count as satisfied.
pub open spec fn eval_plan_spec(
    kv: Seq<Seq<char>>,
    sat: Seq<Option<Satisfaction>>,
    would: Seq<bool>,
    t: Target,
    entry: Option<Mark>,
    o: Result<bool, Seq<char>>,
) -> (Satisfaction, Seq<char>) {
    if entry is Some && entry.unwrap().1 {
        if entry.unwrap().0 == Some(true) {
            (Satisfaction::Satisfied, "(manually set)"@)
        } else {
            (Satisfaction::Unsatisfied, "(manually unset)"@)
        }
    } else if t.check is Some {
        if !all_sat_or_would(kv, sat, would, names_view(t.check_deps@)) {
            (Satisfaction::Unsatisfied, "(check dep not satisfied)"@)
        } else {
            outcome_result(o)
        }
    } else if t.depends_on@.len() == 0 {
        (Satisfaction::Unsatisfied, "(no check, no deps)"@)
    } else if all_sat_or_would(kv, sat, would, names_view(t.depends_on@)) {
        (Satisfaction::Satisfied, "(aggregate)"@)
    } else {
        (Satisfaction::Unsatisfied, "(aggregate, deps unsatisfied)"@)
    }
}

/// What a check run has built after its first `k` targets: the marks kept in
/// the state, the satisfaction found per target, the steps reported, and the
/// check functions called.
pub struct CheckAcc {
    pub marks: Map<Seq<char>, Mark>,
    pub sat: Seq<Option<Satisfaction>>,
    pub steps: Seq<StepView>,
    pub calls: Seq<Call>,
}

/// A check run over `ord`: each target is judged in turn, its check function
/// being called (and answering `outs[k]`) exactly when [`eval_runs_check`]
/// holds; the result is recorded in the state (see [`record`]), and
/// reported as a step.
pub open spec fn check_trace(
    kv: Seq<Seq<char>>,
    ts: Seq<Target>,
    m0: Map<Seq<char>, Mark>,
    ord: Seq<int>,
    outs: Seq<Result<bool, Seq<char>>>,
    k: nat,
) -> CheckAcc
    decreases k,
{
    if k == 0 {
        CheckAcc { marks: m0, sat: Seq::new(kv.len(), |i: int| None), steps: Seq::empty(), calls: Seq::empty() }
    } else {
        let a = check_trace(kv, ts, m0, ord, outs, (k - 1) as nat);
        let x = ord[k - 1];
        let t = ts[x];
        let e = eval_spec(kv, a.sat, t, mark_of(a.marks, t.name@), outs[k - 1]);
        CheckAcc {
            marks: record(a.marks, kv[x], e.0 == Satisfaction::Satisfied),
            sat: a.sat.update(x, Some(e.0)),
            steps: a.steps.push((kv[x], opt_string_view(t.description), e.0, e.1)),
            calls: with_check(a.calls, eval_runs_check(kv, a.sat, t, mark_of(a.marks, t.name@)), x, outs[k - 1]),
        }
    }
}

/// A check run for `req` took order `ord`, its check functions answered
/// `outs`, and it left marks `m1`, reported `steps` and called the check
/// functions `calls`, in that order. Each call in `calls` carries the
/// answer that judged its target, so the answers are the ones the check
/// functions gave.
pub open spec fn check_run_is(
    kv: Seq<Seq<char>>,
    ts: Seq<Target>,
    m0: Map<Seq<char>, Mark>,
    req: Seq<Seq<char>>,
    ord: Seq<int>,
    outs: Seq<Result<bool, Seq<char>>>,
    m1: Map<Seq<char>, Mark>,
    steps: Seq<StepView>,
    calls: Seq<Call>,
) -> bool {
    &&& crate::graph::run_order(kv, deps_of(ts), req, ord)
    &&& crate::graph::exact_order(kv, ts, req, ord)
    &&& outs.len() == ord.len()
    &&& m1 == check_trace(kv, ts, m0, ord, outs, ord.len()).marks
    &&& steps == check_trace(kv, ts, m0, ord, outs, ord.len()).steps
    &&& calls == check_trace(kv, ts, m0, ord, outs, ord.len()).calls
}

proof fn lemma_check_trace_push(
    kv: Seq<Seq<char>>,
    ts: Seq<Target>,
    m0: Map<Seq<char>, Mark>,
    ord: Seq<int>,
    outs: Seq<Result<bool, Seq<char>>>,
    o: Result<bool, Seq<char>>,
    k: nat,
)
    requires
        k <= outs.len(),
    ensures
        check_trace(kv, ts, m0, ord, outs.push(o), k) == check_trace(kv, ts, m0, ord, outs, k),
    decreases k,
{
    if k > 0 {
        lemma_check_trace_push(kv, ts, m0, ord, outs, o, (k - 1) as nat);
        assert(outs.push(o)[k - 1] == outs[k - 1]);
    }
}

/// Putting an entry in the state puts its mark in the marks.
pub proof fn lemma_marks_insert(m: Map<Seq<char>, TargetStateView>, k: Seq<char>, v: TargetStateView)
    ensures
        marks(m.insert(k, v)) == marks(m).insert(k, (v.satisfied, v.manually_set)),
{
    assert(marks(m.insert(k, v)) =~= marks(m).insert(k, (v.satisfied, v.manually_set)));
}

/// Removing an entry from the state removes its mark.
pub proof fn lemma_marks_remove(m: Map<Seq<char>, TargetStateView>, k: Seq<char>)
    ensures
        marks(m.remove(k)) == marks(m).remove(k),
{
    assert(marks(m.remove(k)) =~= marks(m).remove(k));
}

/// What a run remembers after judging the target named `name` to be
/// `satisfied`: a checked mark, unless a manual override is in place, which
/// stays until it is removed by hand.
pub open spec fn record(m: Map<Seq<char>, Mark>, name: Seq<char>, satisfied: bool) -> Map<Seq<char>, Mark> {
    if m.contains_key(name) && m[name].1 {
        m
    } else {
        m.insert(name, (Some(satisfied), false))
    }
}

/// Task `j` is the first task whose `satisfies` list names `name`.
pub open spec fn first_task_for(tasks: Seq<Task>, name: Seq<char>, j: int) -> bool {
    0 <= j < tasks.len() && names_view(tasks[j].satisfies@).contains(name) && forall|j2: int|
        0 <= j2 < j ==> !names_view(#[trigger] tasks[j2].satisfies@).contains(name)
}

/// The task that would bring target `name` about, if any.
pub open spec fn task_for(tasks: Seq<Task>, name: Seq<char>) -> Option<int> {
    if exists|j: int| #[trigger] first_task_for(tasks, name, j) {
        Some(choose|j: int| #[trigger] first_task_for(tasks, name, j))
    } else {
        None
    }
}

pub open spec fn step_of(kv: Seq<Seq<char>>, ts: Seq<Target>, i: int, s: Satisfaction, d: Seq<char>) -> StepView {
    (kv[i], opt_string_view(ts[i].description), s, d)
}

/// The flags with every target named in `ns` raised.
pub open spec fn raise(kv: Seq<Seq<char>>, flags: Seq<bool>, ns: Seq<Seq<char>>) -> Seq<bool> {
    Seq::new(flags.len(), |i: int| flags[i] || ns.contains(kv[i]))
}

/// The satisfactions with every target named in `ns` satisfied.
pub open spec fn satisfy_all(kv: Seq<Seq<char>>, sat: Seq<Option<Satisfaction>>, ns: Seq<Seq<char>>) -> Seq<Option<Satisfaction>> {
    Seq::new(sat.len(), |i: int| if ns.contains(kv[i]) { Some(Satisfaction::Satisfied) } else { sat[i] })
}

/// What a plan has built after some targets, with the check functions it
/// called.
pub struct PlanAcc {
    pub sat: Seq<Option<Satisfaction>>,
    pub would: Seq<bool>,
    pub blocked: Seq<bool>,
    pub steps: Seq<StepView>,
    pub calls: Seq<Call>,
}

/// Whether judging the target in a plan runs its check function: a leaf
/// that is not overridden by hand and whose check dependencies are (or
/// would be) satisfied.
pub open spec fn plan_runs_check(
    kv: Seq<Seq<char>>,
    sat: Seq<Option<Satisfaction>>,
    would: Seq<bool>,
    t: Target,
    entry: Option<Mark>,
) -> bool {
    !(entry is Some && entry.unwrap().1) && t.check is Some && all_sat_or_would(kv, sat, would, names_view(t.check_deps@))
}

/// One target of a plan:
/// - a target that is blocked, or that depends (for satisfaction or for its
///   check) on a blocked target, would be skipped and blocks its dependents;
/// - a target a planned task satisfies counts as satisfied;
/// - otherwise it is judged against its mark in `m` (see
///   [`eval_plan_spec`]: a manual override wins; its check function is
///   called when [`plan_runs_check`] holds, answering `o`); unsatisfied leaves and
///   stubs stay unsatisfied; an unsatisfied aggregate's task would run when
///   enabled and its dependencies are (or would be) satisfied, and then all
///   targets the task satisfies would be; when its dependencies are not, the
///   task's targets are blocked.
pub open spec fn plan_step(
    kv: Seq<Seq<char>>,
    ts: Seq<Target>,
    tasks: Seq<Task>,
    config: Config,
    m: Map<Seq<char>, Mark>,
    a: PlanAcc,
    x: int,
    o: Result<bool, Seq<char>>,
) -> PlanAcc {
    let t = ts[x];
    let entry = mark_of(m, t.name@);
    let judged = with_check(a.calls, plan_runs_check(kv, a.sat, a.would, t, entry), x, o);
    let unsat = |d: Seq<char>| PlanAcc {
        sat: a.sat.update(x, Some(Satisfaction::Unsatisfied)),
        steps: a.steps.push(step_of(kv, ts, x, Satisfaction::Unsatisfied, d)),
        calls: judged,
        ..a
    };
    if a.blocked[x] || any_blocked(kv, a.blocked, names_view(t.depends_on@)) || any_blocked(
        kv,
        a.blocked,
        names_view(t.check_deps@),
    ) {
        PlanAcc {
            blocked: a.blocked.update(x, true),
            steps: a.steps.push(step_of(kv, ts, x, Satisfaction::Unsatisfied, "(would be skipped, upstream failure)"@)),
            ..a
        }
    } else if a.would[x] {
        PlanAcc {
            sat: a.sat.update(x, Some(Satisfaction::Satisfied)),
            steps: a.steps.push(step_of(kv, ts, x, Satisfaction::Satisfied, "(would be satisfied by task)"@)),
            ..a
        }
    } else {
        let e = eval_plan_spec(kv, a.sat, a.would, t, entry, o);
        if e.0 == Satisfaction::Satisfied {
            PlanAcc {
                sat: a.sat.update(x, Some(Satisfaction::Satisfied)),
                steps: a.steps.push(step_of(kv, ts, x, Satisfaction::Satisfied, e.1)),
                calls: judged,
                ..a
            }
        } else if t.check is Some || t.spec_is_stub() {
            unsat(e.1)
        } else {
            match task_for(tasks, kv[x]) {
                None => unsat(e.1),
                Some(j) => {
                    let task = tasks[j];
                    let sn = names_view(task.satisfies@);
                    if task_disabled(names_view(task.labels@), config) {
                        unsat("(task disabled by label filter)"@)
                    } else if !all_sat_or_would(kv, a.sat, a.would, names_view(task.depends_on@)) {
                        PlanAcc { blocked: raise(kv, a.blocked, sn), ..unsat("(task deps not satisfied)"@) }
                    } else {
                        PlanAcc {
                            sat: satisfy_all(kv, a.sat, sn),
                            would: raise(kv, a.would, sn),
                            blocked: a.blocked,
                            steps: a.steps + sn.map_values(
                                |s: Seq<char>| step_of(kv, ts, kv.index_of(s), Satisfaction::Satisfied, "(would be satisfied by task)"@),
                            ),
                            calls: judged,
                        }
                    }
                },
            }
        }
    }
}

pub open spec fn plan_trace(
    kv: Seq<Seq<char>>,
    ts: Seq<Target>,
    tasks: Seq<Task>,
    config: Config,
    m: Map<Seq<char>, Mark>,
    ord: Seq<int>,
    outs: Seq<Result<bool, Seq<char>>>,
    k: nat,
) -> PlanAcc
    decreases k,
{
    if k == 0 {
        PlanAcc {
            sat: Seq::new(kv.len(), |i: int| None),
            would: Seq::new(kv.len(), |i: int| false),
            blocked: Seq::new(kv.len(), |i: int| false),
            steps: Seq::empty(),
            calls: Seq::empty(),
        }
    } else {
        plan_step(kv, ts, tasks, config, m, plan_trace(kv, ts, tasks, config, m, ord, outs, (k - 1) as nat), ord[k - 1], outs[k - 1])
    }
}

/// A plan for `req`, with the marks `m` in the state, took order `ord`, its
/// check functions answered `outs`, and it reported `steps` and called the
/// user closures `calls`, in that order (each with the answer it gave).
pub open spec fn plan_run_is(
    kv: Seq<Seq<char>>,
    ts: Seq<Target>,
    tasks: Seq<Task>,
    config: Config,
    m: Map<Seq<char>, Mark>,
    req: Seq<Seq<char>>,
    ord: Seq<int>,
    outs: Seq<Result<bool, Seq<char>>>,
    steps: Seq<StepView>,
    calls: Seq<Call>,
) -> bool {
    &&& crate::graph::run_order(kv, deps_of(ts), req, ord)
    &&& crate::graph::exact_order(kv, ts, req, ord)
    &&& outs.len() == ord.len()
    &&& steps == plan_trace(kv, ts, tasks, config, m, ord, outs, ord.len()).steps
    &&& calls == plan_trace(kv, ts, tasks, config, m, ord, outs, ord.len()).calls
}

proof fn lemma_take_contains(ns: Seq<Seq<char>>, q: int, v: Seq<char>)
    requires
        0 <= q < ns.len(),
    ensures
        ns.take(q + 1).contains(v) <==> (ns.take(q).contains(v) || v == ns[q]),
{
    let a = ns.take(q);
    let b = ns.take(q + 1);
    if a.contains(v) {
        let w = choose|w: int| 0 <= w < a.len() && a[w] == v;
        assert(b[w] == v);
    }
    if v == ns[q] {
        assert(b[q] == v);
    }
    if b.contains(v) && v != ns[q] {
        let w = choose|w: int| 0 <= w < b.len() && b[w] == v;
        assert(w < q);
        assert(a[w] == v);
    }
}

proof fn lemma_plan_trace_push(
    kv: Seq<Seq<char>>,
    ts: Seq<Target>,
    tasks: Seq<Task>,
    config: Config,
    m: Map<Seq<char>, Mark>,
    ord: Seq<int>,
    outs: Seq<Result<bool, Seq<char>>>,
    o: Result<bool, Seq<char>>,
    k: nat,
)
    requires
        k <= outs.len(),
    ensures
        plan_trace(kv, ts, tasks, config, m, ord, outs.push(o), k) == plan_trace(kv, ts, tasks, config, m, ord, outs, k),
    decreases k,
{
    if k > 0 {
        lemma_plan_trace_push(kv, ts, tasks, config, m, ord, outs, o, (k - 1) as nat);
        assert(outs.push(o)[k - 1] == outs[k - 1]);
    }
}

/// Some target named in `ds` is blocked.
pub open spec fn any_blocked(kv: Seq<Seq<char>>, blocked: Seq<bool>, ds: Seq<Seq<char>>) -> bool {
    exists|k: int| 0 <= k < ds.len() && kv.contains(ds[k]) && #[trigger] blocked[kv.index_of(ds[k])]
}

/// What an apply run has built after some targets; `cur` counts the check
/// answers used for the current target, and `calls` lists the user closures
/// called so far.
pub struct ApplyAcc {
    pub marks: Map<Seq<char>, Mark>,
    pub sat: Seq<Option<Satisfaction>>,
    pub blocked: Seq<bool>,
    pub steps: Seq<StepView>,
    pub cur: nat,
    pub calls: Seq<Call>,
}

/// Judges target `i` again, records the result (see [`record`]) and
/// reports it; the check function is called when [`eval_runs_check`] holds,
/// and answers `os[a.cur]`.
pub open spec fn recheck_one(kv: Seq<Seq<char>>, ts: Seq<Target>, os: Seq<Result<bool, Seq<char>>>, a: ApplyAcc, i: int) -> ApplyAcc {
    let t = ts[i];
    let e = eval_spec(kv, a.sat, t, mark_of(a.marks, t.name@), os[a.cur as int]);
    ApplyAcc {
        marks: record(a.marks, kv[i], e.0 == Satisfaction::Satisfied),
        sat: a.sat.update(i, Some(e.0)),
        blocked: a.blocked,
        steps: a.steps.push(step_of(kv, ts, i, e.0, e.1)),
        cur: a.cur + 1,
        calls: with_check(a.calls, eval_runs_check(kv, a.sat, t, mark_of(a.marks, t.name@)), i, os[a.cur as int]),
    }
}

/// Before re-checking target `si` after its task ran: its first `r`
/// dependencies that are leaves not satisfied by the same task are judged
/// again.
pub open spec fn recheck_deps(
    kv: Seq<Seq<char>>,
    ts: Seq<Target>,
    sn: Seq<Seq<char>>,
    si: int,
    os: Seq<Result<bool, Seq<char>>>,
    a: ApplyAcc,
    r: nat,
) -> ApplyAcc
    decreases r,
{
    if r == 0 {
        a
    } else {
        let b = recheck_deps(kv, ts, sn, si, os, a, (r - 1) as nat);
        let d = names_view(ts[si].depends_on@)[r - 1];
        if kv.contains(d) && ts[kv.index_of(d)].check is Some && !sn.contains(d) {
            recheck_one(kv, ts, os, b, kv.index_of(d))
        } else {
            b
        }
    }
}

/// After a task ran (`ok` when it succeeded), each of the first `q` targets
/// it satisfies: on success its leaf dependencies and then itself are judged
/// again; on failure it is unsatisfied ("(task failed)") and blocks its
/// dependents.
pub open spec fn recheck_sats(
    kv: Seq<Seq<char>>,
    ts: Seq<Target>,
    sn: Seq<Seq<char>>,
    ok: bool,
    os: Seq<Result<bool, Seq<char>>>,
    a: ApplyAcc,
    q: nat,
) -> ApplyAcc
    decreases q,
{
    if q == 0 {
        a
    } else {
        let b = recheck_sats(kv, ts, sn, ok, os, a, (q - 1) as nat);
        let name = sn[q - 1];
        if !kv.contains(name) {
            b
        } else {
            let si = kv.index_of(name);
            if ok {
                let c = recheck_deps(kv, ts, sn, si, os, b, ts[si].depends_on@.len());
                recheck_one(kv, ts, os, c, si)
            } else {
                ApplyAcc {
                    marks: record(b.marks, kv[si], false),
                    sat: b.sat.update(si, Some(Satisfaction::Unsatisfied)),
                    blocked: b.blocked.update(si, true),
                    steps: b.steps.push(step_of(kv, ts, si, Satisfaction::Unsatisfied, "(task failed)"@)),
                    cur: b.cur,
                    calls: b.calls,
                }
            }
        }
    }
}

/// One target of an apply run. The target is judged (its check function
/// called when [`eval_runs_check`] holds, answering `os[0]`);
/// a satisfied target is recorded and reported; unsatisfied leaves and stubs
/// stay unsatisfied with no task run; an unsatisfied aggregate runs its task
/// when the task is enabled and the task's dependencies are satisfied (the
/// task's action is called, if it has one, and reports `ran`; a task with
/// no action counts as a success), and then
/// re-checks what the task satisfies (see [`recheck_sats`], later answers
/// from `os`); a task whose dependencies are unsatisfied blocks its targets.
/// A target that is blocked, or that depends (for its satisfaction or its
/// check) on a blocked target, is skipped and blocks its own dependents in
/// turn, so everything downstream of a failure is skipped.
pub open spec fn apply_step(
    kv: Seq<Seq<char>>,
    ts: Seq<Target>,
    tasks: Seq<Task>,
    config: Config,
    a: ApplyAcc,
    x: int,
    os: Seq<Result<bool, Seq<char>>>,
    ran: bool,
) -> ApplyAcc {
    let t = ts[x];
    let judged = with_check(a.calls, eval_runs_check(kv, a.sat, t, mark_of(a.marks, t.name@)), x, os[0]);
    let unsat = |d: Seq<char>| ApplyAcc {
        sat: a.sat.update(x, Some(Satisfaction::Unsatisfied)),
        steps: a.steps.push(step_of(kv, ts, x, Satisfaction::Unsatisfied, d)),
        cur: 1,
        calls: judged,
        ..a
    };
    if a.blocked[x] || any_blocked(kv, a.blocked, names_view(t.depends_on@)) || any_blocked(
        kv,
        a.blocked,
        names_view(t.check_deps@),
    ) {
        ApplyAcc {
            blocked: a.blocked.update(x, true),
            steps: a.steps.push(step_of(kv, ts, x, Satisfaction::Unsatisfied, "(skipped, upstream failure)"@)),
            cur: 0,
            ..a
        }
    } else {
        let e = eval_spec(kv, a.sat, t, mark_of(a.marks, t.name@), os[0]);
        if e.0 == Satisfaction::Satisfied {
            ApplyAcc {
                marks: record(a.marks, kv[x], true),
                sat: a.sat.update(x, Some(Satisfaction::Satisfied)),
                steps: a.steps.push(step_of(kv, ts, x, Satisfaction::Satisfied, e.1)),
                cur: 1,
                calls: judged,
                ..a
            }
        } else if t.check is Some || t.spec_is_stub() {
            unsat(e.1)
        } else {
            match task_for(tasks, kv[x]) {
                None => unsat(e.1),
                Some(j) => {
                    let task = tasks[j];
                    let sn = names_view(task.satisfies@);
                    if task_disabled(names_view(task.labels@), config) {
                        unsat("(task disabled by label filter)"@)
                    } else if !all_sat(kv, a.sat, names_view(task.depends_on@)) {
                        ApplyAcc { blocked: raise(kv, a.blocked, sn), ..unsat("(task deps not satisfied)"@) }
                    } else {
                        let ok = if task.run is Some { ran } else { true };
                        let acted = if task.run is Some { judged.push(Call::Action(j, ran)) } else { judged };
                        recheck_sats(kv, ts, sn, ok, os, ApplyAcc { cur: 1, calls: acted, ..a }, sn.len())
                    }
                },
            }
        }
    }
}

pub open spec fn apply_trace(
    kv: Seq<Seq<char>>,
    ts: Seq<Target>,
    tasks: Seq<Task>,
    config: Config,
    m0: Map<Seq<char>, Mark>,
    ord: Seq<int>,
    oss: Seq<Seq<Result<bool, Seq<char>>>>,
    runs: Seq<bool>,
    k: nat,
) -> ApplyAcc
    decreases k,
{
    if k == 0 {
        ApplyAcc {
            marks: m0,
            sat: Seq::new(kv.len(), |i: int| None),
            blocked: Seq::new(kv.len(), |i: int| false),
            steps: Seq::empty(),
            cur: 0,
            calls: Seq::empty(),
        }
    } else {
        apply_step(
            kv,
            ts,
            tasks,
            config,
            apply_trace(kv, ts, tasks, config, m0, ord, oss, runs, (k - 1) as nat),
            ord[k - 1],
            oss[k - 1],
            runs[k - 1],
        )
    }
}

/// An apply run for `req` took order `ord`, its check functions answered
/// `oss` (per target, in order of use) and its tasks reported `runs`; it left
/// marks `m1`, reported `steps` and called the user closures `calls`, in
/// that order. Each call in `calls` carries what the closure gave back (a
/// check's answer, a task's success), and those are the answers and
/// outcomes the run went on.
pub open spec fn apply_run_is(
    kv: Seq<Seq<char>>,
    ts: Seq<Target>,
    tasks: Seq<Task>,
    config: Config,
    m0: Map<Seq<char>, Mark>,
    req: Seq<Seq<char>>,
    ord: Seq<int>,
    oss: Seq<Seq<Result<bool, Seq<char>>>>,
    runs: Seq<bool>,
    m1: Map<Seq<char>, Mark>,
    steps: Seq<StepView>,
    calls: Seq<Call>,
) -> bool {
    &&& crate::graph::run_order(kv, deps_of(ts), req, ord)
    &&& crate::graph::exact_order(kv, ts, req, ord)
    &&& oss.len() == ord.len()
    &&& runs.len() == ord.len()
    &&& m1 == apply_trace(kv, ts, tasks, config, m0, ord, oss, runs, ord.len()).marks
    &&& steps == apply_trace(kv, ts, tasks, config, m0, ord, oss, runs, ord.len()).steps
    &&& calls == apply_trace(kv, ts, tasks, config, m0, ord, oss, runs, ord.len()).calls
}

proof fn lemma_recheck_deps_ext(
    kv: Seq<Seq<char>>,
    ts: Seq<Target>,
    sn: Seq<Seq<char>>,
    si: int,
    os: Seq<Result<bool, Seq<char>>>,
    os2: Seq<Result<bool, Seq<char>>>,
    a: ApplyAcc,
    r: nat,
)
    requires
        os.len() <= os2.len(),
        forall|i: int| 0 <= i < os.len() ==> os2[i] == os[i],
        recheck_deps(kv, ts, sn, si, os, a, r).cur <= os.len(),
    ensures
        recheck_deps(kv, ts, sn, si, os2, a, r) == recheck_deps(kv, ts, sn, si, os, a, r),
        a.cur <= recheck_deps(kv, ts, sn, si, os, a, r).cur,
    decreases r,
{
    if r > 0 {
        lemma_recheck_deps_mono(kv, ts, sn, si, os, a, (r - 1) as nat);
        lemma_recheck_deps_ext(kv, ts, sn, si, os, os2, a, (r - 1) as nat);
    }
}

proof fn lemma_recheck_deps_mono(
    kv: Seq<Seq<char>>,
    ts: Seq<Target>,
    sn: Seq<Seq<char>>,
    si: int,
    os: Seq<Result<bool, Seq<char>>>,
    a: ApplyAcc,
    r: nat,
)
    ensures
        a.cur <= recheck_deps(kv, ts, sn, si, os, a, r).cur,
        r > 0 ==> recheck_deps(kv, ts, sn, si, os, a, (r - 1) as nat).cur <= recheck_deps(kv, ts, sn, si, os, a, r).cur,
    decreases r,
{
    if r > 0 {
        lemma_recheck_deps_mono(kv, ts, sn, si, os, a, (r - 1) as nat);
    }
}

proof fn lemma_recheck_sats_mono(
    kv: Seq<Seq<char>>,
    ts: Seq<Target>,
    sn: Seq<Seq<char>>,
    ok: bool,
    os: Seq<Result<bool, Seq<char>>>,
    a: ApplyAcc,
    q: nat,
)
    ensures
        a.cur <= recheck_sats(kv, ts, sn, ok, os, a, q).cur,
        q > 0 ==> recheck_sats(kv, ts, sn, ok, os, a, (q - 1) as nat).cur <= recheck_sats(kv, ts, sn, ok, os, a, q).cur,
    decreases q,
{
    if q > 0 {
        lemma_recheck_sats_mono(kv, ts, sn, ok, os, a, (q - 1) as nat);
        let b = recheck_sats(kv, ts, sn, ok, os, a, (q - 1) as nat);
        let name = sn[q - 1];
        if kv.contains(name) && ok {
            let si = kv.index_of(name);
            lemma_recheck_deps_mono(kv, ts, sn, si, os, b, ts[si].depends_on@.len());
        }
    }
}

proof fn lemma_recheck_sats_ext(
    kv: Seq<Seq<char>>,
    ts: Seq<Target>,
    sn: Seq<Seq<char>>,
    ok: bool,
    os: Seq<Result<bool, Seq<char>>>,
    os2: Seq<Result<bool, Seq<char>>>,
    a: ApplyAcc,
    q: nat,
)
    requires
        os.len() <= os2.len(),
        forall|i: int| 0 <= i < os.len() ==> os2[i] == os[i],
        recheck_sats(kv, ts, sn, ok, os, a, q).cur <= os.len(),
    ensures
        recheck_sats(kv, ts, sn, ok, os2, a, q) == recheck_sats(kv, ts, sn, ok, os, a, q),
    decreases q,
{
    if q > 0 {
        lemma_recheck_sats_mono(kv, ts, sn, ok, os, a, q);
        lemma_recheck_sats_ext(kv, ts, sn, ok, os, os2, a, (q - 1) as nat);
        let b = recheck_sats(kv, ts, sn, ok, os, a, (q - 1) as nat);
        let name = sn[q - 1];
        if kv.contains(name) && ok {
            let si = kv.index_of(name);
            let c = recheck_deps(kv, ts, sn, si, os, b, ts[si].depends_on@.len());
            lemma_recheck_deps_mono(kv, ts, sn, si, os, b, ts[si].depends_on@.len());
            lemma_recheck_deps_ext(kv, ts, sn, si, os, os2, b, ts[si].depends_on@.len());
        }
    }
}

proof fn lemma_apply_trace_push(
    kv: Seq<Seq<char>>,
    ts: Seq<Target>,
    tasks: Seq<Task>,
    config: Config,
    m0: Map<Seq<char>, Mark>,
    ord: Seq<int>,
    oss: Seq<Seq<Result<bool, Seq<char>>>>,
    runs: Seq<bool>,
    os: Seq<Result<bool, Seq<char>>>,
    ran: bool,
    k: nat,
)
    requires
        k <= oss.len(),
        k <= runs.len(),
    ensures
        apply_trace(kv, ts, tasks, config, m0, ord, oss.push(os), runs.push(ran), k) == apply_trace(kv, ts, tasks, config, m0, ord, oss, runs, k),
    decreases k,
{
    if k > 0 {
        lemma_apply_trace_push(kv, ts, tasks, config, m0, ord, oss, runs, os, ran, (k - 1) as nat);
        assert(oss.push(os)[k - 1] == oss[k - 1]);
        assert(runs.push(ran)[k - 1] == runs[k - 1]);
    }
}

pub open spec fn extends(os2: Seq<Result<bool, Seq<char>>>, os: Seq<Result<bool, Seq<char>>>) -> bool {
    os.len() <= os2.len() && forall|i: int| 0 <= i < os.len() ==> os2[i] == os[i]
}

/// The names of the stub targets among `ts`.
pub open spec fn stub_names(ts: Seq<Target>) -> Set<Seq<char>> {
    Set::new(|k: Seq<char>| exists|i: int| 0 <= i < ts.len() && (#[trigger] ts[i]).spec_is_stub() && ts[i].name@ == k)
}

/// Turns what a check function returned into a satisfaction and detail.
pub fn check_outcome_step(o: Result<bool, String>) -> (r: (Satisfaction, String))
    ensures
        gives(r, outcome_result(result_view(o))),
{
    match o {
        Ok(true) => (Satisfaction::Satisfied, String::new()),
        Ok(false) => (Satisfaction::Unsatisfied, String::new()),
        Err(e) => {
            let mut d = "check error: ".to_owned();
            d.append(e.as_str());
            (Satisfaction::Unsatisfied, d)
        },
    }
}

/// The position of the first name in `names` that is not a registered target.
fn first_unknown_in(keys: &Vec<String>, names: &Vec<String>) -> (r: Option<usize>)
    ensures
        match r {
            Some(k) => first_unknown(names_view(keys@), names_view(names@), k as int),
            None => all_known(names_view(keys@), names_view(names@)),
        },
{
    let ghost kv = names_view(keys@);
    let ghost nv = names_view(names@);
    let mut k: usize = 0;
    while k < names.len()
        invariant
            kv == names_view(keys@),
            nv == names_view(names@),
            k <= names@.len(),
            all_known(kv, nv.take(k as int)),
        decreases names@.len() - k,
    {
        match find_key(keys, names[k].as_str()) {
            None => {
                return Some(k);
            },
            Some(i) => {
                proof {
                    assert(kv[i as int] == nv[k as int]);
                    assert forall|q: int| 0 <= q < k + 1 implies kv.contains(#[trigger] nv.take(k + 1)[q]) by {
                        if q < k {
                            assert(nv.take(k as int)[q] == nv.take(k + 1)[q]);
                        } else {
                            assert(nv.take(k + 1)[q] == kv[i as int]);
                        }
                    }
                }
            },
        }
        k = k + 1;
    }
    proof {
        assert(nv.take(k as int) =~= nv);
    }
    None
}

/// A registry of targets and tasks, and the execution engine.
///
/// Use [`App::new`] for a clean slate.
pub struct App {
    target_keys: Vec<String>,
    targets: Vec<Target>,
    task_keys: Vec<String>,
    tasks: Vec<Task>,
    state: State,
    calls: Ghost<Seq<Call>>,
}

proof fn lemma_index_of(kv: Seq<Seq<char>>, i: int)
    requires
        kv.no_duplicates(),
        0 <= i < kv.len(),
    ensures
        kv.contains(kv[i]),
        kv.index_of(kv[i]) == i,
{
    assert(kv.contains(kv[i]));
    let c = kv.index_of(kv[i]);
    assert(kv[c] == kv[i]);
}

impl Default for App {
    fn default() -> (a: App)
        ensures
            a.wf(),
            a.tkeys().len() == 0,
            a.tvals().len() == 0,
            a.skeys().len() == 0,
            a.svals().len() == 0,
            a.st() == Map::<Seq<char>, TargetStateView>::empty(),
    {
        App::new()
    }
}

impl App {
    /// The names the targets were registered under.
    pub closed spec fn tkeys(&self) -> Seq<Seq<char>> {
        names_view(self.target_keys@)
    }

    /// The registered targets, in registration order.
    pub closed spec fn tvals(&self) -> Seq<Target> {
        self.targets@
    }

    /// The names the tasks were registered under.
    pub closed spec fn skeys(&self) -> Seq<Seq<char>> {
        names_view(self.task_keys@)
    }

    /// The registered tasks, in registration order.
    pub closed spec fn svals(&self) -> Seq<Task> {
        self.tasks@
    }

    /// The user closures that the last run (check, plan or apply) called, in
    /// order: check functions with their answers and task actions with
    /// whether they succeeded, by position in the registry.
    /// A check function is called only through `run_probe`, and a task
    /// action only through [`run_action`](Self::run_action); each records
    /// the call as it makes it.
    pub closed spec fn calls(&self) -> Seq<Call> {
        self.calls@
    }

    pub closed spec fn st(&self) -> Map<Seq<char>, TargetStateView> {
        self.state@
    }

    /// The registry's shape: names line up with entries, each name once.
    pub closed spec fn wf(&self) -> bool {
        &&& graph_ok(self.target_keys@, self.targets@)
        &&& self.task_keys@.len() == self.tasks@.len()
        &&& names_view(self.task_keys@).no_duplicates()
    }

    pub open spec fn spec_valid(&self) -> bool {
        valid_registry(self.tkeys(), self.tvals(), self.svals())
    }

    /// Create an empty app with no state file.
    ///
    /// Targets and tasks must be added manually. State is held in memory only
    /// (no persistence).
    pub fn new() -> (a: App)
        ensures
            a.wf(),
            a.tkeys().len() == 0,
            a.tvals().len() == 0,
            a.skeys().len() == 0,
            a.svals().len() == 0,
            a.st() == Map::<Seq<char>, TargetStateView>::empty(),
    {
        let a = App {
            target_keys: Vec::new(),
            targets: Vec::new(),
            task_keys: Vec::new(),
            tasks: Vec::new(),
            state: State::new(),
            calls: Ghost(Seq::empty()),
        };
        proof {
            assert(names_view(a.target_keys@) =~= Seq::<Seq<char>>::empty());
            assert(names_view(a.task_keys@) =~= Seq::<Seq<char>>::empty());
        }
        a
    }

    /// Register a target, or get a mutable reference to an existing one
    /// with the same name.
    pub fn target(&mut self, target: Target) -> (r: &mut Target)
        requires
            old(self).wf(),
        ensures
            final(self).wf(),
            final(self).skeys() == old(self).skeys(),
            final(self).svals() == old(self).svals(),
            final(self).st() == old(self).st(),
            old(self).tkeys().contains(target.name@) ==> {
                let i = old(self).tkeys().index_of(target.name@);
                &&& final(self).tkeys() == old(self).tkeys()
                &&& *r == old(self).tvals()[i]
                &&& final(self).tvals() == old(self).tvals().update(i, *final(r))
            },
            !old(self).tkeys().contains(target.name@) ==> {
                &&& final(self).tkeys() == old(self).tkeys().push(target.name@)
                &&& *r == target
                &&& final(self).tvals() == old(self).tvals().push(*final(r))
            },
    {
        let i = match find_key(&self.target_keys, target.name.as_str()) {
            Some(i) => {
                proof {
                    lemma_index_of(self.tkeys(), i as int);
                }
                i
            },
            None => {
                let ghost pre = self.target_keys@;
                let name = target.name.clone();
                self.target_keys.push(name);
                self.targets.push(target);
                proof {
                    assert(names_view(self.target_keys@) =~= names_view(pre).push(target.name@));
                    assert(names_view(self.target_keys@).no_duplicates()) by {
                        assert forall|a: int, b: int| 0 <= a < b < self.target_keys@.len() implies names_view(self.target_keys@)[a] != names_view(self.target_keys@)[b] by {
                            if b == pre.len() {
                                assert(names_view(pre)[a] == names_view(self.target_keys@)[a]);
                            } else {
                                assert(names_view(pre)[a] != names_view(pre)[b]);
                            }
                        }
                    }
                }
                self.targets.len() - 1
            },
        };
        &mut self.targets[i]
    }

    /// Register a task, or get a mutable reference to an existing one
    /// with the same name.
    pub fn task(&mut self, task: Task) -> (r: &mut Task)
        requires
            old(self).wf(),
        ensures
            final(self).wf(),
            final(self).tkeys() == old(self).tkeys(),
            final(self).tvals() == old(self).tvals(),
            final(self).st() == old(self).st(),
            old(self).skeys().contains(task.name@) ==> {
                let i = old(self).skeys().index_of(task.name@);
                &&& final(self).skeys() == old(self).skeys()
                &&& *r == old(self).svals()[i]
                &&& final(self).svals() == old(self).svals().update(i, *final(r))
            },
            !old(self).skeys().contains(task.name@) ==> {
                &&& final(self).skeys() == old(self).skeys().push(task.name@)
                &&& *r == task
                &&& final(self).svals() == old(self).svals().push(*final(r))
            },
    {
        let i = match find_key(&self.task_keys, task.name.as_str()) {
            Some(i) => {
                proof {
                    lemma_index_of(self.skeys(), i as int);
                }
                i
            },
            None => {
                let ghost pre = self.task_keys@;
                let name = task.name.clone();
                self.task_keys.push(name);
                self.tasks.push(task);
                proof {
                    assert(names_view(self.task_keys@) =~= names_view(pre).push(task.name@));
                    assert(names_view(self.task_keys@).no_duplicates()) by {
                        assert forall|a: int, b: int| 0 <= a < b < self.task_keys@.len() implies names_view(self.task_keys@)[a] != names_view(self.task_keys@)[b] by {
                            if b == pre.len() {
                                assert(names_view(pre)[a] == names_view(self.task_keys@)[a]);
                            } else {
                                assert(names_view(pre)[a] != names_view(pre)[b]);
                            }
                        }
                    }
                }
                self.tasks.len() - 1
            },
        };
        &mut self.tasks[i]
    }

    /// Records that the run judged target `x` to be `satisfied`, unless a
    /// manual override is in place for it.
    fn record_result(&mut self, x: usize, satisfied: bool)
        requires
            old(self).wf(),
            x < old(self).tkeys().len(),
        ensures
            final(self).wf(),
            final(self).tkeys() == old(self).tkeys(),
            final(self).tvals() == old(self).tvals(),
            final(self).skeys() == old(self).skeys(),
            final(self).svals() == old(self).svals(),
            marks(final(self).st()) == record(marks(old(self).st()), old(self).tkeys()[x as int], satisfied),
            final(self).calls() == old(self).calls(),
    {
        let ghost kv = self.tkeys();
        let manual = match self.state.get(self.target_keys[x].as_str()) {
            Some(e) => e.manually_set,
            None => false,
        };
        if !manual {
            let ghost pre_st = self.state@;
            self.state.set_check_result(self.target_keys[x].as_str(), satisfied);
            proof {
                let stamp = choose|stamp: nat|
                    self.state@ == pre_st.insert(
                        kv[x as int],
                        TargetStateView { satisfied: Some(satisfied), manually_set: false, checked_at: Some(decimal(stamp)) },
                    );
                lemma_marks_insert(
                    pre_st,
                    kv[x as int],
                    TargetStateView { satisfied: Some(satisfied), manually_set: false, checked_at: Some(decimal(stamp)) },
                );
            }
        }
    }

    /// Runs the action of task `j`; `true` exactly when the action returned
    /// `Ok`. The call is added to [`calls`](Self::calls) with that outcome.
    /// This is the only place a task's action is called.
    fn run_action(&mut self, j: usize) -> (ok: bool)
        requires
            old(self).wf(),
            j < old(self).svals().len(),
            old(self).svals()[j as int].run is Some,
        ensures
            final(self).wf(),
            final(self).tkeys() == old(self).tkeys(),
            final(self).tvals() == old(self).tvals(),
            final(self).skeys() == old(self).skeys(),
            final(self).svals() == old(self).svals(),
            final(self).st() == old(self).st(),
            final(self).calls() == old(self).calls().push(Call::Action(j as int, ok)),
    {
        match &self.tasks[j].run {
            Some(run) => {
                let outcome = run.perform();
                let ok = match outcome {
                    Ok(()) => true,
                    Err(_) => false,
                };
                self.calls = Ghost(self.calls@.push(Call::Action(j as int, outcome is Ok)));
                ok
            },
            None => true,
        }
    }

    /// Look up a target by name.
    pub fn get_target(&self, name: &str) -> (r: Option<&Target>)
        requires
            self.wf(),
        ensures
            match r {
                Some(t) => self.tkeys().contains(name@) && *t == self.tvals()[self.tkeys().index_of(name@)],
                None => !self.tkeys().contains(name@),
            },
    {
        match find_key(&self.target_keys, name) {
            Some(i) => {
                proof {
                    lemma_index_of(self.tkeys(), i as int);
                }
                Some(&self.targets[i])
            },
            None => None,
        }
    }

    /// Look up a task by name.
    pub fn get_task(&self, name: &str) -> (r: Option<&Task>)
        requires
            self.wf(),
        ensures
            match r {
                Some(t) => self.skeys().contains(name@) && *t == self.svals()[self.skeys().index_of(name@)],
                None => !self.skeys().contains(name@),
            },
    {
        match find_key(&self.task_keys, name) {
            Some(i) => {
                proof {
                    lemma_index_of(self.skeys(), i as int);
                }
                Some(&self.tasks[i])
            },
            None => None,
        }
    }

    /// All registered targets, in registration order.
    pub fn all_targets(&self) -> (r: &Vec<Target>)
        ensures
            r@ == self.tvals(),
    {
        &self.targets
    }

    /// All registered tasks, in registration order.
    pub fn all_tasks(&self) -> (r: &Vec<Task>)
        ensures
            r@ == self.svals(),
    {
        &self.tasks
    }

    /// Access the state.
    pub fn state(&self) -> (r: &State)
        ensures
            r@ == self.st(),
    {
        &self.state
    }

    /// Mutable access to the state.
    pub fn state_mut(&mut self) -> (r: &mut State)
        requires
            old(self).wf(),
        ensures
            final(self).wf(),
            final(self).tkeys() == old(self).tkeys(),
            final(self).tvals() == old(self).tvals(),
            final(self).skeys() == old(self).skeys(),
            final(self).svals() == old(self).svals(),
            r@ == old(self).st(),
            final(self).st() == final(r)@,
    {
        &mut self.state
    }

    /// Validate the target/task graph.
    ///
    /// Checks, and reports the first failure found in this order:
    /// - All dependency references resolve to known targets.
    /// - All task `satisfies`/`depends_on` references resolve to known targets.
    /// - No target is satisfied by more than one task.
    /// - The dependency graph contains no cycles.
    ///
    /// Must be called before [`run_check`](Self::run_check),
    /// [`run_apply`](Self::run_apply), or [`run_plan`](Self::run_plan).
    pub fn validate(&mut self) -> (r: Result<(), ValidationError>)
        requires
            old(self).wf(),
        ensures
            *final(self) == *old(self),
            r is Ok <==> old(self).spec_valid(),
            r matches Err(e) ==> validation_error_is(old(self).tkeys(), old(self).tvals(), old(self).svals(), e),
    {
        let ghost kv = self.tkeys();
        let ghost ts = self.tvals();
        let ghost tasks = self.svals();
        // 1. target references
        let mut i: usize = 0;
        while i < self.targets.len()
            invariant
                self.wf(),
                kv == self.tkeys(),
                ts == self.tvals(),
                tasks == self.svals(),
                *self == *old(self),
                i <= ts.len(),
                forall|i2: int| 0 <= i2 < i ==> target_refs_known(kv, #[trigger] ts[i2]),
            decreases ts.len() - i,
        {
            let t = &self.targets[i];
            match first_unknown_in(&self.target_keys, &t.depends_on) {
                Some(k) => {
                    let e = ValidationError::UnknownDependency { target: t.name.clone(), dep: t.depends_on[k].clone() };
                    proof {
                        assert(!target_refs_known(kv, ts[i as int]));
                        assert(first_unknown(kv, names_view(ts[i as int].depends_on@), k as int));
                    }
                    return Err(e);
                },
                None => {},
            }
            match first_unknown_in(&self.target_keys, &t.check_deps) {
                Some(k) => {
                    let e = ValidationError::UnknownCheckDependency { target: t.name.clone(), dep: t.check_deps[k].clone() };
                    proof {
                        assert(!target_refs_known(kv, ts[i as int]));
                        assert(first_unknown(kv, names_view(ts[i as int].check_deps@), k as int));
                    }
                    return Err(e);
                },
                None => {},
            }
            i = i + 1;
        }
        // 2. task references
        let mut j: usize = 0;
        while j < self.tasks.len()
            invariant
                self.wf(),
                kv == self.tkeys(),
                ts == self.tvals(),
                tasks == self.svals(),
                *self == *old(self),
                j <= tasks.len(),
                forall|i2: int| 0 <= i2 < ts.len() ==> target_refs_known(kv, #[trigger] ts[i2]),
                forall|j2: int| 0 <= j2 < j ==> task_refs_known(kv, #[trigger] tasks[j2]),
            decreases tasks.len() - j,
        {
            let t = &self.tasks[j];
            match first_unknown_in(&self.target_keys, &t.satisfies) {
                Some(k) => {
                    let e = ValidationError::TaskSatisfiesUnknown { task: t.name.clone(), target: t.satisfies[k].clone() };
                    proof {
                        assert(!task_refs_known(kv, tasks[j as int]));
                        assert(first_unknown(kv, names_view(tasks[j as int].satisfies@), k as int));
                    }
                    return Err(e);
                },
                None => {},
            }
            match first_unknown_in(&self.target_keys, &t.depends_on) {
                Some(k) => {
                    let e = ValidationError::TaskDependsOnUnknown { task: t.name.clone(), target: t.depends_on[k].clone() };
                    proof {
                        assert(!task_refs_known(kv, tasks[j as int]));
                        assert(first_unknown(kv, names_view(tasks[j as int].depends_on@), k as int));
                    }
                    return Err(e);
                },
                None => {},
            }
            j = j + 1;
        }
        // 3. one task per target
        let mut j: usize = 0;
        while j < self.tasks.len()
            invariant
                self.wf(),
                kv == self.tkeys(),
                ts == self.tvals(),
                tasks == self.svals(),
                *self == *old(self),
                j <= tasks.len(),
                forall|i2: int| 0 <= i2 < ts.len() ==> target_refs_known(kv, #[trigger] ts[i2]),
                forall|j2: int| 0 <= j2 < tasks.len() ==> task_refs_known(kv, #[trigger] tasks[j2]),
                forall|j2: int, k2: int| sat_before(j2, k2, j as int, 0) ==> !#[trigger] repeats(tasks, j2, k2),
            decreases tasks.len() - j,
        {
            let mut k: usize = 0;
            while k < self.tasks[j].satisfies.len()
                invariant
                    self.wf(),
                    kv == self.tkeys(),
                    ts == self.tvals(),
                    tasks == self.svals(),
                    *self == *old(self),
                    forall|i2: int| 0 <= i2 < ts.len() ==> target_refs_known(kv, #[trigger] ts[i2]),
                    forall|j2: int| 0 <= j2 < tasks.len() ==> task_refs_known(kv, #[trigger] tasks[j2]),
                    j < tasks.len(),
                    k <= tasks[j as int].satisfies@.len(),
                    forall|j2: int, k2: int| sat_before(j2, k2, j as int, k as int) ==> !#[trigger] repeats(tasks, j2, k2),
                decreases tasks[j as int].satisfies@.len() - k,
            {
                match earlier_claim(&self.tasks, j, k) {
                    Some((j1, k1)) => {
                        let e = ValidationError::MultipleTasks {
                            target: self.tasks[j].satisfies[k].clone(),
                            first: self.tasks[j1].name.clone(),
                            second: self.tasks[j].name.clone(),
                        };
                        proof {
                            assert(first_repeat(tasks, j as int, k as int));
                            assert(!unique_satisfiers(tasks));
                            assert(claimed_first_by(tasks, j1 as int, k1 as int, j as int, k as int));
                            assert(e matches ValidationError::MultipleTasks { target, first, second } && target@ == sat_name(tasks, j as int, k as int) && first@ == tasks[j1 as int].name@ && second@ == tasks[j as int].name@);
                            assert(validation_error_is(kv, ts, tasks, e));
                        }
                        return Err(e);
                    },
                    None => {
                        proof {
                            assert forall|j2: int, k2: int| sat_before(j2, k2, j as int, k + 1) implies !#[trigger] repeats(tasks, j2, k2) by {
                                if !(j2 == j && k2 == k) {
                                    assert(sat_before(j2, k2, j as int, k as int));
                                }
                            }
                        }
                    },
                }
                k = k + 1;
            }
            proof {
                assert forall|j2: int, k2: int| sat_before(j2, k2, j + 1, 0) implies !#[trigger] repeats(tasks, j2, k2) by {
                    if j2 == j && k2 >= k {
                        assert(!sat_pos(tasks, j2, k2));
                    } else if j2 < j || (j2 == j && k2 < k) {
                        assert(sat_before(j2, k2, j as int, k as int));
                    }
                }
            }
            j = j + 1;
        }
        proof {
            assert forall|j2: int, k2: int| !#[trigger] repeats(tasks, j2, k2) by {
                if j2 < tasks.len() {
                    assert(sat_before(j2, k2, tasks.len() as int, 0));
                }
            }
        }
        // 4. no cycles
        match detect_cycles(&self.target_keys, &self.targets) {
            Ok(()) => Ok(()),
            Err(c) => {
                let mut path: Vec<String> = Vec::new();
                proof {
                    assert forall|p: int| 0 <= p < c@.len() implies #[trigger] c@[p] < kv.len() by {
                        if p + 1 < c@.len() {
                            assert(edge(kv, deps_of(ts), path_ints(c@)[p], path_ints(c@)[p + 1]));
                        } else {
                            assert(edge(kv, deps_of(ts), path_ints(c@).last(), path_ints(c@)[0]));
                        }
                    }
                }
                let mut q: usize = 0;
                while q < c.len()
                    invariant
                        self.wf(),
                        kv == self.tkeys(),
                        is_cycle(kv, deps_of(ts), path_ints(c@)),
                        ts == self.tvals(),
                        forall|p: int| 0 <= p < c@.len() ==> #[trigger] c@[p] < kv.len(),
                        q <= c@.len(),
                        path@.len() == q,
                        forall|p: int| 0 <= p < q ==> #[trigger] path@[p]@ == kv[c@[p] as int],
                    decreases c@.len() - q,
                {
                    proof {
                        if q + 1 < c@.len() {
                            assert(edge(kv, deps_of(ts), path_ints(c@)[q as int], path_ints(c@)[q + 1]));
                        } else {
                            assert(edge(kv, deps_of(ts), path_ints(c@).last(), path_ints(c@)[0]));
                        }
                    }
                    path.push(self.target_keys[c[q]].clone());
                    q = q + 1;
                }
                proof {
                    crate::graph::lemma_cycle_not_acyclic(kv, deps_of(ts), path_ints(c@));
                    assert(names_view(path@) =~= path_ints(c@).map_values(|x: int| kv[x]));
                }
                Err(ValidationError::Cycle { path })
            },
        }
    }

    /// The satisfaction found so far for the target named `name`.
    fn lookup_sat(&self, sat: &Vec<Option<Satisfaction>>, name: &str) -> (r: Option<Satisfaction>)
        requires
            self.wf(),
            sat@.len() == self.tkeys().len(),
        ensures
            r == sat_of(self.tkeys(), sat@, name@),
    {
        match find_key(&self.target_keys, name) {
            Some(i) => {
                proof {
                    lemma_index_of(self.tkeys(), i as int);
                }
                sat[i]
            },
            None => None,
        }
    }

    fn any_flagged(&self, names: &Vec<String>, flags: &Vec<bool>) -> (r: bool)
        requires
            self.wf(),
            flags@.len() == self.tkeys().len(),
        ensures
            r == any_blocked(self.tkeys(), flags@, names_view(names@)),
    {
        let ghost kv = self.tkeys();
        let ghost ns = names_view(names@);
        let mut k: usize = 0;
        while k < names.len()
            invariant
                self.wf(),
                kv == self.tkeys(),
                ns == names_view(names@),
                flags@.len() == kv.len(),
                k <= names@.len(),
                forall|q: int| 0 <= q < k ==> !(kv.contains(ns[q]) && #[trigger] flags@[kv.index_of(ns[q])]),
            decreases names@.len() - k,
        {
            match find_key(&self.target_keys, names[k].as_str()) {
                Some(i) => {
                    proof {
                        lemma_index_of(kv, i as int);
                        assert(ns[k as int] == names@[k as int]@);
                    }
                    if flags[i] {
                        return true;
                    }
                },
                None => {
                    proof {
                        assert(ns[k as int] == names@[k as int]@);
                    }
                },
            }
            k = k + 1;
        }
        proof {
            if any_blocked(kv, flags@, ns) {
                let q = choose|q: int| 0 <= q < ns.len() && kv.contains(ns[q]) && #[trigger] flags@[kv.index_of(ns[q])];
                assert(!(kv.contains(ns[q]) && flags@[kv.index_of(ns[q])]));
            }
        }
        false
    }

    fn all_satisfied(&self, names: &Vec<String>, sat: &Vec<Option<Satisfaction>>) -> (r: bool)
        requires
            self.wf(),
            sat@.len() == self.tkeys().len(),
        ensures
            r == all_sat(self.tkeys(), sat@, names_view(names@)),
    {
        let mut k: usize = 0;
        while k < names.len()
            invariant
                self.wf(),
                sat@.len() == self.tkeys().len(),
                k <= names@.len(),
                forall|q: int| 0 <= q < k ==> sat_of(self.tkeys(), sat@, #[trigger] names_view(names@)[q]) == Some(Satisfaction::Satisfied),
            decreases names@.len() - k,
        {
            if self.lookup_sat(sat, names[k].as_str()) != Some(Satisfaction::Satisfied) {
                proof {
                    assert(names_view(names@)[k as int] == names@[k as int]@);
                }
                return false;
            }
            k = k + 1;
        }
        true
    }

    fn all_satisfied_or_would(&self, names: &Vec<String>, sat: &Vec<Option<Satisfaction>>, would: &Vec<bool>) -> (r: bool)
        requires
            self.wf(),
            sat@.len() == self.tkeys().len(),
            would@.len() == self.tkeys().len(),
        ensures
            r == all_sat_or_would(self.tkeys(), sat@, would@, names_view(names@)),
    {
        let ghost kv = self.tkeys();
        let mut k: usize = 0;
        while k < names.len()
            invariant
                self.wf(),
                kv == self.tkeys(),
                sat@.len() == kv.len(),
                would@.len() == kv.len(),
                k <= names@.len(),
                forall|q: int|
                    0 <= q < k ==> sat_of(kv, sat@, #[trigger] names_view(names@)[q]) == Some(Satisfaction::Satisfied) || (kv.contains(names_view(names@)[q])
                        && would@[kv.index_of(names_view(names@)[q])]),
            decreases names@.len() - k,
        {
            let ok = match find_key(&self.target_keys, names[k].as_str()) {
                Some(i) => {
                    proof {
                        lemma_index_of(kv, i as int);
                    }
                    sat[i] == Some(Satisfaction::Satisfied) || would[i]
                },
                None => false,
            };
            if !ok {
                proof {
                    assert(names_view(names@)[k as int] == names@[k as int]@);
                }
                return false;
            }
            proof {
                assert(names_view(names@)[k as int] == names@[k as int]@);
            }
            k = k + 1;
        }
        true
    }

    /// Judges target `t` for a check or apply run (see [`eval_spec`]); the
    /// check function runs only when [`eval_runs_check`] says so.
    fn eval_target(
        &self,
        t: &Target,
        sat: &Vec<Option<Satisfaction>>,
        Ghost(who): Ghost<int>,
        calls: &mut Ghost<Seq<Call>>,
    ) -> (r: (Satisfaction, String))
        requires
            self.wf(),
            sat@.len() == self.tkeys().len(),
        ensures
            exists|o: Result<bool, Seq<char>>|
                gives(r, #[trigger] eval_spec(self.tkeys(), sat@, *t, mark_of(marks(self.st()), t.name@), o))
                    && final(calls)@ == with_check(
                    old(calls)@,
                    eval_runs_check(self.tkeys(), sat@, *t, mark_of(marks(self.st()), t.name@)),
                    who,
                    o,
                ),
    {
        let ghost entry = mark_of(marks(self.st()), t.name@);
        let found = self.state.get(t.name.as_str());
        let (manual, remembered) = match found {
            Some(ts) => (ts.manually_set, ts.satisfied),
            None => (false, None),
        };
        proof {
            match found {
                Some(ts) => {
                    assert(entry == Some((ts@.satisfied, ts@.manually_set)));
                },
                None => {
                    assert(entry is None);
                },
            }
        }
        let ghost any: Result<bool, Seq<char>> = Ok(true);
        if manual {
            let r = match remembered {
                Some(true) => (Satisfaction::Satisfied, "(manually set)".to_owned()),
                _ => (Satisfaction::Unsatisfied, "(manually unset)".to_owned()),
            };
            proof {
                assert(gives(r, eval_spec(self.tkeys(), sat@, *t, entry, any)));
            }
            return r;
        }
        match &t.check {
            Some(c) => {
                if !self.all_satisfied(&t.check_deps, sat) {
                    let r = (Satisfaction::Unsatisfied, "(check dep not satisfied)".to_owned());
                    proof {
                        assert(gives(r, eval_spec(self.tkeys(), sat@, *t, entry, any)));
                    }
                    return r;
                }
                if remembered == Some(true) {
                    let r = (Satisfaction::Satisfied, "(cached)".to_owned());
                    proof {
                        assert(gives(r, eval_spec(self.tkeys(), sat@, *t, entry, any)));
                    }
                    return r;
                }
                let o = run_probe(c, Ghost(who), calls);
                let r = check_outcome_step(o);
                proof {
                    assert(gives(r, eval_spec(self.tkeys(), sat@, *t, entry, result_view(o))));
                }
                r
            },
            None => {
                let r = if t.depends_on.len() == 0 {
                    (Satisfaction::Unsatisfied, "(no check, no deps)".to_owned())
                } else if self.all_satisfied(&t.depends_on, sat) {
                    (Satisfaction::Satisfied, "(aggregate)".to_owned())
                } else {
                    (Satisfaction::Unsatisfied, "(aggregate, deps unsatisfied)".to_owned())
                };
                proof {
                    assert(gives(r, eval_spec(self.tkeys(), sat@, *t, entry, any)));
                }
                r
            },
        }
    }

    /// Judges target `t` for a plan (see [`eval_plan_spec`]): a manual
    /// override in the state wins; the check function runs only when
    /// [`plan_runs_check`] says so.
    fn eval_target_plan(
        &self,
        t: &Target,
        sat: &Vec<Option<Satisfaction>>,
        would: &Vec<bool>,
        Ghost(who): Ghost<int>,
        calls: &mut Ghost<Seq<Call>>,
    ) -> (r: (Satisfaction, String))
        requires
            self.wf(),
            sat@.len() == self.tkeys().len(),
            would@.len() == self.tkeys().len(),
        ensures
            exists|o: Result<bool, Seq<char>>|
                gives(r, #[trigger] eval_plan_spec(self.tkeys(), sat@, would@, *t, mark_of(marks(self.st()), t.name@), o))
                    && final(calls)@ == with_check(
                    old(calls)@,
                    plan_runs_check(self.tkeys(), sat@, would@, *t, mark_of(marks(self.st()), t.name@)),
                    who,
                    o,
                ),
    {
        let ghost entry = mark_of(marks(self.st()), t.name@);
        let found = self.state.get(t.name.as_str());
        let (manual, remembered) = match found {
            Some(ts) => (ts.manually_set, ts.satisfied),
            None => (false, None),
        };
        proof {
            match found {
                Some(ts) => {
                    assert(entry == Some((ts@.satisfied, ts@.manually_set)));
                },
                None => {
                    assert(entry is None);
                },
            }
        }
        let ghost any: Result<bool, Seq<char>> = Ok(true);
        if manual {
            let r = match remembered {
                Some(true) => (Satisfaction::Satisfied, "(manually set)".to_owned()),
                _ => (Satisfaction::Unsatisfied, "(manually unset)".to_owned()),
            };
            proof {
                assert(gives(r, eval_plan_spec(self.tkeys(), sat@, would@, *t, entry, any)));
            }
            return r;
        }
        match &t.check {
            Some(c) => {
                if !self.all_satisfied_or_would(&t.check_deps, sat, would) {
                    let r = (Satisfaction::Unsatisfied, "(check dep not satisfied)".to_owned());
                    proof {
                        assert(gives(r, eval_plan_spec(self.tkeys(), sat@, would@, *t, entry, any)));
                    }
                    return r;
                }
                let o = run_probe(c, Ghost(who), calls);
                let r = check_outcome_step(o);
                proof {
                    assert(gives(r, eval_plan_spec(self.tkeys(), sat@, would@, *t, entry, result_view(o))));
                }
                r
            },
            None => {
                let r = if t.depends_on.len() == 0 {
                    (Satisfaction::Unsatisfied, "(no check, no deps)".to_owned())
                } else if self.all_satisfied_or_would(&t.depends_on, sat, would) {
                    (Satisfaction::Satisfied, "(aggregate)".to_owned())
                } else {
                    (Satisfaction::Unsatisfied, "(aggregate, deps unsatisfied)".to_owned())
                };
                proof {
                    assert(gives(r, eval_plan_spec(self.tkeys(), sat@, would@, *t, entry, any)));
                }
                r
            },
        }
    }

    /// The step reporting target `i` (by its registered name).
    fn mk_step(&self, i: usize, sat: Satisfaction, detail: String) -> (s: Step)
        requires
            self.wf(),
            i < self.tkeys().len(),
        ensures
            step_view(s) == (self.tkeys()[i as int], opt_string_view(self.tvals()[i as int].description), sat, detail@),
    {
        let description = match &self.targets[i].description {
            Some(d) => Some(d.clone()),
            None => None,
        };
        Step { name: self.target_keys[i].clone(), description, sat, detail }
    }

    /// Check target satisfaction.
    ///
    /// Judges each relevant target (see [`eval_spec`]) in dependency order,
    /// records each result in the state (a manual override stays as it is),
    /// and returns one step per target. A leaf last found satisfied is taken from memory
    /// ("(cached)") while its check dependencies are satisfied.
    ///
    /// If `names` is empty, all registered targets are checked.
    /// Otherwise only the named targets (and their transitive dependencies)
    /// are included.
    ///
    /// [`calls`](Self::calls) then lists, in order, the check functions the
    /// run called (see [`check_trace`]).
    pub fn run_check(&mut self, _config: &Config, names: &[String]) -> (steps: Vec<Step>)
        requires
            old(self).wf(),
            forall|k: int| 0 <= k < names@.len() ==> old(self).tkeys().contains(#[trigger] names@[k]@),
        ensures
            final(self).wf(),
            final(self).tkeys() == old(self).tkeys(),
            final(self).tvals() == old(self).tvals(),
            final(self).skeys() == old(self).skeys(),
            final(self).svals() == old(self).svals(),
            exists|ord: Seq<int>, outs: Seq<Result<bool, Seq<char>>>|
                #[trigger] check_run_is(
                    old(self).tkeys(),
                    old(self).tvals(),
                    marks(old(self).st()),
                    names_view(names@),
                    ord,
                    outs,
                    marks(final(self).st()),
                    steps_view(steps@),
                    final(self).calls(),
                ),
    {
        self.calls = Ghost(Seq::empty());
        assert(self.st() == old(self).st());
        let ghost kv = self.tkeys();
        let ghost ts = self.tvals();
        let ghost m0 = marks(self.st());
        let n = self.target_keys.len();
        let order = topo_order(&self.target_keys, &self.targets, names);
        let ghost ord = path_ints(order@);
        proof {
            crate::graph::lemma_run_order(kv, deps_of(ts), names_view(names@), order@);
        }
        let mut sat: Vec<Option<Satisfaction>> = Vec::new();
        let mut i: usize = 0;
        while i < n
            invariant
                i <= n,
                sat@.len() == i,
                forall|q: int| 0 <= q < i ==> sat@[q] is None,
            decreases n - i,
        {
            sat.push(None);
            i = i + 1;
        }
        let mut steps: Vec<Step> = Vec::new();
        let ghost mut outs: Seq<Result<bool, Seq<char>>> = Seq::empty();
        proof {
            assert(sat@ =~= Seq::new(kv.len(), |i: int| None::<Satisfaction>));
            assert(steps_view(steps@) =~= Seq::<StepView>::empty());
        }
        let mut p: usize = 0;
        while p < order.len()
            invariant
                self.wf(),
                kv == self.tkeys(),
                ts == self.tvals(),
                self.skeys() == old(self).skeys(),
                self.svals() == old(self).svals(),
                kv == old(self).tkeys(),
                ts == old(self).tvals(),
                n == kv.len(),
                ord == path_ints(order@),
                forall|q: int| 0 <= q < order@.len() ==> #[trigger] order@[q] < n,
                p <= order@.len(),
                outs.len() == p,
                sat@.len() == n,
                marks(self.st()) == check_trace(kv, ts, m0, ord, outs, p as nat).marks,
                sat@ == check_trace(kv, ts, m0, ord, outs, p as nat).sat,
                steps_view(steps@) == check_trace(kv, ts, m0, ord, outs, p as nat).steps,
                self.calls() == check_trace(kv, ts, m0, ord, outs, p as nat).calls,
            decreases order@.len() - p,
        {
            let x = order[p];
            let ghost pre_marks = marks(self.st());
            let ghost pre_log = self.calls@;
            let mut log = self.calls;
            let r = self.eval_target(&self.targets[x], &sat, Ghost(x as int), &mut log);
            self.calls = log;
            let ghost o = choose|o: Result<bool, Seq<char>>|
                gives(r, #[trigger] eval_spec(kv, sat@, ts[x as int], mark_of(pre_marks, ts[x as int].name@), o))
                    && self.calls@ == with_check(
                    pre_log,
                    eval_runs_check(kv, sat@, ts[x as int], mark_of(pre_marks, ts[x as int].name@)),
                    x as int,
                    o,
                );
            let (s, d) = r;
            let ghost dv = d@;
            let satisfied = s == Satisfaction::Satisfied;
            self.record_result(x, satisfied);
            let step = self.mk_step(x, s, d);
            steps.push(step);
            sat.set(x, Some(s));
            proof {
                lemma_check_trace_push(kv, ts, m0, ord, outs, o, p as nat);
                outs = outs.push(o);
                assert(ord[p as int] == x as int);
                assert(outs[p as int] == o);
                let t_new = check_trace(kv, ts, m0, ord, outs, (p + 1) as nat);
                assert(steps_view(steps@) =~= t_new.steps);
                assert(sat@ =~= t_new.sat);
            }
            p = p + 1;
        }
        proof {
            assert(check_run_is(kv, ts, m0, names_view(names@), ord, outs, marks(self.st()), steps_view(steps@), self.calls()));
        }
        steps
    }

    /// The first task whose `satisfies` list names `name`.
    fn find_task_for(&self, name: &str) -> (r: Option<usize>)
        requires
            self.wf(),
        ensures
            match r {
                Some(j) => first_task_for(self.svals(), name@, j as int) && task_for(self.svals(), name@) == Some(j as int),
                None => task_for(self.svals(), name@) is None,
            },
    {
        let ghost tasks = self.svals();
        let mut j: usize = 0;
        while j < self.tasks.len()
            invariant
                tasks == self.svals(),
                j <= tasks.len(),
                forall|j2: int| 0 <= j2 < j ==> !names_view(#[trigger] tasks[j2].satisfies@).contains(name@),
            decreases tasks.len() - j,
        {
            if contains_name(&self.tasks[j].satisfies, name) {
                proof {
                    assert(first_task_for(tasks, name@, j as int));
                    let c = choose|c: int| #[trigger] first_task_for(tasks, name@, c);
                    if c < j {
                    } else if c > j {
                        assert(!names_view(tasks[j as int].satisfies@).contains(name@));
                    }
                }
                return Some(j);
            }
            j = j + 1;
        }
        None
    }

    /// Sets each flag of a target named in `names`.
    fn raise_flags(&self, flags: &mut Vec<bool>, names: &Vec<String>)
        requires
            self.wf(),
            old(flags)@.len() == self.tkeys().len(),
        ensures
            final(flags)@ == raise(self.tkeys(), old(flags)@, names_view(names@)),
    {
        let ghost kv = self.tkeys();
        let ghost f0 = flags@;
        let mut q: usize = 0;
        while q < names.len()
            invariant
                self.wf(),
                kv == self.tkeys(),
                f0.len() == kv.len(),
                q <= names@.len(),
                flags@ == raise(kv, f0, names_view(names@).take(q as int)),
            decreases names@.len() - q,
        {
            match find_key(&self.target_keys, names[q].as_str()) {
                Some(i) => {
                    let ghost before = flags@;
                    flags.set(i, true);
                    proof {
                        assert(kv[i as int] == names_view(names@)[q as int]);
                        assert(names_view(names@).take(q + 1)[q as int] == kv[i as int]);
                        assert forall|k: int| 0 <= k < kv.len() implies #[trigger] flags@[k] == raise(kv, f0, names_view(names@).take(q + 1))[k] by {
                            let a = names_view(names@).take(q as int);
                            let b = names_view(names@).take(q + 1);
                            assert(b == a.push(names_view(names@)[q as int]));
                            if a.contains(kv[k]) {
                                let w = choose|w: int| 0 <= w < a.len() && a[w] == kv[k];
                                assert(b[w] == kv[k]);
                            }
                            if b.contains(kv[k]) && !a.contains(kv[k]) {
                                let w = choose|w: int| 0 <= w < b.len() && b[w] == kv[k];
                                if w < q {
                                    assert(a[w] == kv[k]);
                                }
                                assert(kv[k] == kv[i as int]);
                                assert(k == i);
                            }
                            if k != i {
                                assert(flags@[k] == before[k]);
                            }
                        }
                        assert(flags@ =~= raise(kv, f0, names_view(names@).take(q + 1)));
                    }
                },
                None => {
                    proof {
                        assert forall|k: int| 0 <= k < kv.len() implies #[trigger] flags@[k] == raise(kv, f0, names_view(names@).take(q + 1))[k] by {
                            let a = names_view(names@).take(q as int);
                            let b = names_view(names@).take(q + 1);
                            assert(b == a.push(names_view(names@)[q as int]));
                            if a.contains(kv[k]) {
                                let w = choose|w: int| 0 <= w < a.len() && a[w] == kv[k];
                                assert(b[w] == kv[k]);
                            }
                            if b.contains(kv[k]) && !a.contains(kv[k]) {
                                let w = choose|w: int| 0 <= w < b.len() && b[w] == kv[k];
                                if w < q {
                                    assert(a[w] == kv[k]);
                                }
                                assert(kv.contains(names_view(names@)[q as int]));
                            }
                        }
                        assert(flags@ =~= raise(kv, f0, names_view(names@).take(q + 1)));
                    }
                },
            }
            q = q + 1;
        }
        proof {
            assert(names_view(names@).take(names@.len() as int) =~= names_view(names@));
        }
    }

    /// One target of a plan (see [`plan_step`]).
    fn plan_at(
        &self,
        config: &Config,
        x: usize,
        sat: &mut Vec<Option<Satisfaction>>,
        would: &mut Vec<bool>,
        blocked: &mut Vec<bool>,
        steps: &mut Vec<Step>,
        calls: &mut Ghost<Seq<Call>>,
    ) -> (o: Ghost<Result<bool, Seq<char>>>)
        requires
            self.wf(),
            self.spec_valid(),
            x < self.tkeys().len(),
            old(sat)@.len() == self.tkeys().len(),
            old(would)@.len() == self.tkeys().len(),
            old(blocked)@.len() == self.tkeys().len(),
        ensures
            (PlanAcc {
                sat: final(sat)@,
                would: final(would)@,
                blocked: final(blocked)@,
                steps: steps_view(final(steps)@),
                calls: final(calls)@,
            }) == plan_step(
                self.tkeys(),
                self.tvals(),
                self.svals(),
                *config,
                marks(self.st()),
                PlanAcc {
                    sat: old(sat)@,
                    would: old(would)@,
                    blocked: old(blocked)@,
                    steps: steps_view(old(steps)@),
                    calls: old(calls)@,
                },
                x as int,
                o@,
            ),
    {
        let ghost kv = self.tkeys();
        let ghost ts = self.tvals();
        let ghost tasks = self.svals();
        let ghost a = PlanAcc { sat: sat@, would: would@, blocked: blocked@, steps: steps_view(steps@), calls: calls@ };
        let ghost any: Result<bool, Seq<char>> = Ok(true);
        if blocked[x] || self.any_flagged(&self.targets[x].depends_on, blocked) || self.any_flagged(
            &self.targets[x].check_deps,
            blocked,
        ) {
            steps.push(self.mk_step(x, Satisfaction::Unsatisfied, "(would be skipped, upstream failure)".to_owned()));
            blocked.set(x, true);
            proof {
                assert(steps_view(steps@) =~= a.steps.push(step_of(kv, ts, x as int, Satisfaction::Unsatisfied, "(would be skipped, upstream failure)"@)));
            }
            return Ghost(any);
        }
        if would[x] {
            sat.set(x, Some(Satisfaction::Satisfied));
            steps.push(self.mk_step(x, Satisfaction::Satisfied, "(would be satisfied by task)".to_owned()));
            proof {
                assert(steps_view(steps@) =~= a.steps.push(step_of(kv, ts, x as int, Satisfaction::Satisfied, "(would be satisfied by task)"@)));
            }
            return Ghost(any);
        }
        let t = &self.targets[x];
        let r = self.eval_target_plan(t, sat, would, Ghost(x as int), calls);
        let ghost entry = mark_of(marks(self.st()), ts[x as int].name@);
        let ghost o = choose|o: Result<bool, Seq<char>>|
            gives(r, #[trigger] eval_plan_spec(kv, a.sat, a.would, ts[x as int], entry, o)) && calls@ == with_check(
                a.calls,
                plan_runs_check(kv, a.sat, a.would, ts[x as int], entry),
                x as int,
                o,
            );
        let (s, d) = r;
        if s == Satisfaction::Satisfied {
            sat.set(x, Some(Satisfaction::Satisfied));
            let ghost dv = d@;
            steps.push(self.mk_step(x, Satisfaction::Satisfied, d));
            proof {
                assert(steps_view(steps@) =~= a.steps.push(step_of(kv, ts, x as int, Satisfaction::Satisfied, dv)));
            }
            return Ghost(o);
        }
        if t.check.is_some() || t.is_stub() {
            sat.set(x, Some(Satisfaction::Unsatisfied));
            let ghost dv = d@;
            steps.push(self.mk_step(x, Satisfaction::Unsatisfied, d));
            proof {
                assert(steps_view(steps@) =~= a.steps.push(step_of(kv, ts, x as int, Satisfaction::Unsatisfied, dv)));
            }
            return Ghost(o);
        }
        match self.find_task_for(self.target_keys[x].as_str()) {
            None => {
                sat.set(x, Some(Satisfaction::Unsatisfied));
                let ghost dv = d@;
                steps.push(self.mk_step(x, Satisfaction::Unsatisfied, d));
                proof {
                    assert(steps_view(steps@) =~= a.steps.push(step_of(kv, ts, x as int, Satisfaction::Unsatisfied, dv)));
                }
                Ghost(o)
            },
            Some(j) => {
                let task = &self.tasks[j];
                let ghost sn = names_view(task.satisfies@);
                if is_task_disabled(task, config) {
                    sat.set(x, Some(Satisfaction::Unsatisfied));
                    steps.push(self.mk_step(x, Satisfaction::Unsatisfied, "(task disabled by label filter)".to_owned()));
                    proof {
                        assert(steps_view(steps@) =~= a.steps.push(step_of(kv, ts, x as int, Satisfaction::Unsatisfied, "(task disabled by label filter)"@)));
                    }
                    Ghost(o)
                } else if !self.all_satisfied_or_would(&task.depends_on, sat, would) {
                    sat.set(x, Some(Satisfaction::Unsatisfied));
                    steps.push(self.mk_step(x, Satisfaction::Unsatisfied, "(task deps not satisfied)".to_owned()));
                    self.raise_flags(blocked, &task.satisfies);
                    proof {
                        assert(steps_view(steps@) =~= a.steps.push(step_of(kv, ts, x as int, Satisfaction::Unsatisfied, "(task deps not satisfied)"@)));
                    }
                    Ghost(o)
                } else {
                    proof {
                        assert(task_refs_known(kv, tasks[j as int]));
                    }
                    let ghost s0 = sat@;
                    let ghost w0 = would@;
                    let ghost st0 = steps_view(steps@);
                    let ghost f = |nm: Seq<char>| step_of(kv, ts, kv.index_of(nm), Satisfaction::Satisfied, "(would be satisfied by task)"@);
                    let mut q: usize = 0;
                    while q < task.satisfies.len()
                        invariant
                            self.wf(),
                            kv == self.tkeys(),
                            ts == self.tvals(),
                            tasks == self.svals(),
                            j < tasks.len(),
                            *task == tasks[j as int],
                            sn == names_view(task.satisfies@),
                            sat@.len() == kv.len(),
                            would@.len() == kv.len(),
                            all_known(kv, sn),
                            s0.len() == kv.len(),
                            w0.len() == kv.len(),
                            f == (|nm: Seq<char>| step_of(kv, ts, kv.index_of(nm), Satisfaction::Satisfied, "(would be satisfied by task)"@)),
                            q <= sn.len(),
                            sat@ == satisfy_all(kv, s0, sn.take(q as int)),
                            would@ == raise(kv, w0, sn.take(q as int)),
                            steps_view(steps@) == st0 + sn.take(q as int).map_values(f),
                        decreases sn.len() - q,
                    {
                        let i = match find_key(&self.target_keys, task.satisfies[q].as_str()) {
                            Some(i) => i,
                            None => {
                                proof {
                                    assert(kv.contains(sn[q as int]));
                                }
                                0
                            },
                        };
                        proof {
                            lemma_index_of(kv, i as int);
                            assert(kv[i as int] == sn[q as int]);
                        }
                        let ghost sb = sat@;
                        let ghost wb = would@;
                        would.set(i, true);
                        sat.set(i, Some(Satisfaction::Satisfied));
                        steps.push(self.mk_step(i, Satisfaction::Satisfied, "(would be satisfied by task)".to_owned()));
                        proof {
                            assert forall|k: int| 0 <= k < kv.len() implies #[trigger] sat@[k] == satisfy_all(kv, s0, sn.take(q + 1))[k] by {
                                lemma_take_contains(sn, q as int, kv[k]);
                                if kv[k] == sn[q as int] {
                                    assert(k == i);
                                }
                                if k != i {
                                    assert(sat@[k] == sb[k]);
                                }
                            }
                            assert forall|k: int| 0 <= k < kv.len() implies #[trigger] would@[k] == raise(kv, w0, sn.take(q + 1))[k] by {
                                lemma_take_contains(sn, q as int, kv[k]);
                                if kv[k] == sn[q as int] {
                                    assert(k == i);
                                }
                                if k != i {
                                    assert(would@[k] == wb[k]);
                                    assert(sat@[k] == sb[k]);
                                }
                            }
                            assert(would@ =~= raise(kv, w0, sn.take(q + 1)));
                            assert(sat@ =~= satisfy_all(kv, s0, sn.take(q + 1)));
                            assert(sn.take(q + 1) =~= sn.take(q as int).push(sn[q as int]));
                            assert(sn.take(q + 1).map_values(f) =~= sn.take(q as int).map_values(f).push(f(sn[q as int])));
                            assert(f(sn[q as int]) == step_of(kv, ts, i as int, Satisfaction::Satisfied, "(would be satisfied by task)"@));
                            assert(steps_view(steps@) =~= (st0 + sn.take(q as int).map_values(f)).push(f(sn[q as int])));
                            assert((st0 + sn.take(q as int).map_values(f)).push(f(sn[q as int])) =~= st0 + sn.take(q + 1).map_values(f));
                        }
                        q = q + 1;
                    }
                    proof {
                        assert(sn.take(sn.len() as int) =~= sn);
                    }
                    Ghost(o)
                }
            },
        }
    }

    /// Plan — simulate an apply run without side effects.
    ///
    /// Real `check` functions are still called to show current state, but
    /// tasks are never executed and the state is not changed. A manual
    /// override (`--set`/`--unset`) decides its target, as in a real run;
    /// remembered check results are not used. When a task *would* run, its
    /// targets are marked as "would be satisfied by task" so that downstream
    /// targets can be evaluated optimistically.
    ///
    /// The registry and the state are left as they are; only the record of
    /// the closures called ([`calls`](Self::calls)) changes, and it lists
    /// check functions alone.
    pub fn run_plan(&mut self, config: &Config, names: &[String]) -> (steps: Vec<Step>)
        requires
            old(self).wf(),
            old(self).spec_valid(),
            forall|k: int| 0 <= k < names@.len() ==> old(self).tkeys().contains(#[trigger] names@[k]@),
        ensures
            final(self).wf(),
            final(self).spec_valid(),
            final(self).tkeys() == old(self).tkeys(),
            final(self).tvals() == old(self).tvals(),
            final(self).skeys() == old(self).skeys(),
            final(self).svals() == old(self).svals(),
            final(self).st() == old(self).st(),
            exists|ord: Seq<int>, outs: Seq<Result<bool, Seq<char>>>|
                #[trigger] plan_run_is(
                    old(self).tkeys(),
                    old(self).tvals(),
                    old(self).svals(),
                    *config,
                    marks(old(self).st()),
                    names_view(names@),
                    ord,
                    outs,
                    steps_view(steps@),
                    final(self).calls(),
                ),
    {
        self.calls = Ghost(Seq::empty());
        assert(self.st() == old(self).st());
        let ghost kv = self.tkeys();
        let ghost ts = self.tvals();
        let ghost tasks = self.svals();
        let n = self.target_keys.len();
        let order = topo_order(&self.target_keys, &self.targets, names);
        let ghost ord = path_ints(order@);
        proof {
            crate::graph::lemma_run_order(kv, deps_of(ts), names_view(names@), order@);
        }
        let mut sat: Vec<Option<Satisfaction>> = Vec::new();
        let mut would: Vec<bool> = Vec::new();
        let mut blocked: Vec<bool> = Vec::new();
        let mut i: usize = 0;
        while i < n
            invariant
                i <= n,
                sat@.len() == i,
                would@.len() == i,
                blocked@.len() == i,
                forall|q: int| 0 <= q < i ==> sat@[q] is None,
                forall|q: int| 0 <= q < i ==> !would@[q],
                forall|q: int| 0 <= q < i ==> !blocked@[q],
            decreases n - i,
        {
            sat.push(None);
            would.push(false);
            blocked.push(false);
            i = i + 1;
        }
        let mut steps: Vec<Step> = Vec::new();
        let ghost mut outs: Seq<Result<bool, Seq<char>>> = Seq::empty();
        proof {
            assert(kv.len() == n);
            let t0 = plan_trace(kv, ts, tasks, *config, marks(self.st()), ord, outs, 0);
            assert(sat@ =~= t0.sat);
            assert(would@ =~= t0.would);
            assert(blocked@ =~= t0.blocked);
            assert(steps_view(steps@) =~= t0.steps);
            assert(self.calls@ =~= t0.calls);
        }
        let mut p: usize = 0;
        while p < order.len()
            invariant
                self.wf(),
                self.spec_valid(),
                kv == self.tkeys(),
                ts == self.tvals(),
                tasks == self.svals(),
                n == kv.len(),
                ord == path_ints(order@),
                forall|q: int| 0 <= q < order@.len() ==> #[trigger] order@[q] < n,
                p <= order@.len(),
                outs.len() == p,
                sat@.len() == n,
                would@.len() == n,
                blocked@.len() == n,
                self.st() == old(self).st(),
                self.skeys() == old(self).skeys(),
                (PlanAcc { sat: sat@, would: would@, blocked: blocked@, steps: steps_view(steps@), calls: self.calls() })
                    == plan_trace(kv, ts, tasks, *config, marks(self.st()), ord, outs, p as nat),
            decreases order@.len() - p,
        {
            let x = order[p];
            let mut log = self.calls;
            let o = self.plan_at(config, x, &mut sat, &mut would, &mut blocked, &mut steps, &mut log);
            self.calls = log;
            proof {
                lemma_plan_trace_push(kv, ts, tasks, *config, marks(self.st()), ord, outs, o@, p as nat);
                outs = outs.push(o@);
                assert(ord[p as int] == x as int);
            }
            p = p + 1;
        }
        proof {
            assert(plan_run_is(kv, ts, tasks, *config, marks(self.st()), names_view(names@), ord, outs, steps_view(steps@), self.calls()));
        }
        steps
    }

    pub closed spec fn acc_view(&self, sat: Seq<Option<Satisfaction>>, blocked: Seq<bool>, steps: Seq<Step>, cur: nat) -> ApplyAcc {
        ApplyAcc { marks: marks(self.state@), sat, blocked, steps: steps_view(steps), cur, calls: self.calls@ }
    }

    /// Judges target `i` again and records it (see [`recheck_one`]).
    fn recheck_target(
        &mut self,
        i: usize,
        sat: &mut Vec<Option<Satisfaction>>,
        blocked: &Vec<bool>,
        steps: &mut Vec<Step>,
        os: &mut Ghost<Seq<Result<bool, Seq<char>>>>,
    )
        requires
            old(self).wf(),
            i < old(self).tkeys().len(),
            old(sat)@.len() == old(self).tkeys().len(),
        ensures
            final(self).wf(),
            final(self).tkeys() == old(self).tkeys(),
            final(self).tvals() == old(self).tvals(),
            final(self).skeys() == old(self).skeys(),
            final(self).svals() == old(self).svals(),
            final(sat)@.len() == old(sat)@.len(),
            final(os)@.len() == old(os)@.len() + 1,
            extends(final(os)@, old(os)@),
            final(self).acc_view(final(sat)@, blocked@, final(steps)@, final(os)@.len()) == recheck_one(
                old(self).tkeys(),
                old(self).tvals(),
                final(os)@,
                old(self).acc_view(old(sat)@, blocked@, old(steps)@, old(os)@.len()),
                i as int,
            ),
    {
        let ghost kv = self.tkeys();
        let ghost ts = self.tvals();
        let ghost pre_marks = marks(self.state@);
        let ghost pre_sat = sat@;
        let ghost pre_log = self.calls@;
        let mut log = self.calls;
        let r = self.eval_target(&self.targets[i], sat, Ghost(i as int), &mut log);
        self.calls = log;
        let ghost o = choose|o: Result<bool, Seq<char>>|
            gives(r, #[trigger] eval_spec(kv, pre_sat, ts[i as int], mark_of(pre_marks, ts[i as int].name@), o))
                && self.calls@ == with_check(
                pre_log,
                eval_runs_check(kv, pre_sat, ts[i as int], mark_of(pre_marks, ts[i as int].name@)),
                i as int,
                o,
            );
        let (s, d) = r;
        let ghost dv = d@;
        let satisfied = s == Satisfaction::Satisfied;
        self.record_result(i, satisfied);
        let ghost pre_steps = steps_view(steps@);
        steps.push(self.mk_step(i, s, d));
        sat.set(i, Some(s));
        proof {
            let old_os = os@;
            os@ = os@.push(o);
            assert(os@[old_os.len() as int] == o);
            assert(steps_view(steps@) =~= pre_steps.push(step_of(kv, ts, i as int, s, dv)));
        }
    }

    /// Re-checks the leaf dependencies of target `si` that task `j` does not
    /// itself satisfy (see [`recheck_deps`]).
    fn recheck_deps_exec(
        &mut self,
        j: usize,
        si: usize,
        sat: &mut Vec<Option<Satisfaction>>,
        blocked: &Vec<bool>,
        steps: &mut Vec<Step>,
        os: &mut Ghost<Seq<Result<bool, Seq<char>>>>,
    )
        requires
            old(self).wf(),
            j < old(self).svals().len(),
            si < old(self).tkeys().len(),
            old(sat)@.len() == old(self).tkeys().len(),
        ensures
            final(self).wf(),
            final(self).tkeys() == old(self).tkeys(),
            final(self).tvals() == old(self).tvals(),
            final(self).skeys() == old(self).skeys(),
            final(self).svals() == old(self).svals(),
            final(sat)@.len() == old(sat)@.len(),
            extends(final(os)@, old(os)@),
            final(self).acc_view(final(sat)@, blocked@, final(steps)@, final(os)@.len()) == recheck_deps(
                old(self).tkeys(),
                old(self).tvals(),
                names_view(old(self).svals()[j as int].satisfies@),
                si as int,
                final(os)@,
                old(self).acc_view(old(sat)@, blocked@, old(steps)@, old(os)@.len()),
                old(self).tvals()[si as int].depends_on@.len(),
            ),
    {
        let ghost kv = self.tkeys();
        let ghost ts = self.tvals();
        let ghost sn = names_view(self.svals()[j as int].satisfies@);
        let ghost a0 = self.acc_view(sat@, blocked@, steps@, os@.len());
        let ghost os0 = os@;
        let nd = self.targets[si].depends_on.len();
        let mut r: usize = 0;
        while r < nd
            invariant
                self.wf(),
                kv == self.tkeys(),
                ts == self.tvals(),
                self.skeys() == old(self).skeys(),
                self.svals() == old(self).svals(),
                kv == old(self).tkeys(),
                ts == old(self).tvals(),
                j < self.svals().len(),
                sn == names_view(self.svals()[j as int].satisfies@),
                si < kv.len(),
                nd == ts[si as int].depends_on@.len(),
                r <= nd,
                sat@.len() == kv.len(),
                extends(os@, os0),
                a0 == old(self).acc_view(old(sat)@, blocked@, old(steps)@, old(os)@.len()),
                os0 == old(os)@,
                self.acc_view(sat@, blocked@, steps@, os@.len()) == recheck_deps(kv, ts, sn, si as int, os@, a0, r as nat),
            decreases nd - r,
        {
            let ghost dname = names_view(ts[si as int].depends_on@)[r as int];
            let target_dep = match find_key(&self.target_keys, self.targets[si].depends_on[r].as_str()) {
                Some(di) => {
                    proof {
                        lemma_index_of(kv, di as int);
                        assert(kv[di as int] == dname);
                    }
                    if self.targets[di].check.is_some() && !contains_name(&self.tasks[j].satisfies, self.targets[si].depends_on[r].as_str()) {
                        Some(di)
                    } else {
                        None
                    }
                },
                None => None,
            };
            let ghost osr = os@;
            match target_dep {
                Some(di) => {
                    self.recheck_target(di, sat, blocked, steps, os);
                    proof {
                        lemma_recheck_deps_ext(kv, ts, sn, si as int, osr, os@, a0, r as nat);
                    }
                },
                None => {},
            }
            r = r + 1;
        }
    }

    /// After task `j` ran (`ok` when it succeeded), re-checks or fails the
    /// targets it satisfies (see [`recheck_sats`]).
    fn recheck_sats_exec(
        &mut self,
        j: usize,
        ok: bool,
        sat: &mut Vec<Option<Satisfaction>>,
        blocked: &mut Vec<bool>,
        steps: &mut Vec<Step>,
        os: &mut Ghost<Seq<Result<bool, Seq<char>>>>,
    )
        requires
            old(self).wf(),
            j < old(self).svals().len(),
            old(sat)@.len() == old(self).tkeys().len(),
            old(blocked)@.len() == old(self).tkeys().len(),
        ensures
            final(self).wf(),
            final(self).tkeys() == old(self).tkeys(),
            final(self).tvals() == old(self).tvals(),
            final(self).skeys() == old(self).skeys(),
            final(self).svals() == old(self).svals(),
            final(sat)@.len() == old(sat)@.len(),
            final(blocked)@.len() == old(blocked)@.len(),
            extends(final(os)@, old(os)@),
            final(self).acc_view(final(sat)@, final(blocked)@, final(steps)@, final(os)@.len()) == recheck_sats(
                old(self).tkeys(),
                old(self).tvals(),
                names_view(old(self).svals()[j as int].satisfies@),
                ok,
                final(os)@,
                old(self).acc_view(old(sat)@, old(blocked)@, old(steps)@, old(os)@.len()),
                old(self).svals()[j as int].satisfies@.len(),
            ),
    {
        let ghost kv = self.tkeys();
        let ghost ts = self.tvals();
        let ghost sn = names_view(self.svals()[j as int].satisfies@);
        let ghost a0 = self.acc_view(sat@, blocked@, steps@, os@.len());
        let ghost os0 = os@;
        let ns = self.tasks[j].satisfies.len();
        let mut q: usize = 0;
        while q < ns
            invariant
                self.wf(),
                kv == self.tkeys(),
                ts == self.tvals(),
                self.skeys() == old(self).skeys(),
                self.svals() == old(self).svals(),
                kv == old(self).tkeys(),
                ts == old(self).tvals(),
                j < self.svals().len(),
                sn == names_view(self.svals()[j as int].satisfies@),
                ns == sn.len(),
                q <= ns,
                sat@.len() == kv.len(),
                blocked@.len() == kv.len(),
                extends(os@, os0),
                a0 == old(self).acc_view(old(sat)@, old(blocked)@, old(steps)@, old(os)@.len()),
                os0 == old(os)@,
                self.acc_view(sat@, blocked@, steps@, os@.len()) == recheck_sats(kv, ts, sn, ok, os@, a0, q as nat),
            decreases ns - q,
        {
            let ghost osq = os@;
            let ghost b = recheck_sats(kv, ts, sn, ok, osq, a0, q as nat);
            match find_key(&self.target_keys, self.tasks[j].satisfies[q].as_str()) {
                Some(si) => {
                    proof {
                        lemma_index_of(kv, si as int);
                        assert(kv[si as int] == sn[q as int]);
                    }
                    if ok {
                        self.recheck_deps_exec(j, si, sat, blocked, steps, os);
                        let ghost osm = os@;
                        let ghost c = recheck_deps(kv, ts, sn, si as int, osm, b, ts[si as int].depends_on@.len());
                        self.recheck_target(si, sat, blocked, steps, os);
                        proof {
                            lemma_recheck_deps_mono(kv, ts, sn, si as int, osm, b, ts[si as int].depends_on@.len());
                            lemma_recheck_deps_ext(kv, ts, sn, si as int, osm, os@, b, ts[si as int].depends_on@.len());
                            lemma_recheck_sats_mono(kv, ts, sn, ok, osq, a0, q as nat);
                            lemma_recheck_sats_ext(kv, ts, sn, ok, osq, os@, a0, q as nat);
                        }
                    } else {
                        self.record_result(si, false);
                        let ghost pre_steps = steps_view(steps@);
                        steps.push(self.mk_step(si, Satisfaction::Unsatisfied, "(task failed)".to_owned()));
                        sat.set(si, Some(Satisfaction::Unsatisfied));
                        blocked.set(si, true);
                        proof {
                            assert(steps_view(steps@) =~= pre_steps.push(step_of(kv, ts, si as int, Satisfaction::Unsatisfied, "(task failed)"@)));
                        }
                    }
                },
                None => {
                    proof {
                        assert(!kv.contains(sn[q as int])) by {
                            assert(sn[q as int] == self.svals()[j as int].satisfies@[q as int]@);
                        }
                    }
                },
            }
            q = q + 1;
        }
    }

    /// One target of an apply run (see [`apply_step`]).
    fn apply_at(
        &mut self,
        config: &Config,
        x: usize,
        sat: &mut Vec<Option<Satisfaction>>,
        blocked: &mut Vec<bool>,
        steps: &mut Vec<Step>,
    ) -> (r: (Ghost<Seq<Result<bool, Seq<char>>>>, Ghost<bool>))
        requires
            old(self).wf(),
            old(self).spec_valid(),
            x < old(self).tkeys().len(),
            old(sat)@.len() == old(self).tkeys().len(),
            old(blocked)@.len() == old(self).tkeys().len(),
        ensures
            final(self).wf(),
            final(self).tkeys() == old(self).tkeys(),
            final(self).tvals() == old(self).tvals(),
            final(self).skeys() == old(self).skeys(),
            final(self).svals() == old(self).svals(),
            final(sat)@.len() == old(sat)@.len(),
            final(blocked)@.len() == old(blocked)@.len(),
            ({
                let e = apply_step(
                    old(self).tkeys(),
                    old(self).tvals(),
                    old(self).svals(),
                    *config,
                    old(self).acc_view(old(sat)@, old(blocked)@, old(steps)@, 0),
                    x as int,
                    r.0@,
                    r.1@,
                );
                &&& marks(final(self).st()) == e.marks
                &&& final(sat)@ == e.sat
                &&& final(blocked)@ == e.blocked
                &&& steps_view(final(steps)@) == e.steps
                &&& final(self).calls() == e.calls
            }),
    {
        let ghost kv = self.tkeys();
        let ghost ts = self.tvals();
        let ghost tasks = self.svals();
        let ghost a = self.acc_view(sat@, blocked@, steps@, 0);
        let ghost any_os: Seq<Result<bool, Seq<char>>> = Seq::empty();
        if blocked[x] || self.any_flagged(&self.targets[x].depends_on, blocked) || self.any_flagged(
            &self.targets[x].check_deps,
            blocked,
        ) {
            let ghost pre_steps = steps_view(steps@);
            steps.push(self.mk_step(x, Satisfaction::Unsatisfied, "(skipped, upstream failure)".to_owned()));
            blocked.set(x, true);
            proof {
                assert(steps_view(steps@) =~= pre_steps.push(step_of(kv, ts, x as int, Satisfaction::Unsatisfied, "(skipped, upstream failure)"@)));
            }
            return (Ghost(any_os), Ghost(true));
        }
        let ghost pre_log = self.calls@;
        let mut log = self.calls;
        let r = self.eval_target(&self.targets[x], sat, Ghost(x as int), &mut log);
        self.calls = log;
        let ghost o = choose|o: Result<bool, Seq<char>>|
            gives(r, #[trigger] eval_spec(kv, a.sat, ts[x as int], mark_of(a.marks, ts[x as int].name@), o))
                && self.calls@ == with_check(
                pre_log,
                eval_runs_check(kv, a.sat, ts[x as int], mark_of(a.marks, ts[x as int].name@)),
                x as int,
                o,
            );
        let ghost os1 = seq![o];
        let (s, d) = r;
        let ghost dv = d@;
        let ghost pre_steps = steps_view(steps@);
        if s == Satisfaction::Satisfied {
            self.record_result(x, true);
            steps.push(self.mk_step(x, s, d));
            sat.set(x, Some(s));
            proof {
                assert(steps_view(steps@) =~= pre_steps.push(step_of(kv, ts, x as int, s, dv)));
            }
            return (Ghost(os1), Ghost(true));
        }
        if self.targets[x].check.is_some() || self.targets[x].is_stub() {
            sat.set(x, Some(Satisfaction::Unsatisfied));
            steps.push(self.mk_step(x, Satisfaction::Unsatisfied, d));
            proof {
                assert(steps_view(steps@) =~= pre_steps.push(step_of(kv, ts, x as int, Satisfaction::Unsatisfied, dv)));
            }
            return (Ghost(os1), Ghost(true));
        }
        match self.find_task_for(self.target_keys[x].as_str()) {
            None => {
                sat.set(x, Some(Satisfaction::Unsatisfied));
                steps.push(self.mk_step(x, Satisfaction::Unsatisfied, d));
                proof {
                    assert(steps_view(steps@) =~= pre_steps.push(step_of(kv, ts, x as int, Satisfaction::Unsatisfied, dv)));
                }
                (Ghost(os1), Ghost(true))
            },
            Some(j) => {
                if is_task_disabled(&self.tasks[j], config) {
                    sat.set(x, Some(Satisfaction::Unsatisfied));
                    steps.push(self.mk_step(x, Satisfaction::Unsatisfied, "(task disabled by label filter)".to_owned()));
                    proof {
                        assert(steps_view(steps@) =~= pre_steps.push(step_of(kv, ts, x as int, Satisfaction::Unsatisfied, "(task disabled by label filter)"@)));
                    }
                    return (Ghost(os1), Ghost(true));
                }
                if !self.all_satisfied(&self.tasks[j].depends_on, sat) {
                    sat.set(x, Some(Satisfaction::Unsatisfied));
                    steps.push(self.mk_step(x, Satisfaction::Unsatisfied, "(task deps not satisfied)".to_owned()));
                    self.raise_flags(blocked, &self.tasks[j].satisfies);
                    proof {
                        assert(steps_view(steps@) =~= pre_steps.push(step_of(kv, ts, x as int, Satisfaction::Unsatisfied, "(task deps not satisfied)"@)));
                    }
                    return (Ghost(os1), Ghost(true));
                }
                let ghost judged = self.calls@;
                let ran_ok = if self.tasks[j].run.is_some() {
                    self.run_action(j)
                } else {
                    true
                };
                let mut os: Ghost<Seq<Result<bool, Seq<char>>>> = Ghost(os1);
                proof {
                    let acted = if tasks[j as int].run is Some { judged.push(Call::Action(j as int, ran_ok)) } else { judged };
                    assert(self.calls@ == acted);
                    assert(self.acc_view(sat@, blocked@, steps@, os@.len()) == ApplyAcc { cur: 1, calls: acted, ..a });
                }
                self.recheck_sats_exec(j, ran_ok, sat, blocked, steps, &mut os);
                proof {
                    assert(os@[0] == o);
                }
                (os, Ghost(ran_ok))
            },
        }
    }

    /// Apply — check targets, run tasks for unsatisfied ones, re-check.
    ///
    /// Algorithm (see [`apply_step`]):
    /// 1. Collect relevant targets in topological order.
    /// 2. For each target: check → if satisfied, record and skip.
    /// 3. Unsatisfied leaves and stubs get no task. For an unsatisfied
    ///    aggregate, its task runs when it is enabled by the label filter and
    ///    its own dependency targets are satisfied.
    /// 4. After a successful task, its targets (and their leaf dependencies)
    ///    are re-checked.
    /// 5. If a task fails, its targets are marked as failed and their
    ///    downstream targets are skipped (best-effort).
    ///
    /// [`calls`](Self::calls) then lists, in order, the check functions and
    /// task actions the run called (see [`apply_trace`]).
    pub fn run_apply(&mut self, config: &Config, names: &[String]) -> (steps: Vec<Step>)
        requires
            old(self).wf(),
            old(self).spec_valid(),
            forall|k: int| 0 <= k < names@.len() ==> old(self).tkeys().contains(#[trigger] names@[k]@),
        ensures
            final(self).wf(),
            final(self).tkeys() == old(self).tkeys(),
            final(self).tvals() == old(self).tvals(),
            final(self).skeys() == old(self).skeys(),
            final(self).svals() == old(self).svals(),
            exists|ord: Seq<int>, oss: Seq<Seq<Result<bool, Seq<char>>>>, runs: Seq<bool>|
                #[trigger] apply_run_is(
                    old(self).tkeys(),
                    old(self).tvals(),
                    old(self).svals(),
                    *config,
                    marks(old(self).st()),
                    names_view(names@),
                    ord,
                    oss,
                    runs,
                    marks(final(self).st()),
                    steps_view(steps@),
                    final(self).calls(),
                ),
    {
        self.calls = Ghost(Seq::empty());
        assert(self.st() == old(self).st());
        let ghost kv = self.tkeys();
        let ghost ts = self.tvals();
        let ghost tasks = self.svals();
        let ghost m0 = marks(self.st());
        let n = self.target_keys.len();
        let order = topo_order(&self.target_keys, &self.targets, names);
        let ghost ord = path_ints(order@);
        proof {
            crate::graph::lemma_run_order(kv, deps_of(ts), names_view(names@), order@);
        }
        let mut sat: Vec<Option<Satisfaction>> = Vec::new();
        let mut blocked: Vec<bool> = Vec::new();
        let mut i: usize = 0;
        while i < n
            invariant
                i <= n,
                sat@.len() == i,
                blocked@.len() == i,
                forall|q: int| 0 <= q < i ==> sat@[q] is None,
                forall|q: int| 0 <= q < i ==> !blocked@[q],
            decreases n - i,
        {
            sat.push(None);
            blocked.push(false);
            i = i + 1;
        }
        let mut steps: Vec<Step> = Vec::new();
        let ghost mut oss: Seq<Seq<Result<bool, Seq<char>>>> = Seq::empty();
        let ghost mut runs: Seq<bool> = Seq::empty();
        proof {
            assert(kv.len() == n);
            let t0 = apply_trace(kv, ts, tasks, *config, m0, ord, oss, runs, 0);
            assert(sat@ =~= t0.sat);
            assert(blocked@ =~= t0.blocked);
            assert(steps_view(steps@) =~= t0.steps);
            assert(self.calls@ =~= t0.calls);
        }
        let mut p: usize = 0;
        while p < order.len()
            invariant
                self.wf(),
                self.spec_valid(),
                kv == self.tkeys(),
                ts == self.tvals(),
                tasks == self.svals(),
                kv == old(self).tkeys(),
                ts == old(self).tvals(),
                tasks == old(self).svals(),
                self.skeys() == old(self).skeys(),
                n == kv.len(),
                ord == path_ints(order@),
                forall|q: int| 0 <= q < order@.len() ==> #[trigger] order@[q] < n,
                p <= order@.len(),
                oss.len() == p,
                runs.len() == p,
                sat@.len() == n,
                blocked@.len() == n,
                marks(self.st()) == apply_trace(kv, ts, tasks, *config, m0, ord, oss, runs, p as nat).marks,
                sat@ == apply_trace(kv, ts, tasks, *config, m0, ord, oss, runs, p as nat).sat,
                blocked@ == apply_trace(kv, ts, tasks, *config, m0, ord, oss, runs, p as nat).blocked,
                steps_view(steps@) == apply_trace(kv, ts, tasks, *config, m0, ord, oss, runs, p as nat).steps,
                self.calls() == apply_trace(kv, ts, tasks, *config, m0, ord, oss, runs, p as nat).calls,
            decreases order@.len() - p,
        {
            let x = order[p];
            let ghost before = apply_trace(kv, ts, tasks, *config, m0, ord, oss, runs, p as nat);
            proof {
                assert(self.acc_view(sat@, blocked@, steps@, 0) == ApplyAcc { cur: 0, ..before });
            }
            let (os, ran) = self.apply_at(config, x, &mut sat, &mut blocked, &mut steps);
            proof {
                lemma_apply_trace_push(kv, ts, tasks, *config, m0, ord, oss, runs, os@, ran@, p as nat);
                oss = oss.push(os@);
                runs = runs.push(ran@);
                assert(ord[p as int] == x as int);
                let stepped = apply_step(kv, ts, tasks, *config, ApplyAcc { cur: 0, ..before }, x as int, os@, ran@);
                let stepped2 = apply_step(kv, ts, tasks, *config, before, x as int, os@, ran@);
                assert(stepped.marks == stepped2.marks && stepped.sat == stepped2.sat && stepped.blocked == stepped2.blocked && stepped.steps == stepped2.steps && stepped.calls == stepped2.calls);
            }
            p = p + 1;
        }
        proof {
            assert(apply_run_is(kv, ts, tasks, *config, m0, names_view(names@), ord, oss, runs, marks(self.st()), steps_view(steps@), self.calls()));
        }
        steps
    }

    /// The state to persist: the entries of stub targets only (targets with
    /// neither a check nor dependencies). Leaf and aggregate state lives
    /// only in memory during a run.
    pub fn persisted_state(&self) -> (r: State)
        requires
            self.wf(),
        ensures
            r@ == self.st().restrict(stub_names(self.tvals())),
    {
        let ghost ts = self.tvals();
        let ghost st = self.st();
        let mut out = State::new();
        let mut i: usize = 0;
        while i < self.targets.len()
            invariant
                ts == self.tvals(),
                st == self.st(),
                i <= ts.len(),
                out@ == st.restrict(stub_names(ts.take(i as int))),
            decreases ts.len() - i,
        {
            let t = &self.targets[i];
            let ghost pre = out@;
            if t.is_stub() {
                match self.state.get(t.name.as_str()) {
                    Some(entry) => {
                        out.insert_entry(t.name.as_str(), entry.duplicate());
                    },
                    None => {},
                }
            }
            proof {
                let a = stub_names(ts.take(i as int));
                let b = stub_names(ts.take(i + 1));
                assert forall|k: Seq<char>| #[trigger] b.contains(k) <==> (a.contains(k) || (ts[i as int].spec_is_stub() && ts[i as int].name@ == k)) by {
                    if b.contains(k) {
                        let w = choose|w: int| 0 <= w < ts.take(i + 1).len() && (#[trigger] ts.take(i + 1)[w]).spec_is_stub() && ts.take(i + 1)[w].name@ == k;
                        if w < i {
                            assert(ts.take(i as int)[w] == ts.take(i + 1)[w]);
                        }
                    }
                    if a.contains(k) {
                        let w = choose|w: int| 0 <= w < ts.take(i as int).len() && (#[trigger] ts.take(i as int)[w]).spec_is_stub() && ts.take(i as int)[w].name@ == k;
                        assert(ts.take(i + 1)[w] == ts.take(i as int)[w]);
                    }
                    if ts[i as int].spec_is_stub() && ts[i as int].name@ == k {
                        assert(ts.take(i + 1)[i as int] == ts[i as int]);
                    }
                }
                assert(out@ =~= st.restrict(b));
            }
            i = i + 1;
        }
        proof {
            assert(ts.take(ts.len() as int) =~= ts);
        }
        out
    }
}

} // verus!
