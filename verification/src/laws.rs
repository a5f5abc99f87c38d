//! Laws of the engine: how targets are judged, what runs report, how
//! failures propagate, how overrides and filters act, and how many times a
//! command is tried. Each is stated over the spec functions that the
//! contracts of the functions concerned use.
use vstd::prelude::*;

use crate::app::{
    all_sat, any_blocked, apply_run_is, apply_step, apply_trace, check_run_is, check_trace,
    eval_plan_spec, eval_runs_check, eval_spec, first_task_for, plan_runs_check, mark_of, outcome_result, plan_trace, recheck_deps,
    plan_step, record, recheck_one, recheck_sats, step_of, task_disabled, task_for, valid_registry, ApplyAcc,
    Config, Mark, PlanAcc,
};
use crate::cli::without;
use crate::cmd::{next_action_of, CmdView, OutcomeView};
use crate::graph::{
    acyclic, deps_of, edge, exact_order, is_cycle, kahn_order, lemma_cycle_not_acyclic, lemma_listed_unique,
    listed_by_name, relevance, relevant,
};
use crate::state::TargetStateView;
use crate::target::{names_view, Target};
use crate::task::Task;
use crate::{actions_in, with_check, Call, Satisfaction, StepView};

verus! {

/// A manual override decides a target, whatever its kind: a target set by
/// hand is satisfied, one unset by hand is unsatisfied, and no check runs.
pub proof fn law_manual_override_wins(
    kv: Seq<Seq<char>>,
    sat: Seq<Option<Satisfaction>>,
    t: Target,
    entry: Option<Mark>,
    o: Result<bool, Seq<char>>,
)
    requires
        entry matches Some(m) && m.1,
    ensures
        eval_spec(kv, sat, t, entry, o).0 == (if entry.unwrap().0 == Some(true) {
            Satisfaction::Satisfied
        } else {
            Satisfaction::Unsatisfied
        }),
        !eval_runs_check(kv, sat, t, entry),
{
}

/// A plan honours manual overrides as runs do: a target set by hand is
/// planned as satisfied, one unset by hand as unsatisfied, and its check
/// does not run.
pub proof fn law_plan_honours_manual_override(
    kv: Seq<Seq<char>>,
    sat: Seq<Option<Satisfaction>>,
    would: Seq<bool>,
    t: Target,
    entry: Option<Mark>,
    o: Result<bool, Seq<char>>,
)
    requires
        entry matches Some(m) && m.1,
    ensures
        eval_plan_spec(kv, sat, would, t, entry, o) == eval_spec(kv, sat, t, entry, o),
        !plan_runs_check(kv, sat, would, t, entry),
{
}

/// A stub target (neither a check nor dependencies) is unsatisfied unless
/// it is set by hand; there is nothing to run for it.
pub proof fn law_stub_unsatisfied_by_default(
    kv: Seq<Seq<char>>,
    sat: Seq<Option<Satisfaction>>,
    t: Target,
    entry: Option<Mark>,
    o: Result<bool, Seq<char>>,
)
    requires
        t.spec_is_stub(),
        !(entry matches Some(m) && m.1),
    ensures
        eval_spec(kv, sat, t, entry, o) == (Satisfaction::Unsatisfied, "(no check, no deps)"@),
        !eval_runs_check(kv, sat, t, entry),
{
}

/// An aggregate target (dependencies, no check) is satisfied exactly when
/// all its dependencies are, and what is remembered of it plays no part:
/// an aggregate is never taken from memory.
pub proof fn law_aggregate_follows_dependencies(
    kv: Seq<Seq<char>>,
    sat: Seq<Option<Satisfaction>>,
    t: Target,
    entry: Option<Mark>,
    o: Result<bool, Seq<char>>,
)
    requires
        t.check is None,
        t.depends_on@.len() > 0,
        !(entry matches Some(m) && m.1),
    ensures
        (eval_spec(kv, sat, t, entry, o).0 == Satisfaction::Satisfied) == all_sat(
            kv,
            sat,
            names_view(t.depends_on@),
        ),
        eval_spec(kv, sat, t, entry, o) == eval_spec(kv, sat, t, None, o),
        !eval_runs_check(kv, sat, t, entry),
{
}

/// A leaf target whose check dependencies are not all satisfied is
/// unsatisfied, and its check does not run.
pub proof fn law_check_dependency_demotes_leaf(
    kv: Seq<Seq<char>>,
    sat: Seq<Option<Satisfaction>>,
    t: Target,
    entry: Option<Mark>,
    o: Result<bool, Seq<char>>,
)
    requires
        t.check is Some,
        !(entry matches Some(m) && m.1),
        !all_sat(kv, sat, names_view(t.check_deps@)),
    ensures
        eval_spec(kv, sat, t, entry, o) == (Satisfaction::Unsatisfied, "(check dep not satisfied)"@),
        !eval_runs_check(kv, sat, t, entry),
{
}

/// A leaf last found satisfied (and not overridden), whose check
/// dependencies are satisfied, is taken as satisfied without running its
/// check.
pub proof fn law_satisfied_leaf_is_cached(
    kv: Seq<Seq<char>>,
    sat: Seq<Option<Satisfaction>>,
    t: Target,
    entry: Option<Mark>,
    o: Result<bool, Seq<char>>,
)
    requires
        t.check is Some,
        entry matches Some(m) && !m.1 && m.0 == Some(true),
        all_sat(kv, sat, names_view(t.check_deps@)),
    ensures
        eval_spec(kv, sat, t, entry, o) == (Satisfaction::Satisfied, "(cached)"@),
        !eval_runs_check(kv, sat, t, entry),
{
}

/// Otherwise a leaf runs its check, and the check's answer decides it: an
/// error counts as unsatisfied.
pub proof fn law_leaf_runs_its_check(
    kv: Seq<Seq<char>>,
    sat: Seq<Option<Satisfaction>>,
    t: Target,
    entry: Option<Mark>,
    o: Result<bool, Seq<char>>,
)
    requires
        t.check is Some,
        !(entry matches Some(m) && m.1),
        !(entry matches Some(m) && m.0 == Some(true)),
        all_sat(kv, sat, names_view(t.check_deps@)),
    ensures
        eval_spec(kv, sat, t, entry, o) == outcome_result(o),
        eval_runs_check(kv, sat, t, entry),
{
}

proof fn lemma_check_trace_steps(
    kv: Seq<Seq<char>>,
    ts: Seq<Target>,
    m0: Map<Seq<char>, Mark>,
    ord: Seq<int>,
    outs: Seq<Result<bool, Seq<char>>>,
    k: nat,
)
    ensures
        check_trace(kv, ts, m0, ord, outs, k).steps.len() == k,
        forall|i: int| 0 <= i < k ==> (#[trigger] check_trace(kv, ts, m0, ord, outs, k).steps[i]).0 == kv[ord[i]],
    decreases k,
{
    if k > 0 {
        lemma_check_trace_steps(kv, ts, m0, ord, outs, (k - 1) as nat);
        let prev = check_trace(kv, ts, m0, ord, outs, (k - 1) as nat).steps;
        assert forall|i: int| 0 <= i < k implies (#[trigger] check_trace(kv, ts, m0, ord, outs, k).steps[i]).0
            == kv[ord[i]] by {
            if i < k - 1 {
                assert(check_trace(kv, ts, m0, ord, outs, k).steps[i] == prev[i]);
            }
        }
    }
}

/// A check run reports one step per target it visits, in the order it
/// visits them; it visits each target once, every target after the
/// targets it depends on (for satisfaction or for its check), and only
/// targets that were asked for or that these depend on. On a registry
/// without cycles, every such target is visited.
pub proof fn law_check_run_order(
    kv: Seq<Seq<char>>,
    ts: Seq<Target>,
    m0: Map<Seq<char>, Mark>,
    req: Seq<Seq<char>>,
    ord: Seq<int>,
    outs: Seq<Result<bool, Seq<char>>>,
    m1: Map<Seq<char>, Mark>,
    steps: Seq<StepView>,
    calls: Seq<Call>,
)
    requires
        check_run_is(kv, ts, m0, req, ord, outs, m1, steps, calls),
    ensures
        steps.len() == ord.len(),
        forall|k: int| 0 <= k < steps.len() ==> (#[trigger] steps[k]).0 == kv[ord[k]],
        ord.no_duplicates(),
        forall|a: int, j: int|
            0 <= a < ord.len() && #[trigger] edge(kv, deps_of(ts), ord[a], j) ==> ord.take(a).contains(j),
        forall|k: int| 0 <= k < ord.len() ==> relevant(kv, deps_of(ts), req, #[trigger] ord[k]),
        acyclic(kv, deps_of(ts)) ==> forall|j: int|
            #[trigger] relevant(kv, deps_of(ts), req, j) ==> ord.contains(j),
{
    lemma_check_trace_steps(kv, ts, m0, ord, outs, ord.len());
}

/// The order of a run is determined by the registry and the request:
/// targets are taken by name, and Kahn's algorithm places them.
pub proof fn law_run_order_is_determined(
    kv: Seq<Seq<char>>,
    ts: Seq<Target>,
    req: Seq<Seq<char>>,
    ord1: Seq<int>,
    ord2: Seq<int>,
)
    requires
        exact_order(kv, ts, req, ord1),
        exact_order(kv, ts, req, ord2),
    ensures
        ord1 == ord2,
{
    let inr = relevance(kv, deps_of(ts), req);
    let rs1 = choose|rs: Seq<usize>| #[trigger] listed_by_name(kv, rs, inr) && ord1 == crate::graph::path_ints(kahn_order(kv, ts, rs, inr));
    let rs2 = choose|rs: Seq<usize>| #[trigger] listed_by_name(kv, rs, inr) && ord2 == crate::graph::path_ints(kahn_order(kv, ts, rs, inr));
    lemma_listed_unique(kv, rs1, rs2, inr);
}

/// Every manual override of `m0` is still in `m1`, unchanged.
pub open spec fn keeps_manual(m0: Map<Seq<char>, Mark>, m1: Map<Seq<char>, Mark>) -> bool {
    forall|name: Seq<char>|
        #[trigger] m0.contains_key(name) && m0[name].1 ==> m1.contains_key(name) && m1[name] == m0[name]
}

proof fn lemma_check_trace_keeps(
    kv: Seq<Seq<char>>,
    ts: Seq<Target>,
    m0: Map<Seq<char>, Mark>,
    ord: Seq<int>,
    outs: Seq<Result<bool, Seq<char>>>,
    k: nat,
)
    ensures
        keeps_manual(m0, check_trace(kv, ts, m0, ord, outs, k).marks),
    decreases k,
{
    if k > 0 {
        lemma_check_trace_keeps(kv, ts, m0, ord, outs, (k - 1) as nat);
    }
}

proof fn lemma_recheck_deps_keeps(
    kv: Seq<Seq<char>>,
    ts: Seq<Target>,
    sn: Seq<Seq<char>>,
    si: int,
    os: Seq<Result<bool, Seq<char>>>,
    a: ApplyAcc,
    r: nat,
)
    ensures
        keeps_manual(a.marks, recheck_deps(kv, ts, sn, si, os, a, r).marks),
    decreases r,
{
    if r > 0 {
        lemma_recheck_deps_keeps(kv, ts, sn, si, os, a, (r - 1) as nat);
    }
}

proof fn lemma_recheck_sats_keeps(
    kv: Seq<Seq<char>>,
    ts: Seq<Target>,
    sn: Seq<Seq<char>>,
    ok: bool,
    os: Seq<Result<bool, Seq<char>>>,
    a: ApplyAcc,
    q: nat,
)
    ensures
        keeps_manual(a.marks, recheck_sats(kv, ts, sn, ok, os, a, q).marks),
    decreases q,
{
    if q > 0 {
        lemma_recheck_sats_keeps(kv, ts, sn, ok, os, a, (q - 1) as nat);
        let b = recheck_sats(kv, ts, sn, ok, os, a, (q - 1) as nat);
        let name = sn[q - 1];
        if kv.contains(name) && ok {
            let si = kv.index_of(name);
            lemma_recheck_deps_keeps(kv, ts, sn, si, os, b, ts[si].depends_on@.len());
        }
    }
}

proof fn lemma_apply_trace_keeps(
    kv: Seq<Seq<char>>,
    ts: Seq<Target>,
    tasks: Seq<Task>,
    config: Config,
    m0: Map<Seq<char>, Mark>,
    ord: Seq<int>,
    oss: Seq<Seq<Result<bool, Seq<char>>>>,
    runs: Seq<bool>,
    k: nat,
)
    ensures
        keeps_manual(m0, apply_trace(kv, ts, tasks, config, m0, ord, oss, runs, k).marks),
    decreases k,
{
    if k > 0 {
        lemma_apply_trace_keeps(kv, ts, tasks, config, m0, ord, oss, runs, (k - 1) as nat);
        let a = apply_trace(kv, ts, tasks, config, m0, ord, oss, runs, (k - 1) as nat);
        let x = ord[k - 1];
        let t = ts[x];
        match crate::app::task_for(tasks, kv[x]) {
            Some(j) => {
                let sn = names_view(tasks[j].satisfies@);
                let judged = crate::with_check(a.calls, eval_runs_check(kv, a.sat, t, crate::app::mark_of(a.marks, t.name@)), x, oss[k - 1][0]);
                let acted = if tasks[j].run is Some { judged.push(Call::Action(j, runs[k - 1])) } else { judged };
                lemma_recheck_sats_keeps(
                    kv,
                    ts,
                    sn,
                    if tasks[j].run is Some { runs[k - 1] } else { true },
                    oss[k - 1],
                    ApplyAcc { cur: 1, calls: acted, ..a },
                    sn.len(),
                );
            },
            None => {},
        }
    }
}

/// A manual override outlasts check runs: every target set or unset by
/// hand is remembered so after the run, until it is removed by hand.
pub proof fn law_check_keeps_manual_overrides(
    kv: Seq<Seq<char>>,
    ts: Seq<Target>,
    m0: Map<Seq<char>, Mark>,
    req: Seq<Seq<char>>,
    ord: Seq<int>,
    outs: Seq<Result<bool, Seq<char>>>,
    m1: Map<Seq<char>, Mark>,
    steps: Seq<StepView>,
    calls: Seq<Call>,
)
    requires
        check_run_is(kv, ts, m0, req, ord, outs, m1, steps, calls),
    ensures
        keeps_manual(m0, m1),
{
    lemma_check_trace_keeps(kv, ts, m0, ord, outs, ord.len());
}

/// A manual override outlasts apply runs too, whatever the tasks do.
pub proof fn law_apply_keeps_manual_overrides(
    kv: Seq<Seq<char>>,
    ts: Seq<Target>,
    tasks: Seq<Task>,
    config: Config,
    m0: Map<Seq<char>, Mark>,
    req: Seq<Seq<char>>,
    ord: Seq<int>,
    oss: Seq<Seq<Result<bool, Seq<char>>>>,
    runs: Seq<bool>,
    m1: Map<Seq<char>, Mark>,
    steps: Seq<StepView>,
    calls: Seq<Call>,
)
    requires
        apply_run_is(kv, ts, tasks, config, m0, req, ord, oss, runs, m1, steps, calls),
    ensures
        keeps_manual(m0, m1),
{
    lemma_apply_trace_keeps(kv, ts, tasks, config, m0, ord, oss, runs, ord.len());
}

/// A registry whose dependencies (for satisfaction or for checks) form a
/// cycle does not pass validation.
pub proof fn law_cycle_is_refused(kv: Seq<Seq<char>>, ts: Seq<Target>, tasks: Seq<Task>, c: Seq<int>)
    requires
        is_cycle(kv, deps_of(ts), c),
    ensures
        !valid_registry(kv, ts, tasks),
{
    lemma_cycle_not_acyclic(kv, deps_of(ts), c);
}

/// In an apply run, a leaf or a stub never gets a task: what a task would
/// report plays no part in how such a target is handled.
pub proof fn law_leaves_and_stubs_get_no_task(
    kv: Seq<Seq<char>>,
    ts: Seq<Target>,
    tasks: Seq<Task>,
    config: Config,
    a: ApplyAcc,
    x: int,
    os: Seq<Result<bool, Seq<char>>>,
    ran1: bool,
    ran2: bool,
)
    requires
        0 <= x < ts.len(),
        ts[x].check is Some || ts[x].spec_is_stub(),
    ensures
        apply_step(kv, ts, tasks, config, a, x, os, ran1) == apply_step(kv, ts, tasks, config, a, x, os, ran2),
{
}

/// In an apply run, a target that depends (for satisfaction or for its
/// check) on a blocked target is skipped and becomes blocked itself, so a
/// failure stops everything downstream of it.
pub proof fn law_skip_propagates_downstream(
    kv: Seq<Seq<char>>,
    ts: Seq<Target>,
    tasks: Seq<Task>,
    config: Config,
    a: ApplyAcc,
    x: int,
    os: Seq<Result<bool, Seq<char>>>,
    ran: bool,
    d: Seq<char>,
)
    requires
        0 <= x < ts.len(),
        0 <= x < a.blocked.len(),
        names_view(ts[x].depends_on@).contains(d) || names_view(ts[x].check_deps@).contains(d),
        kv.contains(d),
        a.blocked[kv.index_of(d)],
    ensures
        apply_step(kv, ts, tasks, config, a, x, os, ran).blocked[x],
        apply_step(kv, ts, tasks, config, a, x, os, ran).steps == a.steps.push(
            step_of(kv, ts, x, Satisfaction::Unsatisfied, "(skipped, upstream failure)"@),
        ),
{
    let t = ts[x];
    if names_view(t.depends_on@).contains(d) {
        let k = choose|k: int| 0 <= k < names_view(t.depends_on@).len() && names_view(t.depends_on@)[k] == d;
        assert(any_blocked(kv, a.blocked, names_view(t.depends_on@)));
    } else {
        let k = choose|k: int| 0 <= k < names_view(t.check_deps@).len() && names_view(t.check_deps@)[k] == d;
        assert(any_blocked(kv, a.blocked, names_view(t.check_deps@)));
    }
}

/// When a task fails, every registered target it satisfies is blocked.
pub proof fn law_failed_task_blocks_its_targets(
    kv: Seq<Seq<char>>,
    ts: Seq<Target>,
    sn: Seq<Seq<char>>,
    os: Seq<Result<bool, Seq<char>>>,
    a: ApplyAcc,
    q: nat,
)
    requires
        q <= sn.len(),
        a.blocked.len() == kv.len(),
    ensures
        recheck_sats(kv, ts, sn, false, os, a, q).blocked.len() == kv.len(),
        forall|k: int|
            0 <= k < q && kv.contains(sn[k]) ==> recheck_sats(kv, ts, sn, false, os, a, q).blocked[kv.index_of(
                #[trigger] sn[k],
            )],
    decreases q,
{
    if q > 0 {
        law_failed_task_blocks_its_targets(kv, ts, sn, os, a, (q - 1) as nat);
        let b = recheck_sats(kv, ts, sn, false, os, a, (q - 1) as nat);
        let r = recheck_sats(kv, ts, sn, false, os, a, q);
        let name = sn[q - 1];
        if kv.contains(name) {
            let si = kv.index_of(name);
            assert(r.blocked == b.blocked.update(si, true));
            assert forall|k: int| 0 <= k < q && kv.contains(sn[k]) implies r.blocked[kv.index_of(
                #[trigger] sn[k],
            )] by {
                if k < q - 1 {
                    assert(b.blocked[kv.index_of(sn[k])]);
                }
            }
        }
    }
}

/// A task with an excluded label is left out of a run, whatever the label
/// filter says.
pub proof fn law_excluded_label_wins(labels: Seq<Seq<char>>, config: Config, l: Seq<char>)
    requires
        labels.contains(l),
        names_view(config.exclude_labels@).contains(l),
    ensures
        task_disabled(labels, config),
{
    let k = choose|k: int|
        0 <= k < names_view(config.exclude_labels@).len() && names_view(config.exclude_labels@)[k] == l;
    assert(config.exclude_labels@[k]@ == l);
}

/// With a label filter, a task that carries none of its labels is left
/// out.
pub proof fn law_label_filter_requires_a_label(labels: Seq<Seq<char>>, config: Config)
    requires
        config.label_filter matches Some(f) && forall|k: int|
            0 <= k < labels.len() ==> !names_view(f@).contains(#[trigger] labels[k]),
    ensures
        task_disabled(labels, config),
{
}

/// With no label filter and no exclusions, every task takes part.
pub proof fn law_no_filters_enable_every_task(labels: Seq<Seq<char>>, config: Config)
    requires
        config.label_filter is None,
        config.exclude_labels@.len() == 0,
    ensures
        !task_disabled(labels, config),
{
}

/// What a write of the state gives back: after a target is set by hand, it
/// is remembered with that satisfaction as a manual override; other
/// targets are as they were.
pub proof fn law_state_set_then_get(
    m: Map<Seq<char>, TargetStateView>,
    name: Seq<char>,
    satisfied: bool,
    t: Seq<char>,
    other: Seq<char>,
)
    requires
        other != name,
    ensures
        ({
            let m2 = m.insert(
                name,
                TargetStateView { satisfied: Some(satisfied), manually_set: true, checked_at: Some(t) },
            );
            &&& m2.contains_key(name)
            &&& m2[name].satisfied == Some(satisfied)
            &&& m2[name].manually_set
            &&& m2.contains_key(other) == m.contains_key(other)
            &&& m.contains_key(other) ==> m2[other] == m[other]
        }),
{
}

/// After a target is unset, nothing is remembered of it; other targets are
/// as they were.
pub proof fn law_state_unset_then_get(m: Map<Seq<char>, TargetStateView>, name: Seq<char>, other: Seq<char>)
    requires
        other != name,
    ensures
        !m.remove(name).contains_key(name),
        m.remove(name).contains_key(other) == m.contains_key(other),
        m.contains_key(other) ==> m.remove(name)[other] == m[other],
{
}

/// `--recheck` acts as `--unset`: forgetting the unset names and then the
/// rechecked ones is forgetting all of them.
pub proof fn law_recheck_is_unset(m: Map<Seq<char>, Mark>, unsets: Seq<Seq<char>>, rechecks: Seq<Seq<char>>)
    ensures
        without(without(m, unsets), rechecks) == without(m, unsets + rechecks),
    decreases rechecks.len(),
{
    if rechecks.len() > 0 {
        law_recheck_is_unset(m, unsets, rechecks.drop_last());
        assert((unsets + rechecks).drop_last() =~= unsets + rechecks.drop_last());
        assert((unsets + rechecks).last() == rechecks.last());
    } else {
        assert(unsets + rechecks =~= unsets);
    }
}

/// A command is tried at most `retry + 1` times: a failed or erroring
/// attempt is retried while retries remain, the last attempt always ends
/// the run, and a success ends it at once.
pub proof fn law_retry_budget(c: CmdView, attempt: int, o: OutcomeView)
    requires
        1 <= attempt <= c.retry + 1,
    ensures
        o is Succeeded ==> next_action_of(c, attempt, o) is Finish,
        !(o is Succeeded) && attempt <= c.retry ==> next_action_of(c, attempt, o) is Retry,
        attempt == c.retry + 1 ==> !(next_action_of(c, attempt, o) is Retry),
{
}

/// The check functions a plan calls are all it calls: a plan runs no
/// task's action.
pub proof fn law_plan_runs_no_action(
    kv: Seq<Seq<char>>,
    ts: Seq<Target>,
    tasks: Seq<Task>,
    config: Config,
    m: Map<Seq<char>, Mark>,
    ord: Seq<int>,
    outs: Seq<Result<bool, Seq<char>>>,
    k: nat,
)
    ensures
        forall|i: int|
            0 <= i < plan_trace(kv, ts, tasks, config, m, ord, outs, k).calls.len() ==> #[trigger] plan_trace(
                kv,
                ts,
                tasks,
                config,
                m,
                ord,
                outs,
                k,
            ).calls[i] is Check,
    decreases k,
{
    if k > 0 {
        law_plan_runs_no_action(kv, ts, tasks, config, m, ord, outs, (k - 1) as nat);
    }
}

/// A check run calls check functions and nothing else: no task's action
/// runs.
pub proof fn law_check_runs_no_action(
    kv: Seq<Seq<char>>,
    ts: Seq<Target>,
    m0: Map<Seq<char>, Mark>,
    ord: Seq<int>,
    outs: Seq<Result<bool, Seq<char>>>,
    k: nat,
)
    ensures
        forall|i: int|
            0 <= i < check_trace(kv, ts, m0, ord, outs, k).calls.len() ==> #[trigger] check_trace(
                kv,
                ts,
                m0,
                ord,
                outs,
                k,
            ).calls[i] is Check,
    decreases k,
{
    if k > 0 {
        law_check_runs_no_action(kv, ts, m0, ord, outs, (k - 1) as nat);
    }
}

proof fn lemma_actions_push(calls: Seq<Call>, c: Call)
    ensures
        actions_in(calls.push(c)) == (match c {
            Call::Action(j, _) => actions_in(calls).push(j),
            Call::Check(..) => actions_in(calls),
        }),
{
    assert(calls.push(c).drop_last() =~= calls);
}

proof fn lemma_with_check_no_action(calls: Seq<Call>, runs: bool, i: int, o: Result<bool, Seq<char>>)
    ensures
        actions_in(with_check(calls, runs, i, o)) == actions_in(calls),
{
    lemma_actions_push(calls, Call::Check(i, o));
}

proof fn lemma_recheck_deps_no_action(
    kv: Seq<Seq<char>>,
    ts: Seq<Target>,
    sn: Seq<Seq<char>>,
    si: int,
    os: Seq<Result<bool, Seq<char>>>,
    a: ApplyAcc,
    r: nat,
)
    ensures
        actions_in(recheck_deps(kv, ts, sn, si, os, a, r).calls) == actions_in(a.calls),
    decreases r,
{
    if r > 0 {
        lemma_recheck_deps_no_action(kv, ts, sn, si, os, a, (r - 1) as nat);
        let b = recheck_deps(kv, ts, sn, si, os, a, (r - 1) as nat);
        let d = names_view(ts[si].depends_on@)[r - 1];
        if kv.contains(d) && ts[kv.index_of(d)].check is Some && !sn.contains(d) {
            let i = kv.index_of(d);
            lemma_with_check_no_action(b.calls, eval_runs_check(kv, b.sat, ts[i], mark_of(b.marks, ts[i].name@)), i, os[b.cur as int]);
        }
    }
}

proof fn lemma_recheck_sats_no_action(
    kv: Seq<Seq<char>>,
    ts: Seq<Target>,
    sn: Seq<Seq<char>>,
    ok: bool,
    os: Seq<Result<bool, Seq<char>>>,
    a: ApplyAcc,
    q: nat,
)
    ensures
        actions_in(recheck_sats(kv, ts, sn, ok, os, a, q).calls) == actions_in(a.calls),
    decreases q,
{
    if q > 0 {
        lemma_recheck_sats_no_action(kv, ts, sn, ok, os, a, (q - 1) as nat);
        let b = recheck_sats(kv, ts, sn, ok, os, a, (q - 1) as nat);
        let name = sn[q - 1];
        if kv.contains(name) && ok {
            let si = kv.index_of(name);
            lemma_recheck_deps_no_action(kv, ts, sn, si, os, b, ts[si].depends_on@.len());
            let c = recheck_deps(kv, ts, sn, si, os, b, ts[si].depends_on@.len());
            lemma_with_check_no_action(c.calls, eval_runs_check(kv, c.sat, ts[si], mark_of(c.marks, ts[si].name@)), si, os[c.cur as int]);
        }
    }
}

/// In an apply run, handling target `x` calls the action of task `j` when
/// `x` is not skipped (neither it nor anything it depends on is blocked),
/// is an aggregate (dependencies, no check) judged unsatisfied, `j` is the
/// first task that satisfies it, and `j` is enabled, has its dependencies
/// satisfied and has an action.
pub open spec fn acts_for(
    kv: Seq<Seq<char>>,
    ts: Seq<Target>,
    tasks: Seq<Task>,
    config: Config,
    a: ApplyAcc,
    x: int,
    o: Result<bool, Seq<char>>,
    j: int,
) -> bool {
    let t = ts[x];
    &&& !a.blocked[x]
    &&& !any_blocked(kv, a.blocked, names_view(t.depends_on@))
    &&& !any_blocked(kv, a.blocked, names_view(t.check_deps@))
    &&& t.check is None
    &&& t.depends_on@.len() > 0
    &&& eval_spec(kv, a.sat, t, mark_of(a.marks, t.name@), o).0 == Satisfaction::Unsatisfied
    &&& first_task_for(tasks, kv[x], j)
    &&& !task_disabled(names_view(tasks[j].labels@), config)
    &&& all_sat(kv, a.sat, names_view(tasks[j].depends_on@))
    &&& tasks[j].run is Some
}

/// In an apply run, handling a target calls at most one task action: that
/// of task `j` exactly when [`acts_for`] holds, and none otherwise. So no
/// action runs for a leaf, a stub, a target that is satisfied or skipped,
/// or a task that is disabled or waits on unsatisfied dependencies, and the
/// re-checks after a task only call check functions.
pub proof fn law_task_action_runs_only_when_due(
    kv: Seq<Seq<char>>,
    ts: Seq<Target>,
    tasks: Seq<Task>,
    config: Config,
    a: ApplyAcc,
    x: int,
    os: Seq<Result<bool, Seq<char>>>,
    ran: bool,
    j: int,
)
    requires
        0 <= x < ts.len(),
    ensures
        acts_for(kv, ts, tasks, config, a, x, os[0], j) ==> actions_in(
            apply_step(kv, ts, tasks, config, a, x, os, ran).calls,
        ) == actions_in(a.calls).push(j),
        (forall|j2: int| !#[trigger] acts_for(kv, ts, tasks, config, a, x, os[0], j2)) ==> actions_in(
            apply_step(kv, ts, tasks, config, a, x, os, ran).calls,
        ) == actions_in(a.calls),
{
    let t = ts[x];
    let judged = with_check(a.calls, eval_runs_check(kv, a.sat, t, mark_of(a.marks, t.name@)), x, os[0]);
    lemma_with_check_no_action(a.calls, eval_runs_check(kv, a.sat, t, mark_of(a.marks, t.name@)), x, os[0]);
    if acts_for(kv, ts, tasks, config, a, x, os[0], j) {
        assert(first_task_for(tasks, kv[x], j));
        let j1 = task_for(tasks, kv[x]).unwrap();
        assert(first_task_for(tasks, kv[x], j1));
        if j1 < j {
            assert(!names_view(tasks[j1].satisfies@).contains(kv[x]));
        }
        if j < j1 {
            assert(!names_view(tasks[j].satisfies@).contains(kv[x]));
        }
        assert(task_for(tasks, kv[x]) == Some(j));
    }
    match task_for(tasks, kv[x]) {
        Some(j1) => {
            let task = tasks[j1];
            let sn = names_view(task.satisfies@);
            let ok = if task.run is Some { ran } else { true };
            let acted = if task.run is Some { judged.push(Call::Action(j1, ran)) } else { judged };
            lemma_actions_push(judged, Call::Action(j1, ran));
            lemma_recheck_sats_no_action(kv, ts, sn, ok, os, ApplyAcc { cur: 1, calls: acted, ..a }, sn.len());
            assert(first_task_for(tasks, kv[x], j1));
            let due = acts_for(kv, ts, tasks, config, a, x, os[0], j1);
        },
        None => {},
    }
}

/// The task actions due in the first `k` positions of an apply run, in
/// order: at each position, the task for which [`acts_for`] holds, if any.
pub open spec fn due_actions(
    kv: Seq<Seq<char>>,
    ts: Seq<Target>,
    tasks: Seq<Task>,
    config: Config,
    m0: Map<Seq<char>, Mark>,
    ord: Seq<int>,
    oss: Seq<Seq<Result<bool, Seq<char>>>>,
    runs: Seq<bool>,
    k: nat,
) -> Seq<int>
    decreases k,
{
    if k == 0 {
        Seq::empty()
    } else {
        let rest = due_actions(kv, ts, tasks, config, m0, ord, oss, runs, (k - 1) as nat);
        let a = apply_trace(kv, ts, tasks, config, m0, ord, oss, runs, (k - 1) as nat);
        if exists|j: int| #[trigger] acts_for(kv, ts, tasks, config, a, ord[k - 1], oss[k - 1][0], j) {
            rest.push(choose|j: int| #[trigger] acts_for(kv, ts, tasks, config, a, ord[k - 1], oss[k - 1][0], j))
        } else {
            rest
        }
    }
}

proof fn lemma_trace_actions_due(
    kv: Seq<Seq<char>>,
    ts: Seq<Target>,
    tasks: Seq<Task>,
    config: Config,
    m0: Map<Seq<char>, Mark>,
    ord: Seq<int>,
    oss: Seq<Seq<Result<bool, Seq<char>>>>,
    runs: Seq<bool>,
    k: nat,
)
    requires
        k <= ord.len(),
        forall|q: int| 0 <= q < ord.len() ==> 0 <= #[trigger] ord[q] < ts.len(),
    ensures
        actions_in(apply_trace(kv, ts, tasks, config, m0, ord, oss, runs, k).calls) == due_actions(
            kv,
            ts,
            tasks,
            config,
            m0,
            ord,
            oss,
            runs,
            k,
        ),
    decreases k,
{
    if k > 0 {
        let p = (k - 1) as nat;
        lemma_trace_actions_due(kv, ts, tasks, config, m0, ord, oss, runs, p);
        let a = apply_trace(kv, ts, tasks, config, m0, ord, oss, runs, p);
        let x = ord[k - 1];
        let o = oss[k - 1][0];
        if exists|j: int| #[trigger] acts_for(kv, ts, tasks, config, a, x, o, j) {
            let j = choose|j: int| #[trigger] acts_for(kv, ts, tasks, config, a, x, o, j);
            law_task_action_runs_only_when_due(kv, ts, tasks, config, a, x, oss[k - 1], runs[k - 1], j);
        } else {
            law_task_action_runs_only_when_due(kv, ts, tasks, config, a, x, oss[k - 1], runs[k - 1], 0);
        }
    }
}

/// The task actions an apply run calls are exactly those due along its
/// order, in that order: at each position, the action of the task for
/// which [`acts_for`] holds, and nothing else.
pub proof fn law_apply_runs_exactly_due_actions(
    kv: Seq<Seq<char>>,
    ts: Seq<Target>,
    tasks: Seq<Task>,
    config: Config,
    m0: Map<Seq<char>, Mark>,
    req: Seq<Seq<char>>,
    ord: Seq<int>,
    oss: Seq<Seq<Result<bool, Seq<char>>>>,
    runs: Seq<bool>,
    m1: Map<Seq<char>, Mark>,
    steps: Seq<StepView>,
    calls: Seq<Call>,
)
    requires
        kv.len() == ts.len(),
        apply_run_is(kv, ts, tasks, config, m0, req, ord, oss, runs, m1, steps, calls),
    ensures
        actions_in(calls) == due_actions(kv, ts, tasks, config, m0, ord, oss, runs, ord.len()),
{
    assert forall|q: int| 0 <= q < ord.len() implies 0 <= #[trigger] ord[q] < ts.len() by {
        assert(crate::graph::relevant(kv, deps_of(ts), req, ord[q]));
    }
    lemma_trace_actions_due(kv, ts, tasks, config, m0, ord, oss, runs, ord.len());
}

/// A plan promises no task that a run would not start: when the task that
/// would bring an unsatisfied aggregate about is disabled by the label
/// filter or an exclusion, the plan reports the aggregate unsatisfied with
/// "(task disabled by label filter)", and neither it nor anything else is
/// marked as to be satisfied by a task.
pub proof fn law_plan_respects_label_filters(
    kv: Seq<Seq<char>>,
    ts: Seq<Target>,
    tasks: Seq<Task>,
    config: Config,
    m: Map<Seq<char>, Mark>,
    a: PlanAcc,
    x: int,
    o: Result<bool, Seq<char>>,
    j: int,
)
    requires
        0 <= x < ts.len(),
        !a.blocked[x],
        !any_blocked(kv, a.blocked, names_view(ts[x].depends_on@)),
        !any_blocked(kv, a.blocked, names_view(ts[x].check_deps@)),
        !a.would[x],
        ts[x].check is None,
        ts[x].depends_on@.len() > 0,
        eval_plan_spec(kv, a.sat, a.would, ts[x], mark_of(m, ts[x].name@), o).0 == Satisfaction::Unsatisfied,
        first_task_for(tasks, kv[x], j),
        task_disabled(names_view(tasks[j].labels@), config),
    ensures
        plan_step(kv, ts, tasks, config, m, a, x, o).steps == a.steps.push(
            step_of(kv, ts, x, Satisfaction::Unsatisfied, "(task disabled by label filter)"@),
        ),
        plan_step(kv, ts, tasks, config, m, a, x, o).sat == a.sat.update(x, Some(Satisfaction::Unsatisfied)),
        plan_step(kv, ts, tasks, config, m, a, x, o).would == a.would,
        plan_step(kv, ts, tasks, config, m, a, x, o).blocked == a.blocked,
{
    lemma_first_task_is_task_for(tasks, kv[x], j);
}

/// In an apply run, an unsatisfied aggregate whose task is disabled by the
/// label filter or an exclusion is reported unsatisfied with "(task disabled
/// by label filter)", as the plan reports it, and no task runs.
pub proof fn law_apply_respects_label_filters(
    kv: Seq<Seq<char>>,
    ts: Seq<Target>,
    tasks: Seq<Task>,
    config: Config,
    a: ApplyAcc,
    x: int,
    os: Seq<Result<bool, Seq<char>>>,
    ran: bool,
    j: int,
)
    requires
        0 <= x < ts.len(),
        !a.blocked[x],
        !any_blocked(kv, a.blocked, names_view(ts[x].depends_on@)),
        !any_blocked(kv, a.blocked, names_view(ts[x].check_deps@)),
        ts[x].check is None,
        ts[x].depends_on@.len() > 0,
        eval_spec(kv, a.sat, ts[x], mark_of(a.marks, ts[x].name@), os[0]).0 == Satisfaction::Unsatisfied,
        first_task_for(tasks, kv[x], j),
        task_disabled(names_view(tasks[j].labels@), config),
    ensures
        apply_step(kv, ts, tasks, config, a, x, os, ran).steps == a.steps.push(
            step_of(kv, ts, x, Satisfaction::Unsatisfied, "(task disabled by label filter)"@),
        ),
        apply_step(kv, ts, tasks, config, a, x, os, ran).sat == a.sat.update(x, Some(Satisfaction::Unsatisfied)),
        actions_in(apply_step(kv, ts, tasks, config, a, x, os, ran).calls) == actions_in(a.calls),
{
    lemma_first_task_is_task_for(tasks, kv[x], j);
    law_task_action_runs_only_when_due(kv, ts, tasks, config, a, x, os, ran, j);
    if exists|j2: int| #[trigger] acts_for(kv, ts, tasks, config, a, x, os[0], j2) {
        let j2 = choose|j2: int| #[trigger] acts_for(kv, ts, tasks, config, a, x, os[0], j2);
        lemma_first_task_unique(tasks, kv[x], j, j2);
    }
    law_task_action_runs_only_when_due(kv, ts, tasks, config, a, x, os, ran, 0);
}

proof fn lemma_first_task_unique(tasks: Seq<Task>, name: Seq<char>, j1: int, j2: int)
    requires
        first_task_for(tasks, name, j1),
        first_task_for(tasks, name, j2),
    ensures
        j1 == j2,
{
    if j1 < j2 {
        assert(!names_view(tasks[j1].satisfies@).contains(name));
    }
    if j2 < j1 {
        assert(!names_view(tasks[j2].satisfies@).contains(name));
    }
}

proof fn lemma_first_task_is_task_for(tasks: Seq<Task>, name: Seq<char>, j: int)
    requires
        first_task_for(tasks, name, j),
    ensures
        task_for(tasks, name) == Some(j),
{
    let j1 = choose|j1: int| #[trigger] first_task_for(tasks, name, j1);
    lemma_first_task_unique(tasks, name, j, j1);
}

/// The satisfaction that the last step in `steps` for the target named
/// `name` reports, if any.
pub open spec fn reported(steps: Seq<StepView>, name: Seq<char>) -> Option<Satisfaction>
    decreases steps.len(),
{
    if steps.len() == 0 {
        None
    } else if steps.last().0 == name {
        Some(steps.last().2)
    } else {
        reported(steps.drop_last(), name)
    }
}

proof fn lemma_reported_push(steps: Seq<StepView>, s: StepView, name: Seq<char>)
    ensures
        reported(steps.push(s), name) == (if s.0 == name {
            Some(s.2)
        } else {
            reported(steps, name)
        }),
{
    assert(steps.push(s).drop_last() =~= steps);
}

/// What an apply run holds for each target that is not skipped is what it
/// last reported for it.
pub open spec fn holds_reports(kv: Seq<Seq<char>>, a: ApplyAcc) -> bool {
    &&& a.sat.len() == kv.len()
    &&& a.blocked.len() == kv.len()
    &&& forall|i: int|
        0 <= i < kv.len() && !a.blocked[i] && #[trigger] reported(a.steps, kv[i]) is Some ==> a.sat[i] == reported(
            a.steps,
            kv[i],
        )
}

proof fn lemma_holds_after_report(kv: Seq<Seq<char>>, a: ApplyAcc, b: ApplyAcc, x: int, s: Satisfaction, st: StepView)
    requires
        kv.no_duplicates(),
        0 <= x < kv.len(),
        holds_reports(kv, a),
        st.0 == kv[x],
        st.2 == s,
        b.steps == a.steps.push(st),
        b.sat == a.sat.update(x, Some(s)),
        b.blocked.len() == kv.len(),
        forall|i: int| 0 <= i < kv.len() && i != x && !b.blocked[i] ==> !a.blocked[i],
    ensures
        holds_reports(kv, b),
{
    assert forall|i: int|
        0 <= i < kv.len() && !b.blocked[i] && #[trigger] reported(b.steps, kv[i]) is Some implies b.sat[i] == reported(
            b.steps,
            kv[i],
        ) by {
        lemma_reported_push(a.steps, st, kv[i]);
        if i != x {
            assert(kv[i] != kv[x]);
        }
    }
}

proof fn lemma_recheck_one_holds(
    kv: Seq<Seq<char>>,
    ts: Seq<Target>,
    os: Seq<Result<bool, Seq<char>>>,
    a: ApplyAcc,
    i: int,
)
    requires
        kv.no_duplicates(),
        0 <= i < kv.len(),
        holds_reports(kv, a),
    ensures
        holds_reports(kv, recheck_one(kv, ts, os, a, i)),
{
    let r = recheck_one(kv, ts, os, a, i);
    lemma_holds_after_report(kv, a, r, i, r.steps.last().2, r.steps.last());
}

proof fn lemma_recheck_deps_holds(
    kv: Seq<Seq<char>>,
    ts: Seq<Target>,
    sn: Seq<Seq<char>>,
    si: int,
    os: Seq<Result<bool, Seq<char>>>,
    a: ApplyAcc,
    r: nat,
)
    requires
        kv.no_duplicates(),
        holds_reports(kv, a),
    ensures
        holds_reports(kv, recheck_deps(kv, ts, sn, si, os, a, r)),
    decreases r,
{
    if r > 0 {
        lemma_recheck_deps_holds(kv, ts, sn, si, os, a, (r - 1) as nat);
        let b = recheck_deps(kv, ts, sn, si, os, a, (r - 1) as nat);
        let d = names_view(ts[si].depends_on@)[r - 1];
        if kv.contains(d) && ts[kv.index_of(d)].check is Some && !sn.contains(d) {
            lemma_recheck_one_holds(kv, ts, os, b, kv.index_of(d));
        }
    }
}

proof fn lemma_recheck_sats_holds(
    kv: Seq<Seq<char>>,
    ts: Seq<Target>,
    sn: Seq<Seq<char>>,
    ok: bool,
    os: Seq<Result<bool, Seq<char>>>,
    a: ApplyAcc,
    q: nat,
)
    requires
        kv.no_duplicates(),
        holds_reports(kv, a),
    ensures
        holds_reports(kv, recheck_sats(kv, ts, sn, ok, os, a, q)),
    decreases q,
{
    if q > 0 {
        lemma_recheck_sats_holds(kv, ts, sn, ok, os, a, (q - 1) as nat);
        let b = recheck_sats(kv, ts, sn, ok, os, a, (q - 1) as nat);
        let name = sn[q - 1];
        if kv.contains(name) {
            let si = kv.index_of(name);
            if ok {
                lemma_recheck_deps_holds(kv, ts, sn, si, os, b, ts[si].depends_on@.len());
                let c = recheck_deps(kv, ts, sn, si, os, b, ts[si].depends_on@.len());
                lemma_recheck_one_holds(kv, ts, os, c, si);
            } else {
                let r = recheck_sats(kv, ts, sn, ok, os, a, q);
                lemma_holds_after_report(kv, b, r, si, Satisfaction::Unsatisfied, r.steps.last());
            }
        }
    }
}

/// Handling one target of an apply run keeps what the run holds for every
/// target not skipped equal to what it last reported for it: in particular
/// the leaves re-checked after a task count, for the targets judged after
/// them, as they were just reported.
pub proof fn law_apply_step_holds_what_it_reports(
    kv: Seq<Seq<char>>,
    ts: Seq<Target>,
    tasks: Seq<Task>,
    config: Config,
    a: ApplyAcc,
    x: int,
    os: Seq<Result<bool, Seq<char>>>,
    ran: bool,
)
    requires
        kv.no_duplicates(),
        0 <= x < kv.len(),
        holds_reports(kv, a),
    ensures
        holds_reports(kv, apply_step(kv, ts, tasks, config, a, x, os, ran)),
{
    let t = ts[x];
    let r = apply_step(kv, ts, tasks, config, a, x, os, ran);
    if a.blocked[x] || any_blocked(kv, a.blocked, names_view(t.depends_on@)) || any_blocked(
        kv,
        a.blocked,
        names_view(t.check_deps@),
    ) {
        assert forall|i: int|
            0 <= i < kv.len() && !r.blocked[i] && #[trigger] reported(r.steps, kv[i]) is Some implies r.sat[i] == reported(
                r.steps,
                kv[i],
            ) by {
            lemma_reported_push(a.steps, r.steps.last(), kv[i]);
            assert(r.steps == a.steps.push(r.steps.last()));
            if i != x {
                assert(kv[i] != kv[x]);
            }
        }
    } else {
        let e = eval_spec(kv, a.sat, t, mark_of(a.marks, t.name@), os[0]);
        if e.0 == Satisfaction::Satisfied || t.check is Some || t.spec_is_stub() {
            lemma_holds_after_report(kv, a, r, x, r.steps.last().2, r.steps.last());
        } else {
            match task_for(tasks, kv[x]) {
                None => {
                    lemma_holds_after_report(kv, a, r, x, r.steps.last().2, r.steps.last());
                },
                Some(j) => {
                    let task = tasks[j];
                    let sn = names_view(task.satisfies@);
                    if task_disabled(names_view(task.labels@), config) || !all_sat(
                        kv,
                        a.sat,
                        names_view(task.depends_on@),
                    ) {
                        lemma_holds_after_report(kv, a, r, x, r.steps.last().2, r.steps.last());
                    } else {
                        let ok = if task.run is Some { ran } else { true };
                        let judged = with_check(a.calls, eval_runs_check(kv, a.sat, t, mark_of(a.marks, t.name@)), x, os[0]);
                        let acted = if task.run is Some { judged.push(Call::Action(j, ran)) } else { judged };
                        lemma_recheck_sats_holds(kv, ts, sn, ok, os, ApplyAcc { cur: 1, calls: acted, ..a }, sn.len());
                    }
                },
            }
        }
    }
}

/// Throughout an apply run, the satisfaction it holds for each target that
/// is not skipped is the one it last reported for that target; targets are
/// judged against exactly what the run has reported so far.
pub proof fn law_apply_run_holds_what_it_reports(
    kv: Seq<Seq<char>>,
    ts: Seq<Target>,
    tasks: Seq<Task>,
    config: Config,
    m0: Map<Seq<char>, Mark>,
    ord: Seq<int>,
    oss: Seq<Seq<Result<bool, Seq<char>>>>,
    runs: Seq<bool>,
    k: nat,
)
    requires
        kv.no_duplicates(),
        k <= ord.len(),
        forall|q: int| 0 <= q < ord.len() ==> 0 <= #[trigger] ord[q] < kv.len(),
    ensures
        holds_reports(kv, apply_trace(kv, ts, tasks, config, m0, ord, oss, runs, k)),
    decreases k,
{
    if k > 0 {
        law_apply_run_holds_what_it_reports(kv, ts, tasks, config, m0, ord, oss, runs, (k - 1) as nat);
        law_apply_step_holds_what_it_reports(
            kv,
            ts,
            tasks,
            config,
            apply_trace(kv, ts, tasks, config, m0, ord, oss, runs, (k - 1) as nat),
            ord[k - 1],
            oss[k - 1],
            runs[k - 1],
        );
    }
}

/// The marks `m` remember, for every target reported in `steps` that was
/// not overridden by hand in `m0`, the satisfaction last reported for it,
/// as a check result; and no target is overridden by hand in `m` that was
/// not in `m0`.
pub open spec fn remembers_reports(m0: Map<Seq<char>, Mark>, m: Map<Seq<char>, Mark>, steps: Seq<StepView>) -> bool {
    &&& forall|name: Seq<char>|
        #[trigger] reported(steps, name) is Some && !(m0.contains_key(name) && m0[name].1) ==> m.contains_key(name)
            && m[name] == (Some(reported(steps, name) == Some(Satisfaction::Satisfied)), false)
    &&& forall|name: Seq<char>| #[trigger] m.contains_key(name) && m[name].1 ==> m0.contains_key(name) && m0[name].1
}

proof fn lemma_check_trace_remembers(
    kv: Seq<Seq<char>>,
    ts: Seq<Target>,
    m0: Map<Seq<char>, Mark>,
    ord: Seq<int>,
    outs: Seq<Result<bool, Seq<char>>>,
    k: nat,
)
    ensures
        remembers_reports(m0, check_trace(kv, ts, m0, ord, outs, k).marks, check_trace(kv, ts, m0, ord, outs, k).steps),
    decreases k,
{
    if k > 0 {
        lemma_check_trace_remembers(kv, ts, m0, ord, outs, (k - 1) as nat);
        let a = check_trace(kv, ts, m0, ord, outs, (k - 1) as nat);
        let r = check_trace(kv, ts, m0, ord, outs, k);
        let x = ord[k - 1];
        let st = r.steps.last();
        assert(r.steps == a.steps.push(st));
        assert forall|name: Seq<char>|
            #[trigger] reported(r.steps, name) is Some && !(m0.contains_key(name) && m0[name].1) implies r.marks.contains_key(name)
                && r.marks[name] == (Some(reported(r.steps, name) == Some(Satisfaction::Satisfied)), false) by {
            lemma_reported_push(a.steps, st, name);
            if name != kv[x] {
                assert(reported(a.steps, name) is Some);
            }
        }
        assert forall|name: Seq<char>| #[trigger] r.marks.contains_key(name) && r.marks[name].1 implies m0.contains_key(name)
            && m0[name].1 by {
            if name != kv[x] {
                assert(a.marks.contains_key(name) && a.marks[name].1);
            }
        }
    } else {
        assert forall|name: Seq<char>| #[trigger] reported(Seq::<StepView>::empty(), name) is None by {
        }
    }
}

/// A check run remembers what it reported: after the run, every target it
/// reported and that is not overridden by hand has, as its check result,
/// whether its last step reported it satisfied; overrides made by hand are
/// the only marks the run does not write.
pub proof fn law_check_run_remembers_what_it_reports(
    kv: Seq<Seq<char>>,
    ts: Seq<Target>,
    m0: Map<Seq<char>, Mark>,
    req: Seq<Seq<char>>,
    ord: Seq<int>,
    outs: Seq<Result<bool, Seq<char>>>,
    m1: Map<Seq<char>, Mark>,
    steps: Seq<StepView>,
    calls: Seq<Call>,
)
    requires
        check_run_is(kv, ts, m0, req, ord, outs, m1, steps, calls),
    ensures
        remembers_reports(m0, m1, steps),
{
    lemma_check_trace_remembers(kv, ts, m0, ord, outs, ord.len());
}

/// Every mark that `m` holds and `m0` did not hold (with that value) is a
/// check result, not an override, and is the satisfaction that some step of
/// `steps` reported for that target.
pub open spec fn writes_reported(m0: Map<Seq<char>, Mark>, m: Map<Seq<char>, Mark>, steps: Seq<StepView>) -> bool {
    forall|name: Seq<char>|
        #[trigger] m.contains_key(name) && !(m0.contains_key(name) && m0[name] == m[name]) ==> !m[name].1 && exists|k: int|
            0 <= k < steps.len() && #[trigger] steps[k].0 == name && m[name] == (
                Some(steps[k].2 == Satisfaction::Satisfied),
                false,
            )
}

proof fn lemma_writes_push(
    m0: Map<Seq<char>, Mark>,
    m: Map<Seq<char>, Mark>,
    steps: Seq<StepView>,
    st: StepView,
    recorded: bool,
)
    requires
        writes_reported(m0, m, steps),
    ensures
        writes_reported(
            m0,
            if recorded {
                record(m, st.0, st.2 == Satisfaction::Satisfied)
            } else {
                m
            },
            steps.push(st),
        ),
{
    let m2 = if recorded {
        record(m, st.0, st.2 == Satisfaction::Satisfied)
    } else {
        m
    };
    let s2 = steps.push(st);
    assert forall|name: Seq<char>|
        #[trigger] m2.contains_key(name) && !(m0.contains_key(name) && m0[name] == m2[name]) implies !m2[name].1
            && exists|k: int|
            0 <= k < s2.len() && #[trigger] s2[k].0 == name && m2[name] == (
                Some(s2[k].2 == Satisfaction::Satisfied),
                false,
            ) by {
        if m2.contains_key(name) && m.contains_key(name) && m2[name] == m[name] {
            let k = choose|k: int|
                0 <= k < steps.len() && #[trigger] steps[k].0 == name && m[name] == (
                    Some(steps[k].2 == Satisfaction::Satisfied),
                    false,
                );
            assert(s2[k] == steps[k]);
        } else {
            assert(s2[steps.len() as int] == st);
        }
    }
}

proof fn lemma_recheck_deps_writes(
    kv: Seq<Seq<char>>,
    ts: Seq<Target>,
    m0: Map<Seq<char>, Mark>,
    sn: Seq<Seq<char>>,
    si: int,
    os: Seq<Result<bool, Seq<char>>>,
    a: ApplyAcc,
    r: nat,
)
    requires
        writes_reported(m0, a.marks, a.steps),
    ensures
        writes_reported(m0, recheck_deps(kv, ts, sn, si, os, a, r).marks, recheck_deps(kv, ts, sn, si, os, a, r).steps),
    decreases r,
{
    if r > 0 {
        lemma_recheck_deps_writes(kv, ts, m0, sn, si, os, a, (r - 1) as nat);
        let b = recheck_deps(kv, ts, sn, si, os, a, (r - 1) as nat);
        let d = names_view(ts[si].depends_on@)[r - 1];
        if kv.contains(d) && ts[kv.index_of(d)].check is Some && !sn.contains(d) {
            let c = recheck_one(kv, ts, os, b, kv.index_of(d));
            lemma_writes_push(m0, b.marks, b.steps, c.steps.last(), true);
            assert(c.steps == b.steps.push(c.steps.last()));
        }
    }
}

proof fn lemma_recheck_sats_writes(
    kv: Seq<Seq<char>>,
    ts: Seq<Target>,
    m0: Map<Seq<char>, Mark>,
    sn: Seq<Seq<char>>,
    ok: bool,
    os: Seq<Result<bool, Seq<char>>>,
    a: ApplyAcc,
    q: nat,
)
    requires
        writes_reported(m0, a.marks, a.steps),
    ensures
        writes_reported(m0, recheck_sats(kv, ts, sn, ok, os, a, q).marks, recheck_sats(kv, ts, sn, ok, os, a, q).steps),
    decreases q,
{
    if q > 0 {
        lemma_recheck_sats_writes(kv, ts, m0, sn, ok, os, a, (q - 1) as nat);
        let b = recheck_sats(kv, ts, sn, ok, os, a, (q - 1) as nat);
        let name = sn[q - 1];
        if kv.contains(name) {
            let si = kv.index_of(name);
            let r = recheck_sats(kv, ts, sn, ok, os, a, q);
            if ok {
                lemma_recheck_deps_writes(kv, ts, m0, sn, si, os, b, ts[si].depends_on@.len());
                let c = recheck_deps(kv, ts, sn, si, os, b, ts[si].depends_on@.len());
                lemma_writes_push(m0, c.marks, c.steps, r.steps.last(), true);
                assert(r.steps == c.steps.push(r.steps.last()));
            } else {
                lemma_writes_push(m0, b.marks, b.steps, r.steps.last(), true);
                assert(r.steps == b.steps.push(r.steps.last()));
            }
        }
    }
}

/// Handling one target of an apply run writes no mark that it did not
/// report: each check result it records is the satisfaction of a step it
/// reported for that target.
pub proof fn law_apply_step_writes_what_it_reports(
    kv: Seq<Seq<char>>,
    ts: Seq<Target>,
    tasks: Seq<Task>,
    config: Config,
    m0: Map<Seq<char>, Mark>,
    a: ApplyAcc,
    x: int,
    os: Seq<Result<bool, Seq<char>>>,
    ran: bool,
)
    requires
        0 <= x < kv.len(),
        writes_reported(m0, a.marks, a.steps),
    ensures
        writes_reported(
            m0,
            apply_step(kv, ts, tasks, config, a, x, os, ran).marks,
            apply_step(kv, ts, tasks, config, a, x, os, ran).steps,
        ),
{
    let t = ts[x];
    let r = apply_step(kv, ts, tasks, config, a, x, os, ran);
    if a.blocked[x] || any_blocked(kv, a.blocked, names_view(t.depends_on@)) || any_blocked(
        kv,
        a.blocked,
        names_view(t.check_deps@),
    ) {
        lemma_writes_push(m0, a.marks, a.steps, r.steps.last(), false);
        assert(r.steps == a.steps.push(r.steps.last()));
    } else {
        let e = eval_spec(kv, a.sat, t, mark_of(a.marks, t.name@), os[0]);
        if e.0 == Satisfaction::Satisfied {
            lemma_writes_push(m0, a.marks, a.steps, r.steps.last(), true);
            assert(r.steps == a.steps.push(r.steps.last()));
        } else if t.check is Some || t.spec_is_stub() {
            lemma_writes_push(m0, a.marks, a.steps, r.steps.last(), false);
            assert(r.steps == a.steps.push(r.steps.last()));
        } else {
            match task_for(tasks, kv[x]) {
                None => {
                    lemma_writes_push(m0, a.marks, a.steps, r.steps.last(), false);
                    assert(r.steps == a.steps.push(r.steps.last()));
                },
                Some(j) => {
                    let task = tasks[j];
                    let sn = names_view(task.satisfies@);
                    if task_disabled(names_view(task.labels@), config) || !all_sat(
                        kv,
                        a.sat,
                        names_view(task.depends_on@),
                    ) {
                        lemma_writes_push(m0, a.marks, a.steps, r.steps.last(), false);
                        assert(r.steps == a.steps.push(r.steps.last()));
                    } else {
                        let ok = if task.run is Some { ran } else { true };
                        let judged = with_check(a.calls, eval_runs_check(kv, a.sat, t, mark_of(a.marks, t.name@)), x, os[0]);
                        let acted = if task.run is Some { judged.push(Call::Action(j, ran)) } else { judged };
                        lemma_recheck_sats_writes(kv, ts, m0, sn, ok, os, ApplyAcc { cur: 1, calls: acted, ..a }, sn.len());
                    }
                },
            }
        }
    }
}

proof fn lemma_apply_trace_writes(
    kv: Seq<Seq<char>>,
    ts: Seq<Target>,
    tasks: Seq<Task>,
    config: Config,
    m0: Map<Seq<char>, Mark>,
    ord: Seq<int>,
    oss: Seq<Seq<Result<bool, Seq<char>>>>,
    runs: Seq<bool>,
    k: nat,
)
    requires
        k <= ord.len(),
        forall|q: int| 0 <= q < ord.len() ==> 0 <= #[trigger] ord[q] < kv.len(),
    ensures
        writes_reported(
            m0,
            apply_trace(kv, ts, tasks, config, m0, ord, oss, runs, k).marks,
            apply_trace(kv, ts, tasks, config, m0, ord, oss, runs, k).steps,
        ),
    decreases k,
{
    if k > 0 {
        lemma_apply_trace_writes(kv, ts, tasks, config, m0, ord, oss, runs, (k - 1) as nat);
        law_apply_step_writes_what_it_reports(
            kv,
            ts,
            tasks,
            config,
            m0,
            apply_trace(kv, ts, tasks, config, m0, ord, oss, runs, (k - 1) as nat),
            ord[k - 1],
            oss[k - 1],
            runs[k - 1],
        );
    }
}

/// An apply run remembers nothing it did not report: every mark it leaves
/// that differs from the state it started from is a check result (never an
/// override) equal to the satisfaction of one of the steps it reported for
/// that target.
pub proof fn law_apply_run_writes_what_it_reports(
    kv: Seq<Seq<char>>,
    ts: Seq<Target>,
    tasks: Seq<Task>,
    config: Config,
    m0: Map<Seq<char>, Mark>,
    req: Seq<Seq<char>>,
    ord: Seq<int>,
    oss: Seq<Seq<Result<bool, Seq<char>>>>,
    runs: Seq<bool>,
    m1: Map<Seq<char>, Mark>,
    steps: Seq<StepView>,
    calls: Seq<Call>,
)
    requires
        apply_run_is(kv, ts, tasks, config, m0, req, ord, oss, runs, m1, steps, calls),
    ensures
        writes_reported(m0, m1, steps),
{
    assert forall|q: int| 0 <= q < ord.len() implies 0 <= #[trigger] ord[q] < kv.len() by {
        assert(crate::graph::relevant(kv, deps_of(ts), req, ord[q]));
    }
    lemma_apply_trace_writes(kv, ts, tasks, config, m0, ord, oss, runs, ord.len());
}

} // verus!
