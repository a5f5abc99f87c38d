//! The command line as values: the subcommand, the execution filters, the
//! state overrides, and what running them does to an [`App`].
use vstd::prelude::*;

use crate::app::{
    apply_run_is, check_run_is, lemma_marks_insert, lemma_marks_remove, marks, plan_run_is,
    validation_error_is, App, Config, Mark, ValidationError,
};
use crate::render::{render_steps, step_line};
use crate::state::TargetStateView;
use crate::target::names_view;
use crate::text::{decimal, lemma_lex_total, lemma_lex_trans, lex_lt, same_text, str_lt};
use crate::task::Task;
use crate::{steps_view, Call, StepView};

verus! {

/// Parsed command-line arguments.
///
/// Every subcommand supports execution filters (`label`/`exclude_label`)
/// and state overrides (`set`/`unset`/`recheck`).
pub struct Cli {
    pub command: Option<Command>,
    /// Filter by task label
    pub label: Vec<String>,
    /// Exclude tasks with label
    pub exclude_label: Vec<String>,
    /// Manually set target satisfaction: `NAME` or `NAME=bool`
    pub set: Vec<String>,
    /// Manually unset target satisfaction
    pub unset: Vec<String>,
    /// Re-check a target (clear remembered state)
    pub recheck: Vec<String>,
    /// Show target descriptions (always shown for unsatisfied targets)
    pub show_descriptions: bool,
    /// Suppress the startup banner
    pub no_banner: bool,
}

/// Available subcommands.
pub enum Command {
    /// Check target satisfaction
    Check { targets: Vec<String> },
    /// Plan what would change (dry-run)
    Plan { targets: Vec<String> },
    /// Apply: satisfy targets by running tasks
    Apply { targets: Vec<String> },
}

/// Which run a command line asks for.
pub enum RunKind {
    Check,
    Plan,
    Apply,
}

/// The run asked for; `apply` when no subcommand is given.
pub open spec fn run_kind(cli: Cli) -> RunKind {
    match cli.command {
        Some(Command::Check { .. }) => RunKind::Check,
        Some(Command::Plan { .. }) => RunKind::Plan,
        _ => RunKind::Apply,
    }
}

/// The targets named on the command line; none (meaning all) when no
/// subcommand is given.
pub open spec fn run_targets(cli: Cli) -> Seq<Seq<char>> {
    match cli.command {
        Some(Command::Check { targets }) => names_view(targets@),
        Some(Command::Plan { targets }) => names_view(targets@),
        Some(Command::Apply { targets }) => names_view(targets@),
        None => Seq::empty(),
    }
}

/// `i` is the position of the first `=` in `s`.
pub open spec fn first_eq_at(s: Seq<char>, i: int) -> bool {
    0 <= i < s.len() && s[i] == '=' && forall|k: int| 0 <= k < i ==> s[k] != '='
}

/// What a `--set` argument asks for: `NAME=VALUE` sets `NAME` to
/// satisfied unless `VALUE` is `false`; a bare `NAME` sets it to satisfied.
pub open spec fn set_override(s: Seq<char>) -> (Seq<char>, bool) {
    if exists|i: int| first_eq_at(s, i) {
        let i = choose|i: int| first_eq_at(s, i);
        (s.take(i), s.skip(i + 1) != "false"@)
    } else {
        (s, true)
    }
}

/// Splits a `--set` argument into the target name and the satisfaction to
/// record.
pub fn parse_set(arg: &str) -> (r: (String, bool))
    ensures
        (r.0@, r.1) == set_override(arg@),
{
    let n = arg.unicode_len();
    let mut i: usize = 0;
    while i < n && arg.get_char(i) != '='
        invariant
            n == arg@.len(),
            i <= n,
            forall|k: int| 0 <= k < i ==> arg@[k] != '=',
        decreases n - i,
    {
        i = i + 1;
    }
    if i == n {
        proof {
            if exists|j: int| first_eq_at(arg@, j) {
                let j = choose|j: int| first_eq_at(arg@, j);
                assert(arg@[j] != '=');
            }
        }
        (arg.to_owned(), true)
    } else {
        let name = arg.substring_char(0, i).to_owned();
        let value = arg.substring_char(i + 1, n);
        let satisfied = !same_text(value, "false");
        proof {
            assert(first_eq_at(arg@, i as int));
            let j = choose|j: int| first_eq_at(arg@, j);
            if j < i {
                assert(arg@[j] != '=');
            }
            if i < j {
                assert(arg@[i as int] != '=');
            }
            assert(j == i);
            assert(name@ =~= arg@.take(i as int));
            assert(value@ =~= arg@.skip(i + 1));
        }
        (name, satisfied)
    }
}

/// The marks after recording each `--set` argument in order.
pub open spec fn with_sets(m: Map<Seq<char>, Mark>, sets: Seq<Seq<char>>) -> Map<Seq<char>, Mark>
    decreases sets.len(),
{
    if sets.len() == 0 {
        m
    } else {
        let o = set_override(sets.last());
        with_sets(m, sets.drop_last()).insert(o.0, (Some(o.1), true))
    }
}

/// The marks after forgetting each named target in order.
pub open spec fn without(m: Map<Seq<char>, Mark>, names: Seq<Seq<char>>) -> Map<Seq<char>, Mark>
    decreases names.len(),
{
    if names.len() == 0 {
        m
    } else {
        without(m, names.drop_last()).remove(names.last())
    }
}

/// The marks after all overrides of a command line: the `--set` arguments,
/// then the `--unset` ones, then the `--recheck` ones.
pub open spec fn overridden(m: Map<Seq<char>, Mark>, cli: Cli) -> Map<Seq<char>, Mark> {
    without(without(with_sets(m, names_view(cli.set@)), names_view(cli.unset@)), names_view(cli.recheck@))
}

/// One of the first `i` `--set` arguments names `k`.
pub open spec fn set_among(sets: Seq<String>, i: int, k: Seq<char>) -> bool {
    exists|i2: int| 0 <= i2 < i && #[trigger] set_override(sets[i2]@).0 == k
}

/// The names that the overrides of `cli` act on.
pub open spec fn overridden_names(cli: Cli) -> Set<Seq<char>> {
    Set::new(
        |k: Seq<char>|
            set_among(cli.set@, cli.set@.len() as int, k) || names_view(cli.unset@).contains(k) || names_view(
                cli.recheck@,
            ).contains(k),
    )
}

fn forget_all(app: &mut App, names: &Vec<String>)
    requires
        old(app).wf(),
    ensures
        final(app).wf(),
        final(app).tkeys() == old(app).tkeys(),
        final(app).tvals() == old(app).tvals(),
        final(app).skeys() == old(app).skeys(),
        final(app).svals() == old(app).svals(),
        marks(final(app).st()) == without(marks(old(app).st()), names_view(names@)),
        forall|k: Seq<char>|
            !names_view(names@).contains(k) ==> (#[trigger] final(app).st().contains_key(k) == old(app).st().contains_key(k))
                && (old(app).st().contains_key(k) ==> final(app).st()[k] == old(app).st()[k]),
{
    let ghost m0 = marks(app.st());
    let ghost s0 = app.st();
    let ghost ns = names_view(names@);
    let mut i: usize = 0;
    while i < names.len()
        invariant
            i <= names@.len(),
            ns == names_view(names@),
            app.wf(),
            app.tkeys() == old(app).tkeys(),
            app.tvals() == old(app).tvals(),
            app.skeys() == old(app).skeys(),
            app.svals() == old(app).svals(),
            marks(app.st()) == without(m0, ns.take(i as int)),
            forall|k: Seq<char>|
                !ns.take(i as int).contains(k) ==> (#[trigger] app.st().contains_key(k) == s0.contains_key(k)) && (
                s0.contains_key(k) ==> app.st()[k] == s0[k]),
        decreases names@.len() - i,
    {
        let ghost before = app.st();
        app.state_mut().unset(names[i].as_str());
        proof {
            assert forall|k: Seq<char>| !ns.take(i + 1).contains(k) implies (#[trigger] app.st().contains_key(k)
                == s0.contains_key(k)) && (s0.contains_key(k) ==> app.st()[k] == s0[k]) by {
                assert(ns.take(i + 1)[i as int] == names@[i as int]@);
                if ns.take(i as int).contains(k) {
                    let q = choose|q: int| 0 <= q < ns.take(i as int).len() && ns.take(i as int)[q] == k;
                    assert(ns.take(i + 1)[q] == k);
                }
            }
            lemma_marks_remove(before, names@[i as int]@);
            assert(ns.take(i + 1).drop_last() =~= ns.take(i as int));
            assert(ns.take(i + 1).last() == names@[i as int]@);
        }
        i = i + 1;
    }
    proof {
        assert(ns.take(names@.len() as int) =~= ns);
        assert forall|k: Seq<char>| !ns.contains(k) implies (#[trigger] app.st().contains_key(k) == s0.contains_key(k))
            && (s0.contains_key(k) ==> app.st()[k] == s0[k]) by {
            assert(!ns.take(names@.len() as int).contains(k));
        }
    }
}

/// Records the `--set`, `--unset` and `--recheck` overrides of `cli` in
/// the state of `app`, in that order. Registered targets and tasks are
/// untouched.
pub fn apply_overrides(app: &mut App, cli: &Cli)
    requires
        old(app).wf(),
    ensures
        final(app).wf(),
        final(app).tkeys() == old(app).tkeys(),
        final(app).tvals() == old(app).tvals(),
        final(app).skeys() == old(app).skeys(),
        final(app).svals() == old(app).svals(),
        marks(final(app).st()) == overridden(marks(old(app).st()), *cli),
        forall|k: Seq<char>|
            !overridden_names(*cli).contains(k) ==> (#[trigger] final(app).st().contains_key(k) == old(app).st().contains_key(
                k,
            )) && (old(app).st().contains_key(k) ==> final(app).st()[k] == old(app).st()[k]),
{
    let ghost m0 = marks(app.st());
    let ghost s0 = app.st();
    let ghost ss = names_view(cli.set@);
    let mut i: usize = 0;
    while i < cli.set.len()
        invariant
            i <= cli.set@.len(),
            ss == names_view(cli.set@),
            app.wf(),
            app.tkeys() == old(app).tkeys(),
            app.tvals() == old(app).tvals(),
            app.skeys() == old(app).skeys(),
            app.svals() == old(app).svals(),
            marks(app.st()) == with_sets(m0, ss.take(i as int)),
            forall|k: Seq<char>|
                !set_among(cli.set@, i as int, k) ==> (#[trigger] app.st().contains_key(k) == s0.contains_key(k)) && (
                s0.contains_key(k) ==> app.st()[k] == s0[k]),
        decreases cli.set@.len() - i,
    {
        let ghost before = app.st();
        let (name, satisfied) = parse_set(cli.set[i].as_str());
        app.state_mut().set(name.as_str(), satisfied);
        proof {
            assert forall|k: Seq<char>| !set_among(cli.set@, i + 1, k) implies (#[trigger] app.st().contains_key(k)
                == s0.contains_key(k)) && (s0.contains_key(k) ==> app.st()[k] == s0[k]) by {
                assert(set_override(cli.set@[i as int]@).0 == name@);
                if k == name@ {
                    assert(set_among(cli.set@, i + 1, k));
                }
                if set_among(cli.set@, i as int, k) {
                    let i2 = choose|i2: int| 0 <= i2 < i && #[trigger] set_override(cli.set@[i2]@).0 == k;
                    assert(set_among(cli.set@, i + 1, k));
                }
            }
            let stamp = choose|stamp: nat|
                app.st() == before.insert(
                    name@,
                    TargetStateView { satisfied: Some(satisfied), manually_set: true, checked_at: Some(decimal(stamp)) },
                );
            let t = decimal(stamp);
            lemma_marks_insert(
                before,
                name@,
                TargetStateView { satisfied: Some(satisfied), manually_set: true, checked_at: Some(t) },
            );
            assert(ss.take(i + 1).drop_last() =~= ss.take(i as int));
            assert(ss.take(i + 1).last() == cli.set@[i as int]@);
        }
        i = i + 1;
    }
    proof {
        assert(ss.take(cli.set@.len() as int) =~= ss);
    }
    let ghost s1 = app.st();
    forget_all(app, &cli.unset);
    let ghost s2 = app.st();
    forget_all(app, &cli.recheck);
    proof {
        assert forall|k: Seq<char>| !overridden_names(*cli).contains(k) implies (#[trigger] app.st().contains_key(k)
            == s0.contains_key(k)) && (s0.contains_key(k) ==> app.st()[k] == s0[k]) by {
            assert(!set_among(cli.set@, cli.set@.len() as int, k));
            assert(!names_view(cli.unset@).contains(k));
            assert(!names_view(cli.recheck@).contains(k));
            assert(s1.contains_key(k) == s0.contains_key(k));
            assert(s2.contains_key(k) == s1.contains_key(k));
        }
    }
}

/// `config` carries the filters of `cli`: the labels to require, when any
/// were given, and the labels to exclude.
pub open spec fn config_of_cli(config: Config, cli: Cli) -> bool {
    &&& names_view(config.exclude_labels@) == names_view(cli.exclude_label@)
    &&& if cli.label@.len() == 0 {
        config.label_filter is None
    } else {
        config.label_filter matches Some(f) && names_view(f@) == names_view(cli.label@)
    }
}

fn copy_names(v: &Vec<String>) -> (r: Vec<String>)
    ensures
        names_view(r@) == names_view(v@),
{
    let mut r: Vec<String> = Vec::new();
    let mut i: usize = 0;
    while i < v.len()
        invariant
            i <= v@.len(),
            names_view(r@) == names_view(v@).take(i as int),
        decreases v@.len() - i,
    {
        let c = v[i].clone();
        proof {
            assert(c@ == v@[i as int]@);
        }
        let ghost prev = r@;
        r.push(c);
        proof {
            assert(names_view(r@) =~= names_view(prev).push(c@));
            assert(names_view(r@) =~= names_view(v@).take(i + 1));
        }
        i = i + 1;
    }
    proof {
        assert(names_view(v@).take(v@.len() as int) =~= names_view(v@));
    }
    r
}

/// The execution filters of `cli`.
pub fn config_of(cli: &Cli) -> (c: Config)
    ensures
        config_of_cli(c, *cli),
{
    let label_filter = if cli.label.len() == 0 {
        None
    } else {
        Some(copy_names(&cli.label))
    };
    Config { label_filter, exclude_labels: copy_names(&cli.exclude_label) }
}

/// `lines` show `steps`, one line each, in order.
pub open spec fn lines_show(
    lines: Seq<Seq<char>>,
    steps: Seq<StepView>,
    is_plan: bool,
    show_descriptions: bool,
    color: bool,
) -> bool {
    &&& lines.len() == steps.len()
    &&& forall|i: int|
        0 <= i < lines.len() ==> #[trigger] lines[i] == step_line(steps[i], is_plan, show_descriptions, color)
}

/// What running the subcommand of `cli` on a valid registry gives: the
/// run's steps, shown as `lines`, the marks it leaves (`m1`, from `m0`) and
/// the user closures it called (`calls`). A plan leaves the marks as they
/// were.
pub open spec fn command_run_is(
    kv: Seq<Seq<char>>,
    ts: Seq<crate::target::Target>,
    tasks: Seq<crate::task::Task>,
    m0: Map<Seq<char>, Mark>,
    cli: Cli,
    color: bool,
    m1: Map<Seq<char>, Mark>,
    calls: Seq<Call>,
    lines: Seq<Seq<char>>,
) -> bool {
    match run_kind(cli) {
        RunKind::Check => exists|ord: Seq<int>, outs: Seq<Result<bool, Seq<char>>>, steps: Seq<StepView>|
            #[trigger] check_run_is(kv, ts, m0, run_targets(cli), ord, outs, m1, steps, calls) && lines_show(
                lines,
                steps,
                false,
                cli.show_descriptions,
                color,
            ),
        RunKind::Plan => m1 == m0 && exists|
            config: Config,
            ord: Seq<int>,
            outs: Seq<Result<bool, Seq<char>>>,
            steps: Seq<StepView>,
        |
            config_of_cli(config, cli) && #[trigger] plan_run_is(kv, ts, tasks, config, m0, run_targets(cli), ord, outs, steps, calls)
                && lines_show(lines, steps, true, cli.show_descriptions, color),
        RunKind::Apply => exists|
            config: Config,
            ord: Seq<int>,
            oss: Seq<Seq<Result<bool, Seq<char>>>>,
            runs: Seq<bool>,
            steps: Seq<StepView>,
        |
            config_of_cli(config, cli) && #[trigger] apply_run_is(
                kv,
                ts,
                tasks,
                config,
                m0,
                run_targets(cli),
                ord,
                oss,
                runs,
                m1,
                steps,
                calls,
            ) && lines_show(lines, steps, false, cli.show_descriptions, color),
    }
}

/// Validates the registry and runs the subcommand of `cli` (`apply` of
/// all targets when none is given), returning the lines to print, one per
/// step. A registry that fails validation is reported and nothing runs.
pub fn run_command(app: &mut App, cli: &Cli, color: bool) -> (r: Result<Vec<String>, ValidationError>)
    requires
        old(app).wf(),
        old(app).spec_valid() ==> forall|k: int|
            0 <= k < run_targets(*cli).len() ==> old(app).tkeys().contains(#[trigger] run_targets(*cli)[k]),
    ensures
        final(app).wf(),
        final(app).tkeys() == old(app).tkeys(),
        final(app).tvals() == old(app).tvals(),
        final(app).skeys() == old(app).skeys(),
        final(app).svals() == old(app).svals(),
        r is Ok <==> old(app).spec_valid(),
        r matches Err(e) ==> validation_error_is(old(app).tkeys(), old(app).tvals(), old(app).svals(), e)
            && final(app).st() == old(app).st() && final(app).calls() == old(app).calls(),
        run_kind(*cli) is Plan ==> final(app).st() == old(app).st(),
        r matches Ok(lines) ==> command_run_is(
            old(app).tkeys(),
            old(app).tvals(),
            old(app).svals(),
            marks(old(app).st()),
            *cli,
            color,
            marks(final(app).st()),
            final(app).calls(),
            lines@.map_values(|l: String| l@),
        ),
{
    let ghost kv = app.tkeys();
    let ghost ts = app.tvals();
    let ghost tasks = app.svals();
    let ghost m0 = marks(app.st());
    match app.validate() {
        Err(e) => {
            return Err(e);
        },
        Ok(()) => {},
    }
    let config = config_of(cli);
    let no_targets: Vec<String> = Vec::new();
    let show = cli.show_descriptions;
    match &cli.command {
        Some(Command::Check { targets }) => {
            proof {
                assert forall|k: int| 0 <= k < targets@.len() implies kv.contains(#[trigger] targets@[k]@) by {
                    assert(run_targets(*cli)[k] == targets@[k]@);
                }
            }
            let steps = app.run_check(&config, targets.as_slice());
            let lines = render_steps(steps.as_slice(), false, show, color);
            proof {
                let ghost lv = lines@.map_values(|l: String| l@);
                let (ord, outs) = choose|ord: Seq<int>, outs: Seq<Result<bool, Seq<char>>>|
                    #[trigger] check_run_is(kv, ts, m0, names_view(targets@), ord, outs, marks(app.st()), steps_view(steps@), app.calls());
                assert(lines_show(lv, steps_view(steps@), false, show, color));
                assert(check_run_is(kv, ts, m0, run_targets(*cli), ord, outs, marks(app.st()), steps_view(steps@), app.calls()));
            }
            Ok(lines)
        },
        Some(Command::Plan { targets }) => {
            proof {
                assert forall|k: int| 0 <= k < targets@.len() implies kv.contains(#[trigger] targets@[k]@) by {
                    assert(run_targets(*cli)[k] == targets@[k]@);
                }
            }
            let steps = app.run_plan(&config, targets.as_slice());
            let lines = render_steps(steps.as_slice(), true, show, color);
            proof {
                let ghost lv = lines@.map_values(|l: String| l@);
                let (ord, outs) = choose|ord: Seq<int>, outs: Seq<Result<bool, Seq<char>>>|
                    #[trigger] plan_run_is(kv, ts, tasks, config, m0, names_view(targets@), ord, outs, steps_view(steps@), app.calls());
                assert(lines_show(lv, steps_view(steps@), true, show, color));
                assert(plan_run_is(kv, ts, tasks, config, m0, run_targets(*cli), ord, outs, steps_view(steps@), app.calls()));
            }
            Ok(lines)
        },
        Some(Command::Apply { targets }) => {
            proof {
                assert forall|k: int| 0 <= k < targets@.len() implies kv.contains(#[trigger] targets@[k]@) by {
                    assert(run_targets(*cli)[k] == targets@[k]@);
                }
            }
            let steps = app.run_apply(&config, targets.as_slice());
            let lines = render_steps(steps.as_slice(), false, show, color);
            proof {
                let ghost lv = lines@.map_values(|l: String| l@);
                let (ord, oss, runs) = choose|
                    ord: Seq<int>,
                    oss: Seq<Seq<Result<bool, Seq<char>>>>,
                    runs: Seq<bool>,
                |
                    #[trigger] apply_run_is(
                        kv,
                        ts,
                        tasks,
                        config,
                        m0,
                        names_view(targets@),
                        ord,
                        oss,
                        runs,
                        marks(app.st()),
                        steps_view(steps@),
                        app.calls(),
                    );
                assert(lines_show(lv, steps_view(steps@), false, show, color));
                assert(apply_run_is(kv, ts, tasks, config, m0, run_targets(*cli), ord, oss, runs, marks(app.st()), steps_view(steps@), app.calls()));
            }
            Ok(lines)
        },
        None => {
            let steps = app.run_apply(&config, no_targets.as_slice());
            let lines = render_steps(steps.as_slice(), false, show, color);
            proof {
                let ghost lv = lines@.map_values(|l: String| l@);
                assert(names_view(no_targets@) =~= run_targets(*cli));
                let (ord, oss, runs) = choose|
                    ord: Seq<int>,
                    oss: Seq<Seq<Result<bool, Seq<char>>>>,
                    runs: Seq<bool>,
                |
                    #[trigger] apply_run_is(
                        kv,
                        ts,
                        tasks,
                        config,
                        m0,
                        names_view(no_targets@),
                        ord,
                        oss,
                        runs,
                        marks(app.st()),
                        steps_view(steps@),
                        app.calls(),
                    );
                assert(lines_show(lv, steps_view(steps@), false, show, color));
                assert(apply_run_is(kv, ts, tasks, config, m0, run_targets(*cli), ord, oss, runs, marks(app.st()), steps_view(steps@), app.calls()));
            }
            Ok(lines)
        },
    }
}

/// The names of `names` that start with `prefix`, in order.
pub open spec fn prefixed(names: Seq<Seq<char>>, prefix: Seq<char>) -> Seq<Seq<char>>
    decreases names.len(),
{
    if names.len() == 0 {
        Seq::empty()
    } else {
        let rest = prefixed(names.drop_last(), prefix);
        if prefix.is_prefix_of(names.last()) {
            rest.push(names.last())
        } else {
            rest
        }
    }
}

/// Whether `s` starts with `prefix`.
pub fn starts_with(s: &str, prefix: &str) -> (r: bool)
    ensures
        r == prefix@.is_prefix_of(s@),
{
    let n = prefix.unicode_len();
    if n > s.unicode_len() {
        return false;
    }
    let mut i: usize = 0;
    while i < n
        invariant
            n == prefix@.len(),
            n <= s@.len(),
            i <= n,
            forall|k: int| 0 <= k < i ==> prefix@[k] == s@[k],
        decreases n - i,
    {
        if prefix.get_char(i) != s.get_char(i) {
            proof {
                if prefix@.is_prefix_of(s@) {
                    assert(prefix@[i as int] == s@.subrange(0, n as int)[i as int]);
                }
            }
            return false;
        }
        i = i + 1;
    }
    proof {
        assert(prefix@ =~= s@.subrange(0, n as int));
    }
    true
}

/// Completion candidates: the names in `names` that start with what was
/// typed so far, in order.
pub fn matching_names(names: &Vec<String>, typed: &str) -> (r: Vec<String>)
    ensures
        names_view(r@) == prefixed(names_view(names@), typed@),
{
    let ghost all = names_view(names@);
    let mut r: Vec<String> = Vec::new();
    let mut i: usize = 0;
    while i < names.len()
        invariant
            i <= names@.len(),
            all == names_view(names@),
            names_view(r@) == prefixed(all.take(i as int), typed@),
        decreases names@.len() - i,
    {
        let ghost prev = r@;
        proof {
            assert(all.take(i + 1).drop_last() =~= all.take(i as int));
            assert(all.take(i + 1).last() == names@[i as int]@);
        }
        if starts_with(names[i].as_str(), typed) {
            let c = names[i].clone();
            r.push(c);
            proof {
                assert(names_view(r@) =~= names_view(prev).push(names@[i as int]@));
            }
        }
        i = i + 1;
    }
    proof {
        assert(all.take(names@.len() as int) =~= all);
    }
    r
}

/// `names` is in strictly increasing order (so each name occurs once).
pub open spec fn strictly_sorted(names: Seq<Seq<char>>) -> bool {
    forall|a: int, b: int| #![trigger names[a], names[b]] 0 <= a < b < names.len() ==> lex_lt(names[a], names[b])
}

fn insert_sorted(r: &mut Vec<String>, s: &String)
    requires
        strictly_sorted(names_view(old(r)@)),
    ensures
        strictly_sorted(names_view(final(r)@)),
        forall|l: Seq<char>| #[trigger] names_view(final(r)@).contains(l) <==> (names_view(old(r)@).contains(l) || l == s@),
{
    let ghost v = names_view(r@);
    let mut p: usize = 0;
    while p < r.len() && str_lt(r[p].as_str(), s.as_str())
        invariant
            p <= r@.len(),
            v == names_view(r@),
            forall|q: int| 0 <= q < p ==> lex_lt(#[trigger] v[q], s@),
        decreases r@.len() - p,
    {
        p = p + 1;
    }
    if p < r.len() && same_text(r[p].as_str(), s.as_str()) {
        proof {
            assert forall|l: Seq<char>| #[trigger] names_view(r@).contains(l) <==> (v.contains(l) || l == s@) by {
                if l == s@ {
                    assert(v[p as int] == l);
                }
            }
        }
        return;
    }
    proof {
        if p < r@.len() {
            assert(!lex_lt(v[p as int], s@));
            assert(v[p as int] != s@);
            lemma_lex_total(v[p as int], s@);
        }
    }
    r.insert(p, s.clone());
    proof {
        let w = names_view(r@);
        assert(w =~= v.insert(p as int, s@));
        assert forall|a: int, b: int| #![trigger w[a], w[b]] 0 <= a < b < w.len() implies lex_lt(w[a], w[b]) by {
            if b < p {
                assert(w[a] == v[a] && w[b] == v[b]);
            } else if b == p {
                assert(w[a] == v[a]);
            } else if a < p {
                assert(w[a] == v[a] && w[b] == v[b - 1]);
                assert(lex_lt(v[a], s@));
                assert(lex_lt(s@, v[p as int]));
                if b - 1 > p {
                    assert(lex_lt(v[p as int], v[b - 1]));
                    lemma_lex_trans(s@, v[p as int], v[b - 1]);
                }
                lemma_lex_trans(v[a], s@, v[b - 1]);
            } else if a == p {
                assert(w[b] == v[b - 1]);
                if b - 1 > p {
                    assert(lex_lt(v[p as int], v[b - 1]));
                    lemma_lex_trans(s@, v[p as int], v[b - 1]);
                }
            } else {
                assert(w[a] == v[a - 1] && w[b] == v[b - 1]);
            }
        }
        assert forall|l: Seq<char>| #[trigger] w.contains(l) <==> (v.contains(l) || l == s@) by {
            if w.contains(l) {
                let q = choose|q: int| 0 <= q < w.len() && w[q] == l;
                if q < p {
                    assert(v[q] == l);
                } else if q > p {
                    assert(v[q - 1] == l);
                }
            }
            if v.contains(l) {
                let q = choose|q: int| 0 <= q < v.len() && v[q] == l;
                if q < p {
                    assert(w[q] == l);
                } else {
                    assert(w[q + 1] == l);
                }
            }
            if l == s@ {
                assert(w[p as int] == l);
            }
        }
    }
}

/// Task `tasks[j]` carries label `l`.
pub open spec fn carries_label(tasks: Seq<Task>, j: int, l: Seq<char>) -> bool {
    0 <= j < tasks.len() && names_view(tasks[j].labels@).contains(l)
}

/// Every label that some task carries, each once, in increasing order: the
/// labels offered for completion.
pub fn label_names(tasks: &Vec<Task>) -> (r: Vec<String>)
    ensures
        strictly_sorted(names_view(r@)),
        forall|l: Seq<char>| #[trigger] names_view(r@).contains(l) <==> exists|j: int| carries_label(tasks@, j, l),
{
    let mut r: Vec<String> = Vec::new();
    let mut j: usize = 0;
    while j < tasks.len()
        invariant
            j <= tasks@.len(),
            strictly_sorted(names_view(r@)),
            forall|l: Seq<char>|
                #[trigger] names_view(r@).contains(l) <==> exists|j2: int| 0 <= j2 < j && carries_label(tasks@, j2, l),
        decreases tasks@.len() - j,
    {
        let labels = &tasks[j].labels;
        let ghost lv = names_view(labels@);
        let mut k: usize = 0;
        while k < labels.len()
            invariant
                j < tasks@.len(),
                labels == &tasks@[j as int].labels,
                lv == names_view(labels@),
                k <= labels@.len(),
                strictly_sorted(names_view(r@)),
                forall|l: Seq<char>|
                    #[trigger] names_view(r@).contains(l) <==> ((exists|j2: int| 0 <= j2 < j && carries_label(tasks@, j2, l))
                        || lv.take(k as int).contains(l)),
            decreases labels@.len() - k,
        {
            let ghost before = names_view(r@);
            insert_sorted(&mut r, &labels[k]);
            proof {
                let x = labels@[k as int]@;
                assert(lv.take(k + 1) =~= lv.take(k as int).push(x));
                let t0 = lv.take(k as int);
                let t1 = lv.take(k + 1);
                assert forall|l: Seq<char>| #[trigger] t1.contains(l) <==> (t0.contains(l) || l == x) by {
                    if t1.contains(l) {
                        let q = choose|q: int| 0 <= q < t1.len() && #[trigger] t1[q] == l;
                        if q < k {
                            assert(t0[q] == l);
                        }
                    }
                    if t0.contains(l) {
                        let q = choose|q: int| 0 <= q < t0.len() && #[trigger] t0[q] == l;
                        assert(t1[q] == l);
                    }
                    if l == x {
                        assert(t1[k as int] == l);
                    }
                }
            }
            k = k + 1;
        }
        proof {
            assert(lv.take(labels@.len() as int) =~= lv);
            assert forall|l: Seq<char>| #[trigger] names_view(r@).contains(l) <==> exists|j2: int|
                0 <= j2 < j + 1 && carries_label(tasks@, j2, l) by {
                if lv.contains(l) {
                    assert(carries_label(tasks@, j as int, l));
                }
                if exists|j2: int| 0 <= j2 < j + 1 && carries_label(tasks@, j2, l) {
                    let j2 = choose|j2: int| 0 <= j2 < j + 1 && carries_label(tasks@, j2, l);
                    if j2 == j {
                        assert(lv.contains(l));
                    }
                }
            }
        }
        j = j + 1;
    }
    r
}

} // verus!
