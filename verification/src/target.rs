use vstd::prelude::*;

use crate::Call;

verus! {

#[verifier::external_type_specification]
#[verifier::external_body]
pub struct ExAnyhowError(anyhow::Error);

/// A probe of the real system: `Ok(true)` when the desired state holds,
/// `Ok(false)` when it does not, `Err` when the probe itself failed.
///
/// Every closure `Fn() -> anyhow::Result<bool>` is such a probe.
pub trait CheckProbe: Send + Sync {
    fn probe(&self) -> Result<bool, anyhow::Error>;
}

/// Calls a user's check closure. Nothing is claimed of the result: it is
/// whatever the closure finds on the machine.
#[verifier::external_body]
fn call_check_closure<F: Fn() -> Result<bool, anyhow::Error>>(f: &F) -> Result<bool, anyhow::Error> {
    f()
}

impl<F: Fn() -> Result<bool, anyhow::Error> + Send + Sync> CheckProbe for F {
    fn probe(&self) -> Result<bool, anyhow::Error> {
        call_check_closure(self)
    }
}

/// Renders an `anyhow::Error` with its `Display` impl (`format!("{e}")`).
/// Nothing is claimed of the text.
#[verifier::external_body]
pub(crate) fn error_text(e: &anyhow::Error) -> String {
    e.to_string()
}

pub type CheckFn = Box<dyn CheckProbe>;

/// Runs the check probe of the target at position `who` and turns a failure
/// into its message; the call is added to `calls` with the answer it gave.
pub(crate) fn run_probe(c: &CheckFn, Ghost(who): Ghost<int>, calls: &mut Ghost<Seq<Call>>) -> (r: Result<
    bool,
    String,
>)
    ensures
        final(calls)@ == old(calls)@.push(Call::Check(who, crate::app::result_view(r))),
{
    match c.probe() {
        Ok(b) => {
            proof {
                calls@ = calls@.push(Call::Check(who, Ok(b)));
            }
            Ok(b)
        },
        Err(e) => {
            let m = error_text(&e);
            proof {
                calls@ = calls@.push(Call::Check(who, Err(m@)));
            }
            Err(m)
        },
    }
}

/// A declaration of a concrete desired state.
///
/// Three kinds:
/// - **Leaf** — has a `check` function, optionally guarded by
///   [`check_deps`](Target::check_dep).
/// - **Aggregate** — no check; satisfaction derived from its
///   [`depends_on`](Target::depends_on) targets.
/// - **Stub** — neither check nor depends_on.
///
/// Each target must be satisfied by **exactly one** [`Task`](crate::Task).
pub struct Target {
    pub name: String,
    pub description: Option<String>,
    pub check: Option<CheckFn>,
    pub depends_on: Vec<String>,
    pub check_deps: Vec<String>,
}

pub open spec fn names_view(v: Seq<String>) -> Seq<Seq<char>> {
    v.map_values(|s: String| s@)
}

impl Target {
    /// The names this target depends on, `depends_on` first, then `check_deps`.
    pub open spec fn all_deps(&self) -> Seq<Seq<char>> {
        names_view(self.depends_on@) + names_view(self.check_deps@)
    }

    pub open spec fn spec_is_stub(&self) -> bool {
        self.check.is_none() && self.depends_on@.len() == 0
    }

    /// Create a new target with the given unique name.
    pub fn new(name: &str) -> (t: Self)
        ensures
            t.name@ == name@,
            t.description.is_none(),
            t.check.is_none(),
            t.depends_on@.len() == 0,
            t.check_deps@.len() == 0,
    {
        Target {
            name: name.to_owned(),
            description: None,
            check: None,
            depends_on: Vec::new(),
            check_deps: Vec::new(),
        }
    }

    /// Set the check function for a leaf target.
    ///
    /// The closure returns `Ok(true)` when the state is satisfied,
    /// `Ok(false)` when unsatisfied, or `Err` if the check itself failed.
    pub fn check<F>(self, f: F) -> (t: Self) where
        F: Fn() -> Result<bool, anyhow::Error> + Send + Sync + 'static,
        ensures
            t.name == self.name,
            t.description == self.description,
            t.check.is_some(),
            t.depends_on == self.depends_on,
            t.check_deps == self.check_deps,
    {
        let b: Box<dyn CheckProbe> = Box::new(f);
        Target { check: Some(b), ..self }
    }

    /// Attach a human-readable description of this target.
    ///
    /// Shown always when the target is unsatisfied, and optionally in
    /// dim text when `--show-descriptions` is passed.
    pub fn description(self, text: &str) -> (t: Self)
        ensures
            t.name == self.name,
            t.description matches Some(d) && d@ == text@,
            t.check == self.check,
            t.depends_on == self.depends_on,
            t.check_deps == self.check_deps,
    {
        Target { description: Some(text.to_owned()), ..self }
    }

    /// Declare a dependency on another target (by name).
    ///
    /// An aggregate target has no check — it is satisfied when *all* its
    /// dependencies are satisfied. A leaf target may also declare
    /// dependencies for ordering purposes.
    pub fn depends_on(self, target: &str) -> (t: Self)
        ensures
            t.name == self.name,
            t.description == self.description,
            t.check == self.check,
            names_view(t.depends_on@) == names_view(self.depends_on@).push(target@),
            t.check_deps == self.check_deps,
    {
        let mut s = self;
        s.depends_on.push(target.to_owned());
        proof {
            assert(names_view(s.depends_on@) =~= names_view(self.depends_on@).push(target@));
        }
        s
    }

    /// Declare a check dependency (by name).
    ///
    /// A leaf target's `check` only runs when **all** its check deps are
    /// satisfied. If any check dep is unsatisfied the target is demoted
    /// to stub — the check is skipped and no task runs for it.
    pub fn check_dep(self, target: &str) -> (t: Self)
        ensures
            t.name == self.name,
            t.description == self.description,
            t.check == self.check,
            t.depends_on == self.depends_on,
            names_view(t.check_deps@) == names_view(self.check_deps@).push(target@),
    {
        let mut s = self;
        s.check_deps.push(target.to_owned());
        proof {
            assert(names_view(s.check_deps@) =~= names_view(self.check_deps@).push(target@));
        }
        s
    }

    /// A stub target has neither a `check` function nor `depends_on`.
    /// It is always unsatisfied unless manually set via `--set`.
    pub fn is_stub(&self) -> (r: bool)
        ensures
            r == self.spec_is_stub(),
    {
        self.check.is_none() && self.depends_on.len() == 0
    }
}

} // verus!
