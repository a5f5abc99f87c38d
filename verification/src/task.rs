use vstd::prelude::*;

use crate::target::names_view;

verus! {

/// The action of a task: idempotent work that tries to bring its targets
/// about. Every closure `Fn() -> anyhow::Result<()>` is such an action.
pub trait TaskAction: Send + Sync {
    fn perform(&self) -> Result<(), anyhow::Error>;
}

/// Calls a user's task closure. Nothing is claimed of the result: it is
/// whatever the closure's work on the machine came to.
#[verifier::external_body]
fn call_run_closure<F: Fn() -> Result<(), anyhow::Error>>(f: &F) -> Result<(), anyhow::Error> {
    f()
}

impl<F: Fn() -> Result<(), anyhow::Error> + Send + Sync> TaskAction for F {
    fn perform(&self) -> Result<(), anyhow::Error> {
        call_run_closure(self)
    }
}

pub type RunFn = Box<dyn TaskAction>;

/// An actionable unit that satisfies one or more targets.
pub struct Task {
    pub name: String,
    pub description: Option<String>,
    pub satisfies: Vec<String>,
    pub depends_on: Vec<String>,
    pub labels: Vec<String>,
    pub run: Option<RunFn>,
}

impl Task {
    /// Create a new task with the given unique name.
    pub fn new(name: &str) -> (t: Self)
        ensures
            t.name@ == name@,
            t.description.is_none(),
            t.satisfies@.len() == 0,
            t.depends_on@.len() == 0,
            t.labels@.len() == 0,
            t.run.is_none(),
    {
        Task {
            name: name.to_owned(),
            description: None,
            satisfies: Vec::new(),
            depends_on: Vec::new(),
            labels: Vec::new(),
            run: None,
        }
    }

    /// Attach a human-readable description.
    pub fn description(self, text: &str) -> (t: Self)
        ensures
            t.name == self.name,
            t.description matches Some(d) && d@ == text@,
            t.satisfies == self.satisfies,
            t.depends_on == self.depends_on,
            t.labels == self.labels,
            t.run == self.run,
    {
        Task { description: Some(text.to_owned()), ..self }
    }

    /// Declare a target that running the action brings about.
    pub fn satisfies(self, target: &str) -> (t: Self)
        ensures
            t.name == self.name,
            t.description == self.description,
            names_view(t.satisfies@) == names_view(self.satisfies@).push(target@),
            t.depends_on == self.depends_on,
            t.labels == self.labels,
            t.run == self.run,
    {
        let mut s = self;
        s.satisfies.push(target.to_owned());
        proof {
            assert(names_view(s.satisfies@) =~= names_view(self.satisfies@).push(target@));
        }
        s
    }

    /// Declare a target that must be satisfied before the action runs.
    pub fn depends_on(self, target: &str) -> (t: Self)
        ensures
            t.name == self.name,
            t.description == self.description,
            t.satisfies == self.satisfies,
            names_view(t.depends_on@) == names_view(self.depends_on@).push(target@),
            t.labels == self.labels,
            t.run == self.run,
    {
        let mut s = self;
        s.depends_on.push(target.to_owned());
        proof {
            assert(names_view(s.depends_on@) =~= names_view(self.depends_on@).push(target@));
        }
        s
    }

    /// Attach a label, used to filter and disable tasks.
    pub fn label(self, label: &str) -> (t: Self)
        ensures
            t.name == self.name,
            t.description == self.description,
            t.satisfies == self.satisfies,
            t.depends_on == self.depends_on,
            names_view(t.labels@) == names_view(self.labels@).push(label@),
            t.run == self.run,
    {
        let mut s = self;
        s.labels.push(label.to_owned());
        proof {
            assert(names_view(s.labels@) =~= names_view(self.labels@).push(label@));
        }
        s
    }

    /// Set the action that brings the targets about; it should be
    /// idempotent.
    pub fn run<F>(self, f: F) -> (t: Self) where
        F: Fn() -> Result<(), anyhow::Error> + Send + Sync + 'static,
        ensures
            t.name == self.name,
            t.description == self.description,
            t.satisfies == self.satisfies,
            t.depends_on == self.depends_on,
            t.labels == self.labels,
            t.run.is_some(),
    {
        let b: Box<dyn TaskAction> = Box::new(f);
        Task { run: Some(b), ..self }
    }
}

} // verus!
