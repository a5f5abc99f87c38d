//! Target satisfaction state: what was last found of each target, and
//! whether it was set by hand.
use vstd::prelude::*;

use crate::text::{decimal, decimal_string, same_text};

verus! {

#[verifier::external_type_specification]
#[verifier::external_body]
pub struct ExSystemTime(std::time::SystemTime);

/// Reads the system clock (`SystemTime::now`). Nothing is claimed of the
/// value: it is the time.
#[verifier::external_body]
fn system_now() -> std::time::SystemTime {
    std::time::SystemTime::now()
}

#[verifier::external_type_specification]
#[verifier::external_body]
pub struct ExSystemTimeError(std::time::SystemTimeError);

/// The time from the Unix epoch to `t` (`t.duration_since(UNIX_EPOCH)`),
/// or an error when `t` is earlier. Nothing is claimed of the value.
#[verifier::external_body]
fn since_epoch(t: &std::time::SystemTime) -> Result<std::time::Duration, std::time::SystemTimeError> {
    t.duration_since(std::time::UNIX_EPOCH)
}

/// The whole seconds of `d` (`Duration::as_secs`). Nothing is claimed of
/// the value.
#[verifier::external_body]
fn whole_seconds(d: &std::time::Duration) -> u64 {
    d.as_secs()
}

/// The current time as decimal seconds since the Unix epoch (zero for a
/// clock set before it).
pub fn chrono_now() -> (s: String)
    ensures
        exists|n: nat| s@ == decimal(n),
{
    let t = system_now();
    let secs = match since_epoch(&t) {
        Ok(d) => whole_seconds(&d),
        Err(_) => 0,
    };
    decimal_string(secs)
}

/// What is remembered of one target.
#[derive(Debug, Clone)]
pub struct TargetState {
    pub satisfied: Option<bool>,
    pub manually_set: bool,
    pub checked_at: Option<String>,
}

/// The mathematical content of a [`TargetState`].
pub struct TargetStateView {
    pub satisfied: Option<bool>,
    pub manually_set: bool,
    pub checked_at: Option<Seq<char>>,
}

impl View for TargetState {
    type V = TargetStateView;

    open spec fn view(&self) -> TargetStateView {
        TargetStateView {
            satisfied: self.satisfied,
            manually_set: self.manually_set,
            checked_at: crate::opt_string_view(self.checked_at),
        }
    }
}

impl TargetState {
    /// An exact copy of this entry.
    pub fn duplicate(&self) -> (r: TargetState)
        ensures
            r@ == self@,
    {
        TargetState {
            satisfied: self.satisfied,
            manually_set: self.manually_set,
            checked_at: match &self.checked_at {
                Some(s) => Some(s.clone()),
                None => None,
            },
        }
    }
}

/// The state of all targets, keyed by target name.
pub struct State {
    targets: Vec<(String, TargetState)>,
}

impl State {
    #[verifier::type_invariant]
    spec fn keys_unique(&self) -> bool {
        forall|i: int, j: int|
            0 <= i < j < self.targets@.len() ==> self.targets@[i].0@ != self.targets@[j].0@
    }

    spec fn has_at(&self, i: int, k: Seq<char>) -> bool {
        0 <= i < self.targets@.len() && self.targets@[i].0@ == k
    }

    /// The state as a map from target name to entry.
    pub closed spec fn view(&self) -> Map<Seq<char>, TargetStateView> {
        Map::new(
            |k: Seq<char>| exists|i: int| self.has_at(i, k),
            |k: Seq<char>| self.targets@[choose|i: int| self.has_at(i, k)].1@,
        )
    }

    proof fn lemma_view_at(&self, i: int)
        requires
            self.keys_unique(),
            0 <= i < self.targets@.len(),
        ensures
            self.view().contains_key(self.targets@[i].0@),
            self.view()[self.targets@[i].0@] == self.targets@[i].1@,
    {
        let k = self.targets@[i].0@;
        assert(self.has_at(i, k));
        let j = choose|j: int| self.has_at(j, k);
        assert(j == i);
    }

    fn find(&self, name: &str) -> (r: Option<usize>)
        ensures
            match r {
                Some(i) => i < self.targets@.len() && self.targets@[i as int].0@ == name@,
                None => !self.view().contains_key(name@),
            },
    {
        let mut i: usize = 0;
        while i < self.targets.len()
            invariant
                i <= self.targets@.len(),
                forall|j: int| 0 <= j < i ==> self.targets@[j].0@ != name@,
            decreases self.targets.len() - i,
        {
            if same_text(self.targets[i].0.as_str(), name) {
                return Some(i);
            }
            i = i + 1;
        }
        None
    }

    /// An empty state.
    pub fn new() -> (s: State)
        ensures
            s@ == Map::<Seq<char>, TargetStateView>::empty(),
    {
        let s = State { targets: Vec::new() };
        assert(s@ =~= Map::<Seq<char>, TargetStateView>::empty());
        s
    }

    /// The entry of `name`, if any.
    pub fn get(&self, name: &str) -> (r: Option<&TargetState>)
        ensures
            match r {
                Some(t) => self@.contains_key(name@) && t@ == self@[name@],
                None => !self@.contains_key(name@),
            },
    {
        proof {
            use_type_invariant(self);
        }
        match self.find(name) {
            Some(i) => {
                proof {
                    self.lemma_view_at(i as int);
                }
                Some(&self.targets[i].1)
            },
            None => None,
        }
    }

    proof fn lemma_view_eq(s: &State, m: Map<Seq<char>, TargetStateView>)
        requires
            s.keys_unique(),
            forall|i: int|
                0 <= i < s.targets@.len() ==> m.contains_key(#[trigger] s.targets@[i].0@)
                    && m[s.targets@[i].0@] == s.targets@[i].1@,
            forall|k: Seq<char>| m.contains_key(k) ==> exists|i: int| s.has_at(i, k),
        ensures
            s@ == m,
    {
        assert forall|k: Seq<char>| #[trigger] s@.contains_key(k) <==> m.contains_key(k) by {
            if s@.contains_key(k) {
                let i = choose|i: int| s.has_at(i, k);
                assert(m.contains_key(s.targets@[i].0@));
            }
        }
        assert forall|k: Seq<char>| s@.contains_key(k) implies #[trigger] s@[k] == m[k] by {
            let i = choose|i: int| s.has_at(i, k);
            s.lemma_view_at(i);
        }
        assert(s@ =~= m);
    }

    fn take_entries(&mut self) -> (v: Vec<(String, TargetState)>)
        ensures
            v@ == old(self).targets@,
            forall|i: int, j: int| 0 <= i < j < v@.len() ==> v@[i].0@ != v@[j].0@,
    {
        proof {
            use_type_invariant(&*self);
        }
        let mut v = Vec::new();
        std::mem::swap(&mut v, &mut self.targets);
        v
    }

    /// Puts `entry` under `name`, replacing what was there.
    pub fn insert_entry(&mut self, name: &str, entry: TargetState)
        ensures
            final(self)@ == old(self)@.insert(name@, entry@),
    {
        proof {
            use_type_invariant(&*self);
        }
        let ghost m = old(self)@.insert(name@, entry@);
        let found = self.find(name);
        let mut v = self.take_entries();
        let ghost pre = v@;
        match found {
            Some(i) => {
                v.set(i, (name.to_owned(), entry));
            },
            None => {
                v.push((name.to_owned(), entry));
            },
        }
        proof {
            assert forall|a: int, b: int| 0 <= a < b < v@.len() implies v@[a].0@ != v@[b].0@ by {
                if b < pre.len() && (found is None || (a != found->0 && b != found->0)) {
                } else if b >= pre.len() {
                    assert(!old(self)@.contains_key(name@));
                    assert(old(self).has_at(a, pre[a].0@));
                    assert(old(self)@.contains_key(pre[a].0@));
                }
            }
            let post = State { targets: v };
            assert forall|i: int| 0 <= i < v@.len() implies m.contains_key(
                #[trigger] v@[i].0@,
            ) && m[v@[i].0@] == v@[i].1@ by {
                let is_new = match found {
                    Some(f) => i == f,
                    None => i == pre.len(),
                };
                if !is_new {
                    old(self).lemma_view_at(i);
                    assert(v@[i] == pre[i]);
                    match found {
                        Some(f) => {
                            assert(pre[i].0@ != pre[f as int].0@);
                        },
                        None => {
                            assert(old(self)@.contains_key(pre[i].0@));
                        },
                    }
                }
            }
            assert forall|k: Seq<char>| m.contains_key(k) implies exists|i: int|
                post.has_at(i, k) by {
                if k == name@ {
                    match found {
                        Some(i) => assert(post.has_at(i as int, k)),
                        None => assert(post.has_at(pre.len() as int, k)),
                    }
                } else {
                    let j = choose|j: int| old(self).has_at(j, k);
                    assert(post.has_at(j, k));
                }
            }
            Self::lemma_view_eq(&post, m);
        }
        self.targets = v;
    }

    /// Records a manual override: `name` is taken as `satisfied` until the
    /// override is removed.
    pub fn set(&mut self, name: &str, satisfied: bool)
        ensures
            exists|n: nat|
                final(self)@ == old(self)@.insert(
                    name@,
                    TargetStateView {
                        satisfied: Some(satisfied),
                        manually_set: true,
                        checked_at: Some(decimal(n)),
                    },
                ),
    {
        let t = chrono_now();
        let ghost tv = t@;
        self.insert_entry(
            name,
            TargetState { satisfied: Some(satisfied), manually_set: true, checked_at: Some(t) },
        );
    }

    /// Removes whatever is remembered of `name`.
    pub fn unset(&mut self, name: &str)
        ensures
            final(self)@ == old(self)@.remove(name@),
    {
        proof {
            use_type_invariant(&*self);
        }
        let ghost m = old(self)@.remove(name@);
        let found = self.find(name);
        let mut v = self.take_entries();
        let ghost pre = v@;
        match found {
            Some(i) => {
                v.remove(i);
                proof {
                    assert forall|a: int, b: int| 0 <= a < b < v@.len() implies v@[a].0@
                        != v@[b].0@ by {
                        let a2 = if a < i { a } else { a + 1 };
                        let b2 = if b < i { b } else { b + 1 };
                        assert(pre[a2].0@ != pre[b2].0@);
                    }
                    let post = State { targets: v };
                    assert forall|j: int| 0 <= j < v@.len() implies m.contains_key(
                        #[trigger] v@[j].0@,
                    ) && m[v@[j].0@] == v@[j].1@ by {
                        let j2 = if j < i { j } else { j + 1 };
                        assert(v@[j] == pre[j2]);
                        assert(pre[j2].0@ != pre[i as int].0@);
                        old(self).lemma_view_at(j2);
                    }
                    assert forall|k: Seq<char>| m.contains_key(k) implies exists|j: int|
                        post.has_at(j, k) by {
                        let j = choose|j: int| old(self).has_at(j, k);
                        assert(j != i);
                        if j < i {
                            assert(post.has_at(j, k));
                        } else {
                            assert(post.has_at(j - 1, k));
                        }
                    }
                    Self::lemma_view_eq(&post, m);
                }
            },
            None => {
                proof {
                    let post = State { targets: v };
                    assert forall|j: int| 0 <= j < v@.len() implies m.contains_key(
                        #[trigger] v@[j].0@,
                    ) && m[v@[j].0@] == v@[j].1@ by {
                        old(self).lemma_view_at(j);
                    }
                    assert forall|k: Seq<char>| m.contains_key(k) implies exists|j: int|
                        post.has_at(j, k) by {
                        let j = choose|j: int| old(self).has_at(j, k);
                        assert(post.has_at(j, k));
                    }
                    Self::lemma_view_eq(&post, m);
                }
            },
        }
        self.targets = v;
    }

    /// Records the result of a check: `name` was found `satisfied`.
    pub fn set_check_result(&mut self, name: &str, satisfied: bool)
        ensures
            exists|n: nat|
                final(self)@ == old(self)@.insert(
                    name@,
                    TargetStateView {
                        satisfied: Some(satisfied),
                        manually_set: false,
                        checked_at: Some(decimal(n)),
                    },
                ),
    {
        let t = chrono_now();
        self.insert_entry(
            name,
            TargetState { satisfied: Some(satisfied), manually_set: false, checked_at: Some(t) },
        );
    }

    /// All entries, each name once, in no particular order.
    pub fn entries(&self) -> (r: &Vec<(String, TargetState)>)
        ensures
            forall|i: int|
                0 <= i < r@.len() ==> self@.contains_key(#[trigger] r@[i].0@) && self@[r@[i].0@]
                    == r@[i].1@,
            forall|k: Seq<char>|
                self@.contains_key(k) ==> exists|i: int| 0 <= i < r@.len() && #[trigger] r@[i].0@ == k,
            forall|i: int, j: int| 0 <= i < j < r@.len() ==> r@[i].0@ != r@[j].0@,
    {
        proof {
            use_type_invariant(self);
            assert forall|i: int| 0 <= i < self.targets@.len() implies self@.contains_key(
                #[trigger] self.targets@[i].0@,
            ) && self@[self.targets@[i].0@] == self.targets@[i].1@ by {
                self.lemma_view_at(i);
            }
            assert forall|k: Seq<char>| self@.contains_key(k) implies exists|i: int|
                0 <= i < self.targets@.len() && #[trigger] self.targets@[i].0@ == k by {
                let i = choose|i: int| self.has_at(i, k);
            }
        }
        &self.targets
    }
}

impl Default for State {
    fn default() -> (s: State)
        ensures
            s@ == Map::<Seq<char>, TargetStateView>::empty(),
    {
        State::new()
    }
}

} // verus!
