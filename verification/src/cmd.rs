//! Building system commands: program, arguments, environment, working
//! directory, timeout and retry policy, and the decision taken after each
//! attempt. Spawning the process is left to the caller.
use std::time::Duration;
use vstd::prelude::*;

use crate::text::{join, join_strings, signed_decimal, signed_decimal_string, trim, trimmed};

verus! {

/// The mathematical content of a [`Cmd`].
pub struct CmdView {
    pub program: Seq<char>,
    pub args: Seq<Seq<char>>,
    pub envs: Map<Seq<char>, Seq<char>>,
    pub dir: Option<Seq<char>>,
    pub timeout: Option<Duration>,
    pub retry: nat,
}

/// A command with no arguments, environment, directory, timeout or retry.
pub open spec fn fresh_cmd(program: Seq<char>) -> CmdView {
    CmdView {
        program: program,
        args: Seq::empty(),
        envs: Map::empty(),
        dir: None,
        timeout: None,
        retry: 0,
    }
}

/// Build and execute a system command.
///
/// Two execution modes are offered by the program that runs it: captured
/// (stdin null, stdout/stderr piped) and interactive (all inherited).
/// Supports environment variables, working directory, timeout, and retry.
#[derive(Debug, Clone)]
pub struct Cmd {
    program: String,
    args: Vec<String>,
    envs: Vec<(String, String)>,
    dir: Option<String>,
    timeout: Option<Duration>,
    retry: usize,
}

/// Create a new [`Cmd`] builder.
pub fn cmd(program: &str) -> (c: Cmd)
    ensures
        c@ == fresh_cmd(program@),
{
    Cmd::new(program)
}

/// The environment pairs as text.
pub open spec fn env_pairs_view(v: Seq<(String, String)>) -> Seq<(Seq<char>, Seq<char>)> {
    v.map_values(|p: (String, String)| (p.0@, p.1@))
}

/// The environment that setting `pairs` in order produces: a later pair
/// replaces an earlier one with the same name.
pub open spec fn env_fold(pairs: Seq<(Seq<char>, Seq<char>)>) -> Map<Seq<char>, Seq<char>>
    decreases pairs.len(),
{
    if pairs.len() == 0 {
        Map::empty()
    } else {
        env_fold(pairs.drop_last()).insert(pairs.last().0, pairs.last().1)
    }
}

impl Cmd {
    /// The command as program, arguments, environment, directory, timeout
    /// and number of retries.
    pub closed spec fn view(&self) -> CmdView {
        CmdView {
            program: self.program@,
            args: self.args@.map_values(|a: String| a@),
            envs: env_fold(env_pairs_view(self.envs@)),
            dir: crate::opt_string_view(self.dir),
            timeout: self.timeout,
            retry: self.retry as nat,
        }
    }

    /// A command that runs `program` with no arguments.
    pub fn new(program: &str) -> (c: Cmd)
        ensures
            c@ == fresh_cmd(program@),
    {
        let c = Cmd {
            program: program.to_owned(),
            args: Vec::new(),
            envs: Vec::new(),
            dir: None,
            timeout: None,
            retry: 0,
        };
        proof {
            assert(c.args@.map_values(|a: String| a@) =~= Seq::<Seq<char>>::empty());
            assert(env_pairs_view(c.envs@) =~= Seq::<(Seq<char>, Seq<char>)>::empty());
        }
        c
    }

    /// Appends one argument.
    pub fn arg(self, arg: &str) -> (c: Cmd)
        ensures
            c@ == (CmdView {
                program: self@.program,
                args: self@.args.push(arg@),
                envs: self@.envs,
                dir: self@.dir,
                timeout: self@.timeout,
                retry: self@.retry,
            }),
    {
        let Cmd { program, args, envs, dir, timeout, retry } = self;
        let mut args = args;
        args.push(arg.to_owned());
        let c = Cmd { program, args, envs, dir, timeout, retry };
        proof {
            assert(c.args@.map_values(|a: String| a@) =~= self.args@.map_values(|a: String| a@).push(
                arg@,
            ));
        }
        c
    }

    /// Appends each of `args`, in order.
    pub fn args(self, args: &[&str]) -> (c: Cmd)
        ensures
            c@ == (CmdView {
                program: self@.program,
                args: self@.args + args@.map_values(|a: &str| a@),
                envs: self@.envs,
                dir: self@.dir,
                timeout: self@.timeout,
                retry: self@.retry,
            }),
    {
        let ghost start = self@.args;
        let ghost extra = args@.map_values(|a: &str| a@);
        let Cmd { program, args: mut list, envs, dir, timeout, retry } = self;
        let mut i: usize = 0;
        while i < args.len()
            invariant
                i <= args@.len(),
                extra == args@.map_values(|a: &str| a@),
                list@.map_values(|a: String| a@) == start + extra.take(i as int),
            decreases args.len() - i,
        {
            let a: &str = args[i];
            let ghost prev = list@;
            list.push(a.to_owned());
            proof {
                assert(a@ == extra[i as int]);
                assert(list@.map_values(|a: String| a@) =~= prev.map_values(|a: String| a@).push(a@));
                assert(extra.take(i + 1) =~= extra.take(i as int).push(a@));
                assert(list@.map_values(|a: String| a@) =~= start + extra.take(i + 1));
            }
            i = i + 1;
        }
        proof {
            assert(extra.take(args@.len() as int) =~= extra);
        }
        Cmd { program, args: list, envs, dir, timeout, retry }
    }

    /// Sets the environment variable `key` to `val` for the command,
    /// replacing an earlier value of `key`.
    pub fn env(self, key: &str, val: &str) -> (c: Cmd)
        ensures
            c@ == (CmdView {
                program: self@.program,
                args: self@.args,
                envs: self@.envs.insert(key@, val@),
                dir: self@.dir,
                timeout: self@.timeout,
                retry: self@.retry,
            }),
    {
        let ghost before = env_pairs_view(self.envs@);
        let Cmd { program, args, envs, dir, timeout, retry } = self;
        let mut envs = envs;
        envs.push((key.to_owned(), val.to_owned()));
        proof {
            let after = env_pairs_view(envs@);
            assert(after =~= before.push((key@, val@)));
            assert(after.drop_last() =~= before);
        }
        Cmd { program, args, envs, dir, timeout, retry }
    }

    /// Runs the command in `dir`.
    pub fn dir(self, dir: &str) -> (c: Cmd)
        ensures
            c@ == (CmdView {
                program: self@.program,
                args: self@.args,
                envs: self@.envs,
                dir: Some(dir@),
                timeout: self@.timeout,
                retry: self@.retry,
            }),
    {
        let Cmd { program, args, envs, dir: _, timeout, retry } = self;
        Cmd { program, args, envs, dir: Some(dir.to_owned()), timeout, retry }
    }

    /// Set a timeout. The process is killed if it runs longer than `dur`.
    pub fn timeout(self, dur: Duration) -> (c: Cmd)
        ensures
            c@ == (CmdView {
                program: self@.program,
                args: self@.args,
                envs: self@.envs,
                dir: self@.dir,
                timeout: Some(dur),
                retry: self@.retry,
            }),
    {
        let Cmd { program, args, envs, dir, timeout: _, retry } = self;
        Cmd { program, args, envs, dir, timeout: Some(dur), retry }
    }

    /// Retry up to `n` additional times on non-zero exit or timeout.
    pub fn retry(self, n: usize) -> (c: Cmd)
        ensures
            c@ == (CmdView {
                program: self@.program,
                args: self@.args,
                envs: self@.envs,
                dir: self@.dir,
                timeout: self@.timeout,
                retry: n as nat,
            }),
    {
        let Cmd { program, args, envs, dir, timeout, retry: _ } = self;
        Cmd { program, args, envs, dir, timeout, retry: n }
    }

    /// The program to run.
    pub fn program(&self) -> (r: &String)
        ensures
            r@ == self@.program,
    {
        &self.program
    }

    /// The arguments, in order.
    pub fn arg_list(&self) -> (r: &Vec<String>)
        ensures
            r@.map_values(|a: String| a@) == self@.args,
    {
        &self.args
    }

    /// The environment variables to set, in the order to set them (a later
    /// pair replaces an earlier one of the same name).
    pub fn env_vars(&self) -> (r: &Vec<(String, String)>)
        ensures
            env_fold(env_pairs_view(r@)) == self@.envs,
    {
        &self.envs
    }

    /// The working directory, if one was set.
    pub fn working_dir(&self) -> (r: &Option<String>)
        ensures
            crate::opt_string_view(*r) == self@.dir,
    {
        &self.dir
    }

    /// The timeout, if one was set.
    pub fn timeout_limit(&self) -> (r: Option<Duration>)
        ensures
            r == self@.timeout,
    {
        self.timeout
    }

    /// How many more attempts follow a failed first one.
    pub fn retries(&self) -> (r: usize)
        ensures
            r == self@.retry,
    {
        self.retry
    }

    /// The program and its arguments as one line, as error messages show
    /// them: the program, a space, and the arguments separated by spaces.
    pub fn command_line(&self) -> (r: String)
        ensures
            r@ == command_line_of(self@),
    {
        let joined = join_strings(&self.args, " ");
        let mut r = String::new();
        r.append(self.program.as_str());
        r.append(" ");
        r.append(joined.as_str());
        r
    }

    /// The error message of an attempt that exited unsuccessfully with
    /// `code` (none when killed by a signal) and wrote `stderr`.
    pub fn failure_message(&self, code: Option<i32>, stderr: &str) -> (m: String)
        ensures
            m@ == failure_text(command_line_of(self@), code, trimmed(stderr@)),
    {
        let line = self.command_line();
        let detail = trim(stderr);
        let mut m = String::new();
        m.append("`");
        m.append(line.as_str());
        m.append("` failed (exit code ");
        match code {
            Some(c) => {
                let digits = signed_decimal_string(c);
                m.append("Some(");
                m.append(digits.as_str());
                m.append(")");
            },
            None => {
                m.append("None");
            },
        }
        m.append(")");
        if detail.unicode_len() > 0 {
            m.append(": ");
            m.append(detail.as_str());
        }
        proof {
            assert(m@ =~= failure_text(command_line_of(self@), code, trimmed(stderr@)));
        }
        m
    }

    /// What to do after attempt number `attempt` (counting from 1) ended
    /// with `outcome`: a success is kept; a failure or error is retried
    /// while retries remain, and otherwise ends the run with the failure's
    /// message or the error itself.
    pub fn next_action(&self, attempt: usize, outcome: &AttemptOutcome) -> (r: AttemptAction)
        requires
            1 <= attempt <= self@.retry + 1,
        ensures
            action_view(r) == next_action_of(self@, attempt as int, outcome_view(*outcome)),
    {
        let last = attempt > self.retry;
        match outcome {
            AttemptOutcome::Succeeded => AttemptAction::Finish,
            AttemptOutcome::Failed { code, stderr } => {
                if last {
                    AttemptAction::Fail { message: self.failure_message(*code, stderr.as_str()) }
                } else {
                    AttemptAction::Retry
                }
            },
            AttemptOutcome::Errored => {
                if last {
                    AttemptAction::ReturnError
                } else {
                    AttemptAction::Retry
                }
            },
        }
    }
}

/// The program and arguments of `c` as error messages show them.
pub open spec fn command_line_of(c: CmdView) -> Seq<char> {
    c.program + " "@ + join(c.args, " "@)
}

/// How an exit code is shown: `Some(n)` or `None`, as `{:?}` prints it.
pub open spec fn exit_code_text(code: Option<i32>) -> Seq<char> {
    match code {
        Some(c) => "Some("@ + signed_decimal(c as int) + ")"@,
        None => "None"@,
    }
}

/// The message of a failed run of `line`: the command in backquotes, the
/// exit code, and the trimmed standard error when there is any.
pub open spec fn failure_text(line: Seq<char>, code: Option<i32>, detail: Seq<char>) -> Seq<char> {
    "`"@ + line + "` failed (exit code "@ + exit_code_text(code) + ")"@ + (if detail.len() == 0 {
        Seq::empty()
    } else {
        ": "@ + detail
    })
}

/// How one attempt at running a command ended.
pub enum AttemptOutcome {
    /// The process exited successfully.
    Succeeded,
    /// The process exited unsuccessfully, with an exit code unless a signal
    /// ended it, and wrote `stderr`.
    Failed { code: Option<i32>, stderr: String },
    /// The process could not be run or timed out.
    Errored,
}

/// What the runner does after an attempt.
pub enum AttemptAction {
    /// Return the attempt's output.
    Finish,
    /// Run the command again.
    Retry,
    /// Stop with this message.
    Fail { message: String },
    /// Stop with the attempt's own error.
    ReturnError,
}

/// The mathematical content of an [`AttemptOutcome`].
pub enum OutcomeView {
    Succeeded,
    Failed { code: Option<i32>, stderr: Seq<char> },
    Errored,
}

/// The mathematical content of an [`AttemptAction`].
pub enum ActionView {
    Finish,
    Retry,
    Fail { message: Seq<char> },
    ReturnError,
}

pub open spec fn outcome_view(o: AttemptOutcome) -> OutcomeView {
    match o {
        AttemptOutcome::Succeeded => OutcomeView::Succeeded,
        AttemptOutcome::Failed { code, stderr } => OutcomeView::Failed { code: code, stderr: stderr@ },
        AttemptOutcome::Errored => OutcomeView::Errored,
    }
}

pub open spec fn action_view(a: AttemptAction) -> ActionView {
    match a {
        AttemptAction::Finish => ActionView::Finish,
        AttemptAction::Retry => ActionView::Retry,
        AttemptAction::Fail { message } => ActionView::Fail { message: message@ },
        AttemptAction::ReturnError => ActionView::ReturnError,
    }
}

/// The decision after attempt `attempt` of `c`: attempts run up to
/// `retry + 1` times in all; only the last one that fails ends the run.
pub open spec fn next_action_of(c: CmdView, attempt: int, o: OutcomeView) -> ActionView {
    match o {
        OutcomeView::Succeeded => ActionView::Finish,
        OutcomeView::Failed { code, stderr } => if attempt > c.retry {
            ActionView::Fail { message: failure_text(command_line_of(c), code, trimmed(stderr)) }
        } else {
            ActionView::Retry
        },
        OutcomeView::Errored => if attempt > c.retry {
            ActionView::ReturnError
        } else {
            ActionView::Retry
        },
    }
}

} // verus!
