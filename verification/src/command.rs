//! A command to run in a directory, built step by step, and what running
//! it gave.
use vstd::prelude::*;

verus! {

/// The environment that the pairs give, a later pair for a name replacing
/// an earlier one.
pub open spec fn env_map(s: Seq<(String, String)>) -> Map<Seq<char>, Seq<char>>
    decreases s.len(),
{
    if s.len() == 0 {
        Map::empty()
    } else {
        env_map(s.drop_last()).insert(s.last().0@, s.last().1@)
    }
}

/// The names of the pairs, in order.
pub open spec fn env_names(s: Seq<(String, String)>) -> Seq<Seq<char>> {
    s.map_values(|e: (String, String)| e.0@)
}

/// A command with its arguments and added environment, run in a directory.
pub struct TaskExecutor {
    workdir: std::path::PathBuf,
    command: String,
    args: Vec<String>,
    env: Vec<(String, String)>,
}

/// Replacing the value of the pair at `i` replaces it in the environment.
proof fn lemma_env_update(s: Seq<(String, String)>, i: int, v: String)
    requires
        env_names(s).no_duplicates(),
        0 <= i < s.len(),
    ensures
        env_names(s.update(i, (s[i].0, v))) == env_names(s),
        env_map(s.update(i, (s[i].0, v))) == env_map(s).insert(s[i].0@, v@),
    decreases s.len(),
{
    let u = s.update(i, (s[i].0, v));
    assert(env_names(u) =~= env_names(s));
    if i == s.len() - 1 {
        assert(u.drop_last() =~= s.drop_last());
        assert(env_map(u) =~= env_map(s).insert(s[i].0@, v@));
    } else {
        let t = s.drop_last();
        assert(env_names(t) =~= env_names(s).drop_last());
        lemma_env_update(t, i, v);
        assert(u.drop_last() =~= t.update(i, (t[i].0, v)));
        assert(env_names(s)[s.len() - 1] != env_names(s)[i]);
        assert(env_map(u) =~= env_map(s).insert(s[i].0@, v@));
    }
}

impl TaskExecutor {
    #[verifier::type_invariant]
    closed spec fn distinct_names(&self) -> bool {
        env_names(self.env@).no_duplicates()
    }

    /// The directory the command runs in.
    pub closed spec fn dir(&self) -> std::path::PathBuf {
        self.workdir
    }

    /// The program.
    pub closed spec fn program(&self) -> Seq<char> {
        self.command@
    }

    /// Its arguments.
    pub closed spec fn arg_list(&self) -> Seq<String> {
        self.args@
    }

    /// The environment added for it.
    pub closed spec fn env_vars(&self) -> Map<Seq<char>, Seq<char>> {
        env_map(self.env@)
    }

    /// A command with an empty program, no arguments and no added
    /// environment, to run in `workdir`.
    pub fn new(workdir: std::path::PathBuf) -> (r: TaskExecutor)
        ensures
            r.dir() == workdir,
            r.program() == Seq::<char>::empty(),
            r.arg_list() == Seq::<String>::empty(),
            r.env_vars() == Map::<Seq<char>, Seq<char>>::empty(),
    {
        let r = TaskExecutor { workdir, command: String::new(), args: Vec::new(), env: Vec::new() };
        proof {
            assert(env_names(r.env@) =~= Seq::<Seq<char>>::empty());
        }
        r
    }

    /// Sets the program.
    pub fn command(self, cmd: &str) -> (r: TaskExecutor)
        ensures
            r.program() == cmd@,
            r.dir() == self.dir(),
            r.arg_list() == self.arg_list(),
            r.env_vars() == self.env_vars(),
    {
        proof {
            use_type_invariant(&self);
        }
        TaskExecutor { workdir: self.workdir, command: cmd.to_owned(), args: self.args, env: self.env }
    }

    /// Adds one argument.
    pub fn arg(self, a: &str) -> (r: TaskExecutor)
        ensures
            r.arg_list().len() == self.arg_list().len() + 1,
            r.arg_list().drop_last() == self.arg_list(),
            r.arg_list().last()@ == a@,
            r.dir() == self.dir(),
            r.program() == self.program(),
            r.env_vars() == self.env_vars(),
    {
        proof {
            use_type_invariant(&self);
        }
        let mut args = self.args;
        args.push(a.to_owned());
        proof {
            assert(args@.drop_last() =~= self.args@);
        }
        TaskExecutor { workdir: self.workdir, command: self.command, args, env: self.env }
    }

    /// Adds the arguments, in order.
    pub fn args(self, more: Vec<String>) -> (r: TaskExecutor)
        ensures
            r.arg_list() == self.arg_list() + more@,
            r.dir() == self.dir(),
            r.program() == self.program(),
            r.env_vars() == self.env_vars(),
    {
        proof {
            use_type_invariant(&self);
        }
        let mut args = self.args;
        let mut more = more;
        args.append(&mut more);
        TaskExecutor { workdir: self.workdir, command: self.command, args, env: self.env }
    }

    /// Sets the environment variable `key` to `val`, replacing an earlier value.
    pub fn env(self, key: &str, val: &str) -> (r: TaskExecutor)
        ensures
            r.env_vars() == self.env_vars().insert(key@, val@),
            r.dir() == self.dir(),
            r.program() == self.program(),
            r.arg_list() == self.arg_list(),
    {
        proof {
            use_type_invariant(&self);
        }
        let mut env = self.env;
        let mut i: usize = 0;
        while i < env.len()
            invariant
                i <= env.len(),
                env@ == self.env@,
                env_names(self.env@).no_duplicates(),
                forall|k: int| 0 <= k < i ==> env_names(env@)[k] != key@,
            decreases env.len() - i,
        {
            if crate::text::str_eq(env[i].0.as_str(), key) {
                let name = env[i].0.clone();
                let ghost before = env@;
                env.set(i, (name, val.to_owned()));
                proof {
                    assert(env@ == before.update(i as int, (before[i as int].0, env@[i as int].1)));
                    lemma_env_update(before, i as int, env@[i as int].1);
                }
                return TaskExecutor { workdir: self.workdir, command: self.command, args: self.args, env };
            }
            i = i + 1;
        }
        let ghost before = env@;
        env.push((key.to_owned(), val.to_owned()));
        proof {
            assert(env@.drop_last() =~= before);
            assert(env_names(env@) =~= env_names(before).push(key@));
            assert(!env_names(before).contains(key@));
        }
        TaskExecutor { workdir: self.workdir, command: self.command, args: self.args, env }
    }

    /// The directory the command runs in.
    pub fn workdir(&self) -> (r: &std::path::PathBuf)
        ensures
            *r == self.dir(),
    {
        &self.workdir
    }

    /// The program.
    pub fn program_name(&self) -> (r: &str)
        ensures
            r@ == self.program(),
    {
        self.command.as_str()
    }

    /// The arguments.
    pub fn arguments(&self) -> (r: &Vec<String>)
        ensures
            r@ == self.arg_list(),
    {
        &self.args
    }

    /// The added environment, one pair per name.
    pub fn env_pairs(&self) -> (r: &Vec<(String, String)>)
        ensures
            env_map(r@) == self.env_vars(),
            env_names(r@).no_duplicates(),
    {
        proof {
            use_type_invariant(self);
        }
        &self.env
    }
}

/// What running a command gave.
pub struct ExecutionResult {
    /// The exit code, when the process exited normally.
    pub exit_code: Option<i32>,
    /// Its standard output.
    pub stdout: String,
    /// Its standard error.
    pub stderr: String,
    /// How long it ran.
    pub duration: std::time::Duration,
}

impl ExecutionResult {
    /// Whether the command exited with code 0.
    pub fn success(&self) -> (r: bool)
        ensures
            r == (self.exit_code == Some(0i32)),
    {
        match self.exit_code {
            Some(c) => c == 0,
            None => false,
        }
    }
}

} // verus!
