//! Configured tasks: what a workflow definition says of each task once its
//! sweeps are expanded.
use vstd::prelude::*;
use vstd::string::*;

verus! {

/// Executor definition for a task.
#[derive(Debug, Clone)]
pub enum ExecutorDef {
    /// Execute locally.
    Local {
        /// Number of parallel copies to run.
        parallelism: usize,
    },
    /// Execute via SLURM.
    Slurm {
        /// SLURM partition to use.
        partition: String,
        /// Number of tasks.
        ntasks: usize,
        /// Walltime, as SLURM's `--time` takes it.
        walltime: String,
    },
}

impl ExecutorDef {
    /// The executor's name: "local" or "slurm".
    pub fn as_str(&self) -> (r: &'static str)
        ensures
            r@ == (match self {
                ExecutorDef::Local { .. } => "local"@,
                ExecutorDef::Slurm { .. } => "slurm"@,
            }),
    {
        proof {
            reveal_strlit("local");
            reveal_strlit("slurm");
        }
        match self {
            ExecutorDef::Local { .. } => "local",
            ExecutorDef::Slurm { .. } => "slurm",
        }
    }
}

/// A task definition in the workflow, with its inputs rendered as text.
#[derive(Debug, Clone)]
pub struct ConcreteTask {
    /// Unique task identifier.
    pub id: String,
    /// Task code (e.g., "castep", "lammps").
    pub code: String,
    /// Executor identifier (e.g., "local", "slurm").
    pub executor: String,
    /// The working directory of the task.
    pub workdir: String,
    /// Dependencies on other task IDs.
    pub depends_on: Vec<String>,
    /// Task inputs: each key with its value as text (a TOML string as it
    /// is, any other value in TOML notation), in the order to write them.
    pub inputs: Vec<(String, String)>,
    /// Executor definition.
    pub executor_def: ExecutorDef,
    /// Wall time in seconds.
    pub wall_time_secs: Option<usize>,
    /// Variable bindings for sweep/parallel execution.
    pub bindings: Vec<(String, String)>,
    /// Working directories of dependency tasks, by task id.
    pub dep_workdirs: Vec<(String, String)>,
}

/// No key occurs twice among the pairs.
pub open spec fn keys_distinct(s: Seq<(String, String)>) -> bool {
    forall|i: int, j: int| 0 <= i < j < s.len() ==> (#[trigger] s[i]).0@ != (#[trigger] s[j]).0@
}

/// Whether no key occurs twice among the pairs.
fn pairs_keys_distinct(s: &Vec<(String, String)>) -> (r: bool)
    ensures
        r == keys_distinct(s@),
{
    let mut j: usize = 0;
    while j < s.len()
        invariant
            j <= s@.len(),
            forall|a: int, b: int| 0 <= a < b < j ==> (#[trigger] s@[a]).0@ != (#[trigger] s@[b]).0@,
        decreases s@.len() - j,
    {
        let mut i: usize = 0;
        while i < j
            invariant
                i <= j < s@.len(),
                forall|a: int| 0 <= a < i ==> (#[trigger] s@[a]).0@ != s@[j as int].0@,
            decreases j - i,
        {
            if crate::text::str_eq(s[i].0.as_str(), s[j].0.as_str()) {
                return false;
            }
            i = i + 1;
        }
        j = j + 1;
    }
    true
}

impl ConcreteTask {
    /// Each input, binding and dependency working directory is given once
    /// per key, as a map holds them.
    pub open spec fn wf(&self) -> bool {
        &&& keys_distinct(self.inputs@)
        &&& keys_distinct(self.bindings@)
        &&& keys_distinct(self.dep_workdirs@)
    }

    /// Whether each input, binding and dependency working directory is
    /// given once per key.
    pub fn keys_unique(&self) -> (r: bool)
        ensures
            r == self.wf(),
    {
        pairs_keys_distinct(&self.inputs) && pairs_keys_distinct(&self.bindings) && pairs_keys_distinct(&self.dep_workdirs)
    }
}

} // verus!
