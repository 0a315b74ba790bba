//! Preparing CASTEP (and LAMMPS) tasks: the `.param` file written from a
//! task's inputs, the job that runs the code, and the `.check` files that
//! carry over from the tasks it depends on.
use crate::executor::LocalExecutor;
use crate::schema::{ConcreteTask, ExecutorDef};
use crate::task::{path_from, path_from_text};
use crate::text::{digits, u64_to_string, views};
use vstd::prelude::*;
use vstd::string::*;

verus! {

/// The `.param` text for the inputs: a line `key : value` each, in order.
pub open spec fn param_text(inputs: Seq<(String, String)>) -> Seq<char>
    decreases inputs.len(),
{
    if inputs.len() == 0 {
        Seq::empty()
    } else {
        param_text(inputs.drop_last()) + inputs.last().0@ + " : "@ + inputs.last().1@ + "\n"@
    }
}

/// The SLURM job script that runs CASTEP on the seed `id`.
pub open spec fn castep_jobscript(partition: Seq<char>, ntasks: nat, walltime: Seq<char>, id: Seq<char>) -> Seq<char> {
    "#!/bin/bash\n#SBATCH --partition="@ + partition + "\n#SBATCH --ntasks="@ + digits(ntasks)
        + "\n#SBATCH --time="@ + walltime + "\ncastep "@ + id + "\n"@
}

/// How a CASTEP task is run.
pub enum CastepLaunch {
    /// `castep <id>` as a local process in the work directory.
    Local(LocalExecutor),
    /// A SLURM job with this script, submitted from the work directory.
    Slurm { jobscript: String },
}

/// Everything a CASTEP task needs done before and for its run. Nothing is
/// written until the task is submitted.
pub struct CastepPlan {
    /// The task id, which is also the CASTEP seed name.
    pub task_id: String,
    /// The task's working directory.
    pub workdir: String,
    /// Name of the `.param` file, in the working directory.
    pub param_file: String,
    /// Content of the `.param` file.
    pub param_content: String,
    /// How the code is run.
    pub launch: CastepLaunch,
    /// For each dependency, its working directory and the name of the
    /// checkpoint file there that is copied in, when it exists.
    pub check_sources: Vec<(String, String)>,
    /// Name under which a copied checkpoint is stored in the working directory.
    pub check_target: String,
}

/// Builds CASTEP tasks.
pub struct CastepFactory;

impl CastepFactory {
    /// The code this factory builds tasks for.
    pub fn code_name(&self) -> (r: &'static str)
        ensures
            r@ == "castep"@,
    {
        proof {
            reveal_strlit("castep");
        }
        "castep"
    }

    /// The `.param` text for the inputs.
    pub fn param_content(inputs: &Vec<(String, String)>) -> (r: String)
        ensures
            r@ == param_text(inputs@),
    {
        proof {
            reveal_strlit(" : ");
            reveal_strlit("\n");
        }
        let mut out = String::new();
        let mut i: usize = 0;
        proof {
            assert(out@ =~= param_text(inputs@.take(0)));
        }
        while i < inputs.len()
            invariant
                i <= inputs.len(),
                out@ == param_text(inputs@.take(i as int)),
            decreases inputs.len() - i,
        {
            out.append(inputs[i].0.as_str());
            out.append(" : ");
            out.append(inputs[i].1.as_str());
            out.append("\n");
            proof {
                assert(inputs@.take(i as int + 1).drop_last() =~= inputs@.take(i as int));
                assert(out@ =~= param_text(inputs@.take(i as int + 1)));
            }
            i = i + 1;
        }
        proof {
            assert(inputs@.take(inputs@.len() as int) =~= inputs@);
        }
        out
    }

    /// What running `task` takes: its `.param` file `<id>.param` with a
    /// line per input; `castep <id>` run locally, or a SLURM job script
    /// with the partition, task count and wall time; and, from each
    /// dependency's working directory, the checkpoint `<dep>.check`, to be
    /// copied in as `<id>.check`.
    pub fn build(&self, task: &ConcreteTask) -> (r: CastepPlan)
        requires
            task.wf(),
        ensures
            r.task_id@ == task.id@,
            r.workdir@ == task.workdir@,
            r.param_file@ == task.id@ + ".param"@,
            r.param_content@ == param_text(task.inputs@),
            match task.executor_def {
                ExecutorDef::Local { .. } => r.launch matches CastepLaunch::Local(e)
                    && e.program_text() == "castep"@ && views(e.arg_list()) == seq![task.id@]
                    && e.dir() == path_from_text(task.workdir@),
                ExecutorDef::Slurm { partition, ntasks, walltime } => r.launch matches CastepLaunch::Slurm { jobscript }
                    && jobscript@ == castep_jobscript(partition@, ntasks as nat, walltime@, task.id@),
            },
            r.check_sources@.len() == task.dep_workdirs@.len(),
            forall|i: int| 0 <= i < task.dep_workdirs@.len() ==> {
                &&& (#[trigger] r.check_sources@[i]).0@ == task.dep_workdirs@[i].1@
                &&& r.check_sources@[i].1@ == task.dep_workdirs@[i].0@ + ".check"@
            },
            r.check_target@ == task.id@ + ".check"@,
    {
        proof {
            reveal_strlit(".param");
            reveal_strlit(".check");
            reveal_strlit("castep");
            reveal_strlit("#!/bin/bash\n#SBATCH --partition=");
            reveal_strlit("\n#SBATCH --ntasks=");
            reveal_strlit("\n#SBATCH --time=");
            reveal_strlit("\ncastep ");
            reveal_strlit("\n");
        }
        let param_content = Self::param_content(&task.inputs);
        let launch = match &task.executor_def {
            ExecutorDef::Local { .. } => {
                let mut args: Vec<String> = Vec::new();
                args.push(task.id.clone());
                proof {
                    assert(views(args@) =~= seq![task.id@]);
                }
                CastepLaunch::Local(LocalExecutor::new("castep", args, path_from(task.workdir.as_str())))
            },
            ExecutorDef::Slurm { partition, ntasks, walltime } => {
                let mut script = "#!/bin/bash\n#SBATCH --partition=".to_owned();
                script.append(partition.as_str());
                script.append("\n#SBATCH --ntasks=");
                script.append(u64_to_string(*ntasks as u64).as_str());
                script.append("\n#SBATCH --time=");
                script.append(walltime.as_str());
                script.append("\ncastep ");
                script.append(task.id.as_str());
                script.append("\n");
                proof {
                    assert(script@ =~= castep_jobscript(partition@, *ntasks as nat, walltime@, task.id@));
                }
                CastepLaunch::Slurm { jobscript: script }
            },
        };
        let mut check_sources: Vec<(String, String)> = Vec::new();
        let mut i: usize = 0;
        while i < task.dep_workdirs.len()
            invariant
                i <= task.dep_workdirs.len(),
                check_sources@.len() == i,
                forall|k: int| 0 <= k < i ==> {
                    &&& (#[trigger] check_sources@[k]).0@ == task.dep_workdirs@[k].1@
                    &&& check_sources@[k].1@ == task.dep_workdirs@[k].0@ + ".check"@
                },
            decreases task.dep_workdirs.len() - i,
        {
            let name = task.dep_workdirs[i].0.clone().concat(".check");
            check_sources.push((task.dep_workdirs[i].1.clone(), name));
            i = i + 1;
        }
        CastepPlan {
            task_id: task.id.clone(),
            workdir: task.workdir.clone(),
            param_file: task.id.clone().concat(".param"),
            param_content,
            launch,
            check_sources,
            check_target: task.id.clone().concat(".check"),
        }
    }
}

/// Builds LAMMPS tasks; running them is not implemented.
pub struct LammpsFactory;

impl LammpsFactory {
    /// The code this factory builds tasks for.
    pub fn code_name(&self) -> (r: &'static str)
        ensures
            r@ == "lammps"@,
    {
        proof {
            reveal_strlit("lammps");
        }
        "lammps"
    }
}

} // verus!
