use std::path::PathBuf;
use workflow_core::castep::{CastepFactory, CastepLaunch, LammpsFactory};
use workflow_core::schema::{ConcreteTask, ExecutorDef};

fn make_task(executor_def: ExecutorDef) -> ConcreteTask {
    ConcreteTask {
        id: "test_scf".into(),
        code: "castep".into(),
        executor: "local".into(),
        workdir: "/tmp/castep_test_never_created".into(),
        depends_on: vec![],
        inputs: vec![
            ("CUT_OFF_ENERGY".into(), "400".into()),
            ("TASK".into(), "SinglePoint".into()),
        ],
        executor_def,
        wall_time_secs: None,
        bindings: vec![],
        dep_workdirs: vec![],
    }
}

#[test]
fn build_returns_executor_without_io() {
    let task = make_task(ExecutorDef::Local { parallelism: 1 });
    let factory = CastepFactory;
    let _plan = factory.build(&task);
    assert!(!std::path::Path::new(&task.workdir).exists());
}

#[test]
fn build_local_plan() {
    let mut task = make_task(ExecutorDef::Local { parallelism: 1 });
    task.dep_workdirs = vec![("scf".into(), "/runs/scf".into())];
    let plan = CastepFactory.build(&task);
    assert_eq!(plan.param_file, "test_scf.param");
    assert_eq!(plan.param_content, "CUT_OFF_ENERGY : 400\nTASK : SinglePoint\n");
    assert_eq!(plan.check_sources, vec![("/runs/scf".to_string(), "scf.check".to_string())]);
    assert_eq!(plan.check_target, "test_scf.check");
    assert_eq!(plan.workdir, "/tmp/castep_test_never_created");
    match plan.launch {
        CastepLaunch::Local(e) => {
            assert_eq!(e.program(), "castep");
            assert_eq!(e.args(), &vec!["test_scf".to_string()]);
            assert_eq!(e.workdir(), &PathBuf::from("/tmp/castep_test_never_created"));
        }
        _ => panic!("expected a local launch"),
    }
}

#[test]
fn build_slurm_jobscript() {
    let task = make_task(ExecutorDef::Slurm { partition: "debug".into(), ntasks: 16, walltime: "01:00:00".into() });
    let plan = CastepFactory.build(&task);
    match plan.launch {
        CastepLaunch::Slurm { jobscript } => assert_eq!(
            jobscript,
            "#!/bin/bash\n#SBATCH --partition=debug\n#SBATCH --ntasks=16\n#SBATCH --time=01:00:00\ncastep test_scf\n"
        ),
        _ => panic!("expected a SLURM launch"),
    }
}

#[test]
fn factory_names_and_executor_names() {
    assert_eq!(CastepFactory.code_name(), "castep");
    assert_eq!(LammpsFactory.code_name(), "lammps");
    assert_eq!(ExecutorDef::Local { parallelism: 2 }.as_str(), "local");
    assert_eq!(ExecutorDef::Slurm { partition: "p".into(), ntasks: 1, walltime: "1".into() }.as_str(), "slurm");
    assert_eq!(CastepFactory::param_content(&vec![]), "");
}

#[test]
fn repeated_input_key_is_detected() {
    let mut t = workflow_core::schema::ConcreteTask {
        id: "t".into(),
        code: "castep".into(),
        executor: "local".into(),
        workdir: "/tmp".into(),
        depends_on: vec![],
        inputs: vec![("cut_off_energy".into(), "500".into()), ("task".into(), "\"SinglePoint\"".into())],
        executor_def: workflow_core::schema::ExecutorDef::Local { parallelism: 1 },
        wall_time_secs: None,
        bindings: vec![],
        dep_workdirs: vec![],
    };
    assert!(t.keys_unique());
    t.inputs.push(("task".into(), "\"GeometryOptimization\"".into()));
    assert!(!t.keys_unique());
}
