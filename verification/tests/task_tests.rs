use std::collections::HashMap;
use std::path::{Path, PathBuf};
use workflow_core::monitoring::{HookTrigger, MonitoringHook};
use workflow_core::task::{ExecutionMode, Task, TaskClosure};

#[test]
fn task_builder() {
    let t = Task::new("my_task", ExecutionMode::direct("echo", &["test"]));
    assert_eq!(t.id, "my_task");
    assert!(t.dependencies.is_empty());
    assert!(t.monitors.is_empty());
}

#[test]
fn direct_constructor_fields() {
    let mode = ExecutionMode::direct("castep", &["ZnO", "--flag"]);
    match mode {
        ExecutionMode::Direct { command, args, env, timeout } => {
            assert_eq!(command, "castep");
            assert_eq!(args, vec!["ZnO".to_string(), "--flag".to_string()]);
            assert!(env.is_empty());
            assert!(timeout.is_none());
        }
        _ => panic!("expected Direct variant"),
    }
}

#[test]
fn execution_mode_debug() {
    let mode = ExecutionMode::direct("echo", &[]);
    let dbg = format!("{:?}", mode);
    assert!(dbg.contains("Direct"));
}

#[test]
fn depends_on_chaining() {
    let t = Task::new("t", ExecutionMode::direct("true", &[]))
        .depends_on("a")
        .depends_on("b");
    assert_eq!(t.dependencies, vec!["a", "b"]);
}

struct Touch;

impl TaskClosure for Touch {
    fn call(&self, workdir: &Path) -> Result<(), String> {
        if workdir == Path::new("/nonexistent") {
            Err("no such directory".to_string())
        } else {
            Ok(())
        }
    }
}

#[test]
fn builder_sets_every_field() {
    let hook = MonitoringHook::new("h", "echo hi", HookTrigger::OnStart);
    let t = Task::new("t", ExecutionMode::Queued)
        .workdir(PathBuf::from("/work/t"))
        .setup(Box::new(Touch))
        .collect(Box::new(Touch))
        .monitors(vec![hook.clone()])
        .add_monitor(MonitoringHook::new("g", "true", HookTrigger::OnFailure));
    assert_eq!(t.workdir, PathBuf::from("/work/t"));
    assert_eq!(t.monitors.len(), 2);
    assert_eq!(t.monitors[0].name, "h");
    assert_eq!(t.monitors[1].name, "g");
    assert!(matches!(t.mode, ExecutionMode::Queued));
    let setup = t.setup.as_ref().unwrap();
    assert!(setup.call(Path::new("/work/t")).is_ok());
    assert_eq!(setup.call(Path::new("/nonexistent")), Err("no such directory".to_string()));
    assert!(t.collect.is_some());
}

#[test]
fn new_task_runs_in_current_directory() {
    let t = Task::new("t", ExecutionMode::Direct {
        command: "true".into(),
        args: vec![],
        env: HashMap::new(),
        timeout: None,
    });
    assert_eq!(t.workdir, PathBuf::from("."));
    assert!(t.setup.is_none());
    assert!(t.collect.is_none());
}
