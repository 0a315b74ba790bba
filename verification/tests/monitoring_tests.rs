use std::path::PathBuf;
use workflow_core::monitoring::{HookContext, HookExecutor, HookResult, HookTrigger, MonitoringHook};
use workflow_core::WorkflowError;

struct MockOkExecutor;

impl HookExecutor for MockOkExecutor {
    fn execute_hook(&self, _hook: &MonitoringHook, _ctx: &HookContext) -> Result<HookResult, WorkflowError> {
        Ok(HookResult { success: true, output: String::new() })
    }
}

struct MockErrExecutor;

impl HookExecutor for MockErrExecutor {
    fn execute_hook(&self, _hook: &MonitoringHook, _ctx: &HookContext) -> Result<HookResult, WorkflowError> {
        Err(WorkflowError::Io(std::io::Error::other("mock failure")))
    }
}

#[test]
fn test_monitoring_hook_new() {
    let hook = MonitoringHook {
        name: "test-hook".into(),
        command: "echo test".into(),
        trigger: HookTrigger::OnComplete,
    };
    assert_eq!(hook.name, "test-hook");
}

#[test]
fn test_hook_trigger_variant() {
    assert!(matches!(HookTrigger::OnStart, HookTrigger::OnStart));
}

#[test]
fn test_hook_context() {
    let ctx = HookContext {
        task_id: "task-1".to_string(),
        workdir: PathBuf::from("."),
        state: "running".to_string(),
        exit_code: None,
    };
    assert_eq!(ctx.task_id, "task-1");
}

#[test]
fn test_hook_result() {
    let result = HookResult { success: true, output: "output".to_string() };
    assert!(result.success);
}

#[test]
fn mock_ok_executor_returns_success() {
    let hook = MonitoringHook { name: String::new(), command: "echo hi".into(), trigger: HookTrigger::OnStart };
    let ctx = HookContext {
        task_id: "t1".into(),
        state: "running".into(),
        workdir: PathBuf::from("."),
        exit_code: None,
    };
    let result = MockOkExecutor.execute_hook(&hook, &ctx).unwrap();
    assert!(result.success);
}

#[test]
fn mock_err_executor_returns_error() {
    let hook = MonitoringHook { name: String::new(), command: "echo hi".into(), trigger: HookTrigger::OnStart };
    let ctx = HookContext {
        task_id: "t1".into(),
        state: "running".into(),
        workdir: PathBuf::from("."),
        exit_code: None,
    };
    assert!(matches!(MockErrExecutor.execute_hook(&hook, &ctx), Err(WorkflowError::Io(_))));
}

#[test]
fn hook_constructor_and_firing() {
    let start = MonitoringHook::new("s", "notify start", HookTrigger::OnStart);
    assert_eq!(start.name, "s");
    assert_eq!(start.command, "notify start");
    assert!(start.fires_on_start());
    assert!(!start.fires_on_finish(true));
    assert!(!start.fires_on_finish(false));
    let done = MonitoringHook::new("d", "x", HookTrigger::OnComplete);
    assert!(done.fires_on_finish(true));
    assert!(!done.fires_on_finish(false));
    let fail = MonitoringHook::new("f", "x", HookTrigger::OnFailure);
    assert!(!fail.fires_on_finish(true));
    assert!(fail.fires_on_finish(false));
    let periodic = MonitoringHook::new("p", "x", HookTrigger::Periodic { interval_secs: 5 });
    assert!(!periodic.fires_on_start());
    assert!(!periodic.fires_on_finish(true));
}

#[test]
fn hook_invocation_splits_command_and_sets_environment() {
    let hook = MonitoringHook::new("h", "  report.sh --verbose  out.txt ", HookTrigger::OnComplete);
    let ctx = HookContext {
        task_id: "scf".into(),
        workdir: PathBuf::from("/runs/scf"),
        state: "completed".into(),
        exit_code: Some(0),
    };
    let inv = hook.invocation(&ctx);
    assert_eq!(inv.program, "report.sh");
    assert_eq!(inv.args, vec!["--verbose", "out.txt"]);
    assert_eq!(inv.workdir, PathBuf::from("/runs/scf"));
    let env: Vec<(String, String)> = inv.env.clone();
    assert_eq!(
        env,
        vec![
            ("TASK_ID".to_string(), "scf".to_string()),
            ("TASK_STATE".to_string(), "completed".to_string()),
            ("WORKDIR".to_string(), "/runs/scf".to_string()),
            ("EXIT_CODE".to_string(), "0".to_string()),
        ]
    );
    let ctx2 = HookContext { exit_code: Some(-3), ..ctx.clone() };
    assert_eq!(hook.invocation(&ctx2).env[3].1, "-3");
    let ctx3 = HookContext { exit_code: None, ..ctx };
    assert_eq!(hook.invocation(&ctx3).env[3].1, "");
    let empty = MonitoringHook::new("e", "   ", HookTrigger::OnStart);
    let inv = empty.invocation(&ctx3);
    assert_eq!(inv.program, "");
    assert!(inv.args.is_empty());
}
