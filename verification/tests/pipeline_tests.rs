use workflow_core::pipeline::Pipeline;
use workflow_core::schema::{ConcreteTask, ExecutorDef};

fn task(id: &str, depends_on: Vec<&str>) -> ConcreteTask {
    ConcreteTask {
        id: id.to_owned(),
        code: "castep".into(),
        executor: "local".into(),
        workdir: format!("runs/{id}"),
        depends_on: depends_on.into_iter().map(str::to_owned).collect(),
        inputs: vec![],
        executor_def: ExecutorDef::Local { parallelism: 1 },
        wall_time_secs: None,
        bindings: vec![],
        dep_workdirs: vec![],
    }
}

#[test]
fn builds_dag_and_topo_order_respects_deps() {
    let pipeline = Pipeline::from_tasks(vec![task("a", vec![]), task("b", vec!["a"]), task("c", vec!["b"])]).unwrap();
    let order: Vec<&str> = pipeline.topological_order().iter().map(|&ni| pipeline.task(ni).id.as_str()).collect();
    let pos = |id| order.iter().position(|&x| x == id).unwrap();
    assert!(pos("a") < pos("b"));
    assert!(pos("b") < pos("c"));
}

#[test]
fn unknown_dependency_returns_error() {
    let result = Pipeline::from_tasks(vec![task("b", vec!["nonexistent"])]);
    assert!(result.is_err());
}

#[test]
fn successors_and_predecessors_are_correct() {
    let pipeline = Pipeline::from_tasks(vec![task("a", vec![]), task("b", vec!["a"]), task("c", vec!["a"])]).unwrap();
    let mut succ: Vec<&str> = pipeline.successors("a").iter().map(|t| t.id.as_str()).collect();
    succ.sort();
    assert_eq!(succ, vec!["b", "c"]);
    let pred: Vec<&str> = pipeline.predecessors("b").iter().map(|t| t.id.as_str()).collect();
    assert_eq!(pred, vec!["a"]);
}

#[test]
fn cyclic_dependency_returns_error() {
    let result = Pipeline::from_tasks(vec![task("a", vec!["b"]), task("b", vec!["a"])]);
    assert!(result.is_err());
}

#[test]
fn pipeline_errors_and_lookups() {
    match Pipeline::from_tasks(vec![task("a", vec!["a"])]) {
        Err(m) => assert_eq!(m, "pipeline contains a cycle"),
        Ok(_) => panic!("a self dependency is a cycle"),
    }
    match Pipeline::from_tasks(vec![task("a", vec![]), task("b", vec!["a", "x"]), task("c", vec!["y"])]) {
        Err(m) => assert_eq!(m, "task 'b' depends on unknown task 'x'"),
        Ok(_) => panic!("expected an unknown dependency"),
    }
    // a cycle is reported before an unknown dependency
    match Pipeline::from_tasks(vec![task("a", vec!["b", "zz"]), task("b", vec!["a"])]) {
        Err(m) => assert_eq!(m, "pipeline contains a cycle"),
        Ok(_) => panic!("expected a cycle"),
    }
    let p = Pipeline::from_tasks(vec![task("a", vec![]), task("b", vec!["a"])]).unwrap();
    assert_eq!(p.len(), 2);
    assert_eq!(p.node_index("b"), Some(1));
    assert_eq!(p.node_index("q"), None);
    assert!(p.successors("q").is_empty());
    assert!(p.predecessors("a").is_empty());
    assert_eq!(p.task(1).workdir, "runs/b");
    assert_eq!(p.topological_order(), vec![0, 1]);
}
