use workflow_core::dag::Dag;
use workflow_core::text::TaskIdSet;
use workflow_core::WorkflowError;

fn make_dag(nodes: &[&str], edges: &[(&str, &str)]) -> Dag {
    let mut dag = Dag::new();
    for &id in nodes {
        dag.add_node(id.to_owned()).unwrap();
    }
    for &(f, t) in edges {
        dag.add_edge(f, t).unwrap();
    }
    dag
}

#[test]
fn topo_order_respects_deps() {
    let dag = make_dag(&["a", "b", "c"], &[("a", "b"), ("b", "c")]);
    let order = dag.topological_order();
    let pa = order.iter().position(|x| x == "a").unwrap();
    let pb = order.iter().position(|x| x == "b").unwrap();
    let pc = order.iter().position(|x| x == "c").unwrap();
    assert!(pa < pb && pb < pc);
}

#[test]
fn unknown_dep_errors() {
    let mut dag = Dag::new();
    dag.add_node("b".to_owned()).unwrap();
    assert!(matches!(
        dag.add_edge("missing", "b").unwrap_err(),
        WorkflowError::UnknownDependency { task: _, dependency: _ }
    ));
}

#[test]
fn cycle_detection() {
    let mut dag = make_dag(&["a", "b"], &[("a", "b")]);
    assert!(matches!(dag.add_edge("b", "a").unwrap_err(), WorkflowError::CycleDetected));
}

#[test]
fn ready_tasks_test() {
    let dag = make_dag(&["a", "b"], &[("a", "b")]);
    let mut completed = TaskIdSet::new();
    completed.insert("a".to_owned());
    let ready = dag.ready_tasks(&completed);
    assert_eq!(ready, vec!["b"]);
}

#[test]
fn duplicate_node_errors() {
    let mut dag = Dag::new();
    dag.add_node("x".to_owned()).unwrap();
    assert!(matches!(
        dag.add_node("x".to_owned()).unwrap_err(),
        WorkflowError::DuplicateTaskId(_)
    ));
}

#[test]
fn unknown_dependency_names_both_tasks() {
    let mut dag = make_dag(&["a"], &[]);
    match dag.add_edge("a", "zzz") {
        Err(WorkflowError::UnknownDependency { task, dependency }) => {
            assert_eq!(task, "zzz");
            assert_eq!(dependency, "a");
        }
        _ => panic!("expected UnknownDependency"),
    }
    match dag.add_edge("zzz", "a") {
        Err(WorkflowError::UnknownDependency { task, dependency }) => {
            assert_eq!(task, "zzz");
            assert_eq!(dependency, "a");
        }
        _ => panic!("expected UnknownDependency"),
    }
}

#[test]
fn self_loop_is_a_cycle() {
    let mut dag = make_dag(&["a"], &[]);
    assert!(matches!(dag.add_edge("a", "a"), Err(WorkflowError::CycleDetected)));
    // the refused edge leaves the graph as it was
    assert_eq!(dag.topological_order(), vec!["a"]);
}

#[test]
fn longer_cycle_refused_and_graph_unchanged() {
    let mut dag = make_dag(&["a", "b", "c"], &[("a", "b"), ("b", "c")]);
    assert!(matches!(dag.add_edge("c", "a"), Err(WorkflowError::CycleDetected)));
    let order = dag.topological_order();
    assert_eq!(order, vec!["a", "b", "c"]);
}

#[test]
fn diamond_order_and_ready_sets() {
    let dag = make_dag(&["a", "b", "c", "d"], &[("a", "b"), ("a", "c"), ("b", "d"), ("c", "d")]);
    let order = dag.topological_order();
    let pos = |x: &str| order.iter().position(|y| y == x).unwrap();
    assert!(pos("a") < pos("b") && pos("a") < pos("c"));
    assert!(pos("b") < pos("d") && pos("c") < pos("d"));
    assert_eq!(order.len(), 4);

    let none = TaskIdSet::new();
    assert_eq!(dag.ready_tasks(&none), vec!["a"]);
    let mut done = TaskIdSet::new();
    done.insert("a".to_owned());
    assert_eq!(dag.ready_tasks(&done), vec!["b", "c"]);
    done.insert("b".to_owned());
    assert_eq!(dag.ready_tasks(&done), vec!["c"]);
    done.insert("c".to_owned());
    assert_eq!(dag.ready_tasks(&done), vec!["d"]);
}

#[test]
fn successors_and_ids() {
    let dag = make_dag(&["a", "b", "c"], &[("a", "b"), ("a", "c")]);
    let mut succ = dag.successors("a");
    succ.sort();
    assert_eq!(succ, vec!["b", "c"]);
    assert!(dag.successors("c").is_empty());
    assert!(dag.successors("nope").is_empty());
    assert_eq!(dag.task_ids(), vec!["a", "b", "c"]);
}
