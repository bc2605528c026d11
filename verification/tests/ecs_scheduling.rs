use space_game::ecs::dependency::{execution_order, Dependency, ExecutionOrderError};
use space_game::ecs::reactor::compute_execution_order;
use space_game::ecs::state::StateId;
use space_game::ecs::topic::TopicId;
use space_game::graph::{dfs_postorder, order_nodes};

fn state(id: u64, name: &'static str) -> StateId {
    StateId { id, name }
}

fn topic(id: u64, name: &'static str) -> TopicId {
    TopicId { id, name }
}

fn position(order: &[usize], x: usize) -> usize {
    order.iter().position(|&y| y == x).unwrap()
}

#[test]
fn dfs_lists_children_first() {
    // 0 -> 1 -> 2, 0 -> 2
    let adj = vec![vec![1, 2], vec![2], vec![]];
    let order = dfs_postorder(&adj);
    assert_eq!(order, vec![2, 1, 0]);
}

#[test]
fn dfs_lists_every_node_of_a_cycle_once() {
    let adj = vec![vec![1], vec![0], vec![]];
    let mut order = dfs_postorder(&adj);
    order.sort();
    assert_eq!(order, vec![0, 1, 2]);
}

#[test]
fn order_nodes_ignores_edges_to_unknown_nodes() {
    let nodes = vec![10, 20, 30];
    let edges = vec![(10, 20), (20, 30), (30, 99)];
    let order = order_nodes(&nodes, &edges);
    assert_eq!(order, vec![30, 20, 10]);
}

#[test]
fn readers_run_after_the_writer() {
    let s = state(1, "Position");
    let writer = [Dependency::WriteState(s)];
    let reader = [Dependency::ReadState(s)];
    let all: [&[Dependency]; 2] = [&reader, &writer];
    let order = execution_order(&all).ok().unwrap();
    assert_eq!(order.len(), 2);
    assert!(position(&order, 1) < position(&order, 0));
}

#[test]
fn delayed_readers_run_before_the_writer() {
    let s = state(1, "Position");
    let writer = [Dependency::WriteState(s)];
    let reader = [Dependency::ReadStateDelayed(s)];
    let all: [&[Dependency]; 2] = [&writer, &reader];
    let order = execution_order(&all).ok().unwrap();
    assert!(position(&order, 1) < position(&order, 0));
}

#[test]
fn publishers_run_before_subscribers() {
    let t = topic(7, "Collision");
    let subscriber = [Dependency::SubscribeTopic(t)];
    let publisher = [Dependency::PublishTopic(t)];
    let other = [];
    let all: [&[Dependency]; 3] = [&subscriber, &other, &publisher];
    let order = execution_order(&all).ok().unwrap();
    assert_eq!(order.len(), 3);
    assert!(position(&order, 2) < position(&order, 0));
}

#[test]
fn state_id_of_dependencies() {
    let s = state(3, "Health");
    assert_eq!(Dependency::WriteState(s).state_id().unwrap().id, 3);
    assert_eq!(Dependency::ReadStateDelayed(s).state_id().unwrap().name, "Health");
    assert!(Dependency::PublishTopic(topic(1, "T")).state_id().is_none());
}

#[test]
fn write_conflict_message() {
    let e = ExecutionOrderError::WriteConflict(state(1, "Position"), 0, 2);
    let names = ["physics", "input", "ai"];
    let msg = e.error_message(|i| names[i].to_string());
    assert_eq!(msg, "Write conflict on Position. Writers are physics and ai.");
}

#[test]
fn cyclic_message() {
    let e = ExecutionOrderError::Cyclic(vec![2, 0, 1]);
    let msg = e.error_message(|i| format!("h{}", i));
    assert_eq!(msg, "Cyclic dependency between h2, h0, h1.");
}

#[test]
fn compute_execution_order_acyclic() {
    let s = state(1, "Position");
    let writer = [Dependency::WriteState(s)];
    let reader = [Dependency::ReadState(s)];
    let all: [&[Dependency]; 2] = [&reader, &writer];
    let order = compute_execution_order(&all).ok().unwrap();
    assert_eq!(order, vec![1, 0]);
}

#[test]
fn compute_execution_order_reports_a_cycle() {
    let a = state(1, "A");
    let b = state(2, "B");
    let h0 = [Dependency::ReadState(a), Dependency::WriteState(b)];
    let h1 = [Dependency::ReadState(b), Dependency::WriteState(a)];
    let all: [&[Dependency]; 2] = [&h0, &h1];
    let err = match compute_execution_order(&all) {
        Ok(_) => panic!("a cycle must be reported"),
        Err(e) => e,
    };
    let names = &err.0;
    assert!(names.len() >= 2);
    assert!(names.iter().any(|n| n == "Handler 0"));
    assert!(names.iter().any(|n| n == "Handler 1"));
    let msg = err.message();
    assert!(msg.starts_with("Cyclic dependency between: "));
    assert!(msg.contains(", "));
}

#[test]
fn compute_execution_order_names_states_and_topics() {
    let t = topic(5, "Ping");
    let h0 = [Dependency::SubscribeTopic(t), Dependency::PublishTopic(t)];
    let all: [&[Dependency]; 1] = [&h0];
    let err = match compute_execution_order(&all) {
        Ok(_) => panic!("a handler that feeds itself is a cycle"),
        Err(e) => e,
    };
    assert!(err.0.iter().any(|n| n == "Topic Ping"));
    assert!(err.0.iter().any(|n| n == "Handler 0"));
}

fn cyclic_lists(errors: &[ExecutionOrderError]) -> Vec<Vec<usize>> {
    errors
        .iter()
        .filter_map(|e| match e {
            ExecutionOrderError::Cyclic(v) => Some(v.clone()),
            ExecutionOrderError::WriteConflict(..) => None,
        })
        .collect()
}

#[test]
fn two_writers_of_one_state_conflict() {
    let a = state(1, "Position");
    let first = [Dependency::WriteState(a)];
    let second = [Dependency::WriteState(a)];
    let all: [&[Dependency]; 2] = [&first, &second];
    let errors = match execution_order(&all) {
        Err(errors) => errors,
        Ok(_) => panic!("a write conflict must be reported"),
    };
    assert_eq!(errors.len(), 1);
    match &errors[0] {
        ExecutionOrderError::WriteConflict(id, later, earlier) => {
            assert_eq!(id.id, 1);
            assert_eq!((*later, *earlier), (1, 0));
        }
        ExecutionOrderError::Cyclic(_) => panic!("expected a write conflict"),
    }
}

#[test]
fn a_handler_writing_a_state_twice_conflicts_with_itself() {
    let a = state(4, "Score");
    let only = [Dependency::WriteState(a), Dependency::WriteState(a)];
    let all: [&[Dependency]; 1] = [&only];
    let errors = execution_order(&all).err().unwrap();
    assert_eq!(errors.len(), 1);
    assert!(matches!(errors[0], ExecutionOrderError::WriteConflict(_, 0, 0)));
}

#[test]
fn a_dependency_cycle_is_reported() {
    let a = state(1, "A");
    let b = state(2, "B");
    let h0 = [Dependency::WriteState(a), Dependency::ReadState(b)];
    let h1 = [Dependency::WriteState(b), Dependency::ReadState(a)];
    let all: [&[Dependency]; 2] = [&h0, &h1];
    let errors = execution_order(&all).err().unwrap();
    let cycles = cyclic_lists(&errors);
    assert_eq!(cycles.len(), errors.len());
    assert!(!cycles.is_empty());
    for mut c in cycles {
        c.sort();
        assert_eq!(c, vec![0, 1]);
    }
}

#[test]
fn a_handler_reading_what_it_writes_forms_a_cycle() {
    let a = state(1, "A");
    let only = [Dependency::WriteState(a), Dependency::ReadState(a)];
    let all: [&[Dependency]; 1] = [&only];
    let errors = execution_order(&all).err().unwrap();
    assert_eq!(cyclic_lists(&errors), vec![vec![0]]);
}

#[test]
fn write_conflicts_come_before_cycles() {
    let a = state(1, "A");
    let b = state(2, "B");
    let h0 = [Dependency::WriteState(a), Dependency::ReadState(b)];
    let h1 = [Dependency::WriteState(b), Dependency::ReadState(a)];
    let h2 = [Dependency::WriteState(b)];
    let all: [&[Dependency]; 3] = [&h0, &h1, &h2];
    let errors = execution_order(&all).err().unwrap();
    assert!(matches!(errors[0], ExecutionOrderError::WriteConflict(_, 2, 1)));
    assert!(errors.len() > 1);
    assert!(errors[1..].iter().all(|e| matches!(e, ExecutionOrderError::Cyclic(_))));
}
