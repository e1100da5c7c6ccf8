use night::distributed::communication::{Communication, Message};
use night::distributed::node::{Node, NodeState, TaskStatus};
use night::distributed::DistributedSystem;
use night::error::NightError;
use std::sync::Arc;

fn node(id: &str, port: u16) -> Arc<Node> {
    Arc::new(Node::new(id.to_string(), format!("127.0.0.1:{}", port)))
}

fn targets(sends: &[(String, Message)]) -> Vec<String> {
    sends.iter().map(|(addr, _)| addr.clone()).collect()
}

#[test]
fn node_tracks_its_tasks() {
    let mut n = Node::new("alpha".to_string(), "127.0.0.1:7000".to_string());
    assert_eq!(n.id(), "alpha");
    assert_eq!(n.addr(), "127.0.0.1:7000");
    assert_eq!(n.get_state(), NodeState::Active);
    n.set_state(NodeState::Inactive);
    assert_eq!(n.get_state(), NodeState::Inactive);
    assert!(n.add_task(3).is_ok());
    assert_eq!(n.get_task_status(&3), Some(TaskStatus::Queued));
    assert!(n.update_task_status(3, TaskStatus::Running).is_ok());
    assert_eq!(n.get_task_status(&3), Some(TaskStatus::Running));
    match n.update_task_status(4, TaskStatus::Failed) {
        Err(NightError::TaskNotFound(m)) => assert_eq!(m, "Task 4 not found on node alpha"),
        _ => panic!("task 4 is not on the node"),
    }
    assert_eq!(n.get_task_status(&4), None);
    let all = n.get_all_tasks();
    assert_eq!(all.len(), 1);
    assert_eq!(all[&3], TaskStatus::Running);
}

#[test]
fn assignments_queue_tasks_on_the_node() {
    let mut n = Node::new("alpha".to_string(), "a".to_string());
    let assignment = Message::TaskAssignment(
        8,
        night::task::Task::restore(
            8,
            0,
            std::time::Instant::now(),
            None,
            None,
            0,
            0,
            vec![],
            night::task::TaskStatus::Queued,
        ),
    );
    assert!(Communication::handle_message(&mut n, &assignment).is_ok());
    assert_eq!(n.get_task_status(&8), Some(TaskStatus::Queued));
    assert!(Communication::handle_message(&mut n, &Message::Heartbeat("beta".to_string())).is_ok());
    assert_eq!(n.get_all_tasks().len(), 1);
}

#[test]
fn broadcasts_skip_the_local_node() {
    let local = node("alpha", 7000);
    let communication = Communication::new(local.clone());
    assert_eq!(communication.get_node().id(), "alpha");
    let nodes = vec![node("beta", 7001), local.clone(), node("gamma", 7002)];
    let sends = communication.broadcast(&nodes, Message::Heartbeat("alpha".to_string()));
    assert_eq!(targets(&sends), vec!["127.0.0.1:7001", "127.0.0.1:7002"]);
    for (_, message) in &sends {
        assert!(matches!(message, Message::Heartbeat(id) if id == "alpha"));
    }
}

#[test]
fn nodes_join_and_leave() {
    let mut system = DistributedSystem::new(node("alpha", 7000));
    assert!(system.send_heartbeat().is_empty());
    let sends = system.add_node(node("beta", 7001));
    assert_eq!(targets(&sends), vec!["127.0.0.1:7001"]);
    assert!(matches!(&sends[0].1, Message::NodeJoin(id) if id == "beta"));
    let sends = system.add_node(node("gamma", 7002));
    assert_eq!(targets(&sends), vec!["127.0.0.1:7001", "127.0.0.1:7002"]);
    // A node that joins again takes its own place.
    let sends = system.add_node(node("beta", 7005));
    assert_eq!(targets(&sends), vec!["127.0.0.1:7005", "127.0.0.1:7002"]);
    let sends = system.send_heartbeat();
    assert_eq!(targets(&sends), vec!["127.0.0.1:7005", "127.0.0.1:7002"]);
    assert!(matches!(&sends[0].1, Message::Heartbeat(id) if id == "alpha"));
    let sends = system.remove_node(&"gamma".to_string());
    assert_eq!(targets(&sends), vec!["127.0.0.1:7005"]);
    assert!(matches!(&sends[0].1, Message::NodeLeave(id) if id == "gamma"));
}

#[test]
fn tasks_fall_to_members() {
    let mut system = DistributedSystem::new(node("alpha", 7000));
    assert_eq!(system.get_node_for_task("task-1").unwrap().id(), "alpha");
    system.add_node(node("beta", 7001));
    for key in ["a", "b", "c", "d"] {
        let chosen = system.get_node_for_task(key).unwrap();
        assert!(chosen.id() == "alpha" || chosen.id() == "beta");
    }
    system.remove_node(&"alpha".to_string());
    system.remove_node(&"beta".to_string());
    assert!(system.get_node_for_task("a").is_none());
}
