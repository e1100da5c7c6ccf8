use night::common::types::TaskConfig;
use night::mission::topology::TopologyManager;
use night::utils::error::NightError;

fn create_test_task(id: u128, deps: Vec<u128>) -> TaskConfig {
    TaskConfig {
        name: format!("Task {}", id),
        id,
        command: "echo test".to_string(),
        is_periodic: false,
        interval: "0".to_string(),
        importance: 1,
        dependencies: deps,
    }
}

fn uuid_text(id: u128) -> String {
    uuid::Uuid::from_u128(id).to_string()
}

#[test]
fn test_valid_topology() {
    let tasks = vec![
        create_test_task(1, vec![]),
        create_test_task(2, vec![1]),
        create_test_task(3, vec![1]),
        create_test_task(4, vec![2, 3]),
    ];

    let topology = TopologyManager::new(tasks).ok().unwrap();
    let order = topology.get_execution_order();
    assert_eq!(order.len(), 3);
    assert_eq!(order[0], vec![1u128]);
    assert!(order[1].contains(&2) && order[1].contains(&3));
    assert_eq!(order[2], vec![4u128]);
}

#[test]
fn test_cyclic_topology() {
    let tasks = vec![
        create_test_task(1, vec![3]),
        create_test_task(2, vec![1]),
        create_test_task(3, vec![2]),
    ];

    let result = TopologyManager::new(tasks);
    assert!(result.is_err());
}

#[test]
fn test_missing_dependency() {
    let tasks = vec![
        create_test_task(1, vec![]),
        create_test_task(2, vec![3]), // Task 3 doesn't exist
    ];

    let result = TopologyManager::new(tasks);
    assert!(result.is_err());
}

#[test]
fn cycle_error_names_the_cycle() {
    let tasks = vec![create_test_task(7, vec![7])];
    match TopologyManager::new(tasks) {
        Err(NightError::Mission(m)) => {
            assert_eq!(
                m,
                format!(
                    "Cyclic dependency detected: Mission(\"Cyclic dependency detected: {{{}}}\")",
                    uuid_text(7)
                )
            );
        }
        _ => panic!("a task that depends on itself is a cycle"),
    }
}

#[test]
fn missing_dependency_error_names_both_tasks() {
    let tasks = vec![create_test_task(1, vec![]), create_test_task(2, vec![3])];
    match TopologyManager::new(tasks) {
        Err(NightError::Mission(m)) => {
            assert_eq!(
                m,
                format!("Task {} depends on non-existent task {}", uuid_text(2), uuid_text(3))
            );
        }
        _ => panic!("an unknown dependency is refused"),
    }
}

#[test]
fn cycle_is_reported_before_missing_dependency() {
    let tasks = vec![create_test_task(1, vec![2, 9]), create_test_task(2, vec![1])];
    match TopologyManager::new(tasks) {
        Err(NightError::Mission(m)) => {
            assert!(m.starts_with("Cyclic dependency detected: Mission(\"Cyclic dependency detected: {"))
        }
        _ => panic!("the cycle is found first"),
    }
}

#[test]
fn empty_topology_has_no_levels() {
    let topology = TopologyManager::new(vec![]).ok().unwrap();
    assert!(topology.get_execution_order().is_empty());
}

#[test]
fn independent_tasks_share_the_first_level() {
    let topology =
        TopologyManager::new(vec![create_test_task(5, vec![]), create_test_task(6, vec![])])
            .ok()
            .unwrap();
    let order = topology.get_execution_order();
    assert_eq!(order.len(), 1);
    let mut level = order[0].clone();
    level.sort();
    assert_eq!(level, vec![5u128, 6]);
}

#[test]
fn chain_gives_one_task_per_level() {
    let topology = TopologyManager::new(vec![
        create_test_task(3, vec![2]),
        create_test_task(1, vec![]),
        create_test_task(2, vec![1]),
    ])
    .ok()
    .unwrap();
    assert_eq!(topology.get_execution_order(), vec![vec![1u128], vec![2], vec![3]]);
}

#[test]
fn lookups_give_configs_and_dependencies() {
    let topology =
        TopologyManager::new(vec![create_test_task(1, vec![]), create_test_task(2, vec![1])])
            .ok()
            .unwrap();
    assert_eq!(topology.get_task(&2).map(|t| t.name.clone()), Some("Task 2".to_string()));
    assert_eq!(topology.get_dependencies(&2), Some(&vec![1u128]));
    assert!(topology.get_task(&9).is_none());
    assert!(topology.get_dependencies(&9).is_none());
}

#[test]
fn complex_mission_levels_follow_dependencies() {
    // A -> B -> C -> D, and A -> E -> C.
    let (a, b, c, d, e) = (10u128, 11u128, 12u128, 13u128, 14u128);
    let topology = TopologyManager::new(vec![
        create_test_task(a, vec![]),
        create_test_task(b, vec![a]),
        create_test_task(c, vec![b, e]),
        create_test_task(d, vec![c]),
        create_test_task(e, vec![a]),
    ])
    .ok()
    .unwrap();
    let order = topology.get_execution_order();
    assert_eq!(order.len(), 4);
    assert_eq!(order[0], vec![a]);
    let mut second = order[1].clone();
    second.sort();
    assert_eq!(second, vec![b, e]);
    assert_eq!(order[2], vec![c]);
    assert_eq!(order[3], vec![d]);
}

#[test]
fn repeated_ids_without_earlier_dependencies_can_be_ordered() {
    let tasks = vec![
        create_test_task(1, vec![]),
        create_test_task(2, vec![]),
        create_test_task(2, vec![1]),
    ];
    assert!(night::mission::mission::repeats_name_no_tasks(&tasks));
    let topology = TopologyManager::new(tasks).ok().unwrap();
    assert_eq!(topology.get_execution_order(), vec![vec![1u128], vec![2]]);
    let clashing = vec![create_test_task(1, vec![]), create_test_task(2, vec![1]), create_test_task(2, vec![])];
    assert!(!night::mission::mission::repeats_name_no_tasks(&clashing));
}

#[test]
fn earlier_copies_may_name_unknown_tasks() {
    let tasks = vec![
        create_test_task(1, vec![]),
        create_test_task(2, vec![9]),
        create_test_task(2, vec![1]),
    ];
    assert!(night::mission::mission::repeats_name_no_tasks(&tasks));
    let topology = TopologyManager::new(tasks).ok().unwrap();
    assert_eq!(topology.get_execution_order(), vec![vec![1u128], vec![2]]);
}
