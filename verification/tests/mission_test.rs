use night::common::types::{MissionConfig, TaskCommunication, TaskConfig, TaskStatus};
use night::config::config::ConfigManager;
use night::mission::mission::{has_distinct_ids, Mission, BASE_PORT};
use night::task::communication::TaskCommunicator;
use night::task::task::{NotifyDecision, StartDecision, Task, MAX_RETRY_ATTEMPTS};
use night::utils::error::NightError;
use std::collections::HashMap;
use std::time::Duration;

fn task_config(id: u128, deps: Vec<u128>) -> TaskConfig {
    TaskConfig {
        name: format!("Task {}", id),
        id,
        command: format!("echo Task {}", id),
        is_periodic: false,
        interval: "0".to_string(),
        importance: 1,
        dependencies: deps,
    }
}

fn create_test_config() -> MissionConfig {
    MissionConfig {
        name: "Test Mission".to_string(),
        tasks: vec![task_config(11, vec![]), task_config(22, vec![])],
    }
}

fn uuid_text(id: u128) -> String {
    uuid::Uuid::from_u128(id).to_string()
}

fn message_of(e: NightError) -> String {
    match e {
        NightError::Io(m)
        | NightError::Config(m)
        | NightError::Task(m)
        | NightError::Mission(m)
        | NightError::Communication(m)
        | NightError::Serialization(m)
        | NightError::Logging(m)
        | NightError::Unknown(m) => m,
    }
}

#[test]
fn test_mission_creation() {
    let config = create_test_config();
    let mission = Mission::new(config);
    assert!(mission.is_ok());
}

#[test]
fn test_stop_task() {
    let config = create_test_config();
    let mut mission = Mission::new(config).ok().unwrap();

    let task_id = mission.config.tasks[0].id;
    let result = mission.stop_task(task_id);
    assert!(result.is_ok());

    let task_info = mission.get_task_info(task_id).ok().unwrap();
    assert_eq!(task_info.status, TaskStatus::Pending);
    assert!(!mission.tasks[&task_id].execution_lock);
}

#[test]
fn unknown_task_is_not_found() {
    let mut mission = Mission::new(create_test_config()).ok().unwrap();
    let expected = format!("Task {} not found", uuid_text(99));
    match mission.stop_task(99) {
        Err(NightError::Mission(m)) => assert_eq!(m, expected),
        _ => panic!("task 99 is not in the mission"),
    }
    match mission.get_task_info(99) {
        Err(NightError::Mission(m)) => assert_eq!(m, expected),
        _ => panic!("task 99 is not in the mission"),
    }
}

#[test]
fn tasks_listen_on_consecutive_ports() {
    let mission = Mission::new(create_test_config()).ok().unwrap();
    let ports = mission.get_address_map();
    assert_eq!(ports.len(), 2);
    assert_eq!(ports[&11], BASE_PORT);
    assert_eq!(ports[&22], BASE_PORT + 1);
    assert_eq!(BASE_PORT, 12000);
}

#[test]
fn mission_tasks_start_pending_and_know_their_dependents() {
    let config = MissionConfig {
        name: "Chain".to_string(),
        tasks: vec![task_config(1, vec![]), task_config(2, vec![1]), task_config(3, vec![1])],
    };
    let mission = Mission::new(config).ok().unwrap();
    let infos = mission.get_all_task_info();
    assert_eq!(infos.len(), 3);
    for (id, info) in &infos {
        assert_eq!(info.id, *id);
        assert_eq!(info.status, TaskStatus::Pending);
        assert_eq!(info.start_time, None);
        assert_eq!(info.execution_order, None);
    }
    let mut dependents = mission.tasks[&1].dependent_tasks.clone();
    dependents.sort();
    assert_eq!(dependents, vec![2u128, 3]);
    assert!(mission.tasks[&2].dependent_tasks.is_empty());
    assert_eq!(mission.tasks[&2].dependency_status.get(&1), Some(&false));
}

#[test]
fn mission_with_a_cycle_is_refused() {
    let config = MissionConfig {
        name: "Loop".to_string(),
        tasks: vec![task_config(1, vec![2]), task_config(2, vec![1])],
    };
    match Mission::new(config) {
        Err(NightError::Mission(m)) => assert!(m.starts_with("Cyclic dependency detected")),
        _ => panic!("a cycle is refused"),
    }
}

#[test]
fn distinct_ids_are_detected() {
    assert!(has_distinct_ids(&vec![task_config(1, vec![]), task_config(2, vec![])]));
    assert!(!has_distinct_ids(&vec![task_config(1, vec![]), task_config(1, vec![])]));
}

#[test]
fn validate_config_accepts_a_sound_mission() {
    let config = MissionConfig {
        name: "Sound".to_string(),
        tasks: vec![task_config(1, vec![]), task_config(2, vec![1])],
    };
    assert!(ConfigManager::validate_config(&config).is_ok());
}

#[test]
fn validate_config_reports_the_first_duplicate() {
    let config = MissionConfig {
        name: "Twice".to_string(),
        tasks: vec![task_config(1, vec![5]), task_config(1, vec![]), task_config(2, vec![])],
    };
    match ConfigManager::validate_config(&config) {
        Err(NightError::Config(m)) => assert_eq!(m, format!("Duplicate task ID: {}", uuid_text(1))),
        _ => panic!("a repeated id is refused"),
    }
}

#[test]
fn validate_config_reports_an_unknown_dependency() {
    let config = MissionConfig {
        name: "Missing".to_string(),
        tasks: vec![task_config(1, vec![]), task_config(2, vec![1, 3, 4])],
    };
    match ConfigManager::validate_config(&config) {
        Err(NightError::Config(m)) => assert_eq!(
            m,
            format!("Task {} depends on non-existent task {}", uuid_text(2), uuid_text(3))
        ),
        _ => panic!("an unknown dependency is refused"),
    }
}

#[test]
fn task_starts_when_dependencies_complete() {
    let config = task_config(2, vec![1]);
    let mut task = Task::new(config, HashMap::new(), vec![]);
    assert_eq!(task.status, TaskStatus::Pending);
    assert!(!task.can_start());
    assert!(matches!(task.begin_attempt(1), StartDecision::Wait));
    match task.begin_attempt(MAX_RETRY_ATTEMPTS) {
        StartDecision::GiveUp(NightError::Task(m)) => {
            assert_eq!(m, "Task Task 2 failed to start after 5 attempts")
        }
        _ => panic!("the last attempt gives up"),
    }
    task.handle_dependency_completion(7).ok().unwrap();
    assert!(!task.can_start());
    task.handle_dependency_completion(1).ok().unwrap();
    assert!(task.can_start());
    assert!(matches!(task.begin_attempt(1), StartDecision::Start));
}

#[test]
fn task_runs_and_reports() {
    let mut task = Task::new(task_config(1, vec![]), HashMap::new(), vec![2]);
    task.start_execution(3);
    assert_eq!(task.get_execution_order(), Some(3));
    assert_eq!(task.status, TaskStatus::Running);
    assert!(task.run_once().is_ok());
    assert_eq!(task.status, TaskStatus::Completed);
    let info = task.get_info();
    assert_eq!(info.id, 1);
    assert_eq!(info.status, TaskStatus::Completed);
    assert_eq!(info.execution_order, Some(3));
    assert!(task.finish_run(&Ok(())));
    assert!(!task.finish_run(&Err(NightError::Unknown("boom".to_string()))));
    assert_eq!(task.status, TaskStatus::Failed);
}

#[test]
fn periodic_task_is_not_announced_after_a_run() {
    let mut config = task_config(1, vec![]);
    config.is_periodic = true;
    let mut task = Task::new(config, HashMap::new(), vec![]);
    assert!(!task.finish_run(&Ok(())));
    assert_eq!(task.status, TaskStatus::Pending);
    task.set_execution_lock(false);
    assert!(!task.execution_lock);
}

#[test]
fn notify_decisions() {
    let task = Task::new(task_config(1, vec![]), HashMap::new(), vec![]);
    assert!(matches!(task.notify_decision(1, Ok(())), NotifyDecision::Done));
    assert!(matches!(
        task.notify_decision(1, Err(NightError::Io("refused".to_string()))),
        NotifyDecision::Retry
    ));
    match task.notify_decision(MAX_RETRY_ATTEMPTS, Err(NightError::Io("refused".to_string()))) {
        NotifyDecision::Fail(NightError::Communication(m)) => assert_eq!(
            m,
            "Failed to notify completion after 5 attempts: IO error: refused"
        ),
        _ => panic!("the last attempt fails"),
    }
}

#[test]
fn interval_is_read_as_milliseconds() {
    let mut config = task_config(1, vec![]);
    config.interval = "250".to_string();
    let task = Task::new(config, HashMap::new(), vec![]);
    assert_eq!(task.parse_interval().ok(), Some(Duration::from_millis(250)));
    let mut config = task_config(1, vec![]);
    config.interval = "soon".to_string();
    let task = Task::new(config, HashMap::new(), vec![]);
    match task.parse_interval() {
        Err(NightError::Task(m)) => assert_eq!(m, "Invalid interval format"),
        _ => panic!("text that is no number is refused"),
    }
}

#[test]
fn dependency_status_can_be_set_directly() {
    let mut task = Task::new(task_config(3, vec![1, 2]), HashMap::new(), vec![]);
    task.set_dependency_status(1, true);
    task.set_dependency_status(2, true);
    assert!(task.can_start());
    task.set_dependency_status(2, false);
    assert!(!task.can_start());
}

#[test]
fn messages_go_to_known_ports() {
    let mut ports = HashMap::new();
    ports.insert(2u128, 12001u16);
    let communicator = TaskCommunicator::new(1, ports);
    assert_eq!(communicator.task_id(), 1);
    match communicator.send_message(2, "PING".to_string(), "hello".to_string()) {
        Ok((port, message)) => {
            assert_eq!(port, 12001);
            assert_eq!(message.sender_id, 1);
            assert_eq!(message.receiver_id, 2);
            assert_eq!(message.message_type, "PING");
            assert_eq!(message.payload, "hello");
        }
        Err(_) => panic!("task 2 has a port"),
    }
    match communicator.send_message(3, "PING".to_string(), "hello".to_string()) {
        Err(NightError::Communication(m)) => {
            assert_eq!(m, format!("Address not found for task {}", uuid_text(3)))
        }
        _ => panic!("task 3 has no port"),
    }
}

#[test]
fn completion_notice_reads_back_as_its_sender() {
    let mut ports = HashMap::new();
    ports.insert(2u128, 12001u16);
    let sender = TaskCommunicator::new(0x1234_5678_9abc_def0, ports.clone());
    let receiver = TaskCommunicator::new(2, ports);
    let (_, notice) = sender.completion_notice(2).ok().unwrap();
    assert_eq!(notice.message_type, "COMPLETED");
    assert_eq!(notice.payload, uuid_text(0x1234_5678_9abc_def0));
    assert_eq!(receiver.process_message(&notice).ok(), Some(Some(0x1234_5678_9abc_def0)));
}

#[test]
fn other_messages_are_ignored_and_bad_ids_refused() {
    let receiver = TaskCommunicator::new(2, HashMap::new());
    let other = TaskCommunication {
        sender_id: 1,
        receiver_id: 2,
        message_type: "PING".to_string(),
        payload: "not a uuid".to_string(),
    };
    assert_eq!(receiver.process_message(&other).ok(), Some(None));
    let bad = TaskCommunication {
        sender_id: 1,
        receiver_id: 2,
        message_type: "COMPLETED".to_string(),
        payload: "not a uuid".to_string(),
    };
    match receiver.process_message(&bad) {
        Err(NightError::Communication(m)) => assert!(m.starts_with("Invalid UUID in payload: ")),
        _ => panic!("a bad id is refused"),
    }
}

#[test]
fn errors_show_their_kind() {
    assert_eq!(NightError::Io("x".to_string()).to_string(), "IO error: x");
    assert_eq!(NightError::Config("x".to_string()).to_string(), "Configuration error: x");
    assert_eq!(NightError::Task("x".to_string()).to_string(), "Task error: x");
    assert_eq!(NightError::Mission("x".to_string()).to_string(), "Mission error: x");
    assert_eq!(
        NightError::Communication("x".to_string()).to_string(),
        "Communication error: x"
    );
    assert_eq!(
        NightError::Serialization("x".to_string()).to_string(),
        "Serialization error: x"
    );
    assert_eq!(NightError::Logging("x".to_string()).to_string(), "Logging error: x");
    assert_eq!(NightError::Unknown("x".to_string()).to_string(), "Unknown error: x");
    assert_eq!(message_of(NightError::Unknown("y".to_string())), "y");
}

#[test]
fn completion_is_announced_up_to_the_first_unknown_port() {
    let mut ports = HashMap::new();
    ports.insert(2u128, 12001u16);
    ports.insert(3u128, 12002u16);
    let communicator = TaskCommunicator::new(1, ports);
    let (notices, failure) = communicator.notify_completion(&vec![2, 3]);
    assert!(failure.is_none());
    assert_eq!(notices.len(), 2);
    assert_eq!(notices[0].0, 12001);
    assert_eq!(notices[1].0, 12002);
    assert_eq!(notices[1].1.receiver_id, 3);
    assert_eq!(notices[1].1.payload, uuid_text(1));
    let (notices, failure) = communicator.notify_completion(&vec![2, 9, 3]);
    assert_eq!(notices.len(), 1);
    match failure {
        Some(NightError::Communication(m)) => {
            assert_eq!(m, format!("Address not found for task {}", uuid_text(9)))
        }
        _ => panic!("task 9 has no port"),
    }
}
