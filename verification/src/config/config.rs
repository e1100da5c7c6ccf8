use crate::common::types::{uuid_string, uuid_text, MissionConfig, TaskConfigView, TaskUuid};
use crate::utils::error::{NightError, Result};
use std::collections::HashSet;
use vstd::prelude::*;
use vstd::string::StringExecFns;

verus! {

broadcast use vstd::std_specs::hash::group_hash_axioms;

/// Task `j` repeats the id of an earlier task.
pub open spec fn repeats_earlier_id(tasks: Seq<TaskConfigView>, j: int) -> bool {
    exists|i: int| 0 <= i < j && tasks[i].id == tasks[j].id
}

/// The ids of the first `n` tasks.
pub open spec fn ids_before(tasks: Seq<TaskConfigView>, n: int) -> Set<TaskUuid> {
    Set::new(|x: TaskUuid| exists|i: int| 0 <= i < n && #[trigger] tasks[i].id == x)
}

/// The ids of the tasks.
pub open spec fn task_ids(tasks: Seq<TaskConfigView>) -> Set<TaskUuid> {
    ids_before(tasks, tasks.len() as int)
}

/// Dependency `k` of task `i` names no task of the list.
pub open spec fn names_unknown_task(tasks: Seq<TaskConfigView>, i: int, k: int) -> bool {
    0 <= i < tasks.len() && 0 <= k < tasks[i].dependencies.len() && !task_ids(tasks).contains(
        tasks[i].dependencies[k],
    )
}

/// `(i1, k1)` comes before `(i2, k2)`: task by task, then dependency by dependency.
pub open spec fn comes_before(i1: int, k1: int, i2: int, k2: int) -> bool {
    i1 < i2 || (i1 == i2 && k1 < k2)
}

/// The message for a repeated task id.
pub open spec fn duplicate_id_text(id: TaskUuid) -> Seq<char> {
    "Duplicate task ID: "@ + uuid_text(id)
}

/// The message for a dependency on a task that the configuration lacks.
pub open spec fn unknown_dependency_text(task: TaskUuid, dep: TaskUuid) -> Seq<char> {
    "Task "@ + uuid_text(task) + " depends on non-existent task "@ + uuid_text(dep)
}

/// Loads and checks mission configurations.
pub struct ConfigManager;

impl ConfigManager {
    /// Checks a mission configuration: task ids must be unique, and every dependency must
    /// name a task of the mission. The first repeated id is reported; when there is none,
    /// the first dependency, task by task, that names no task.
    pub fn validate_config(config: &MissionConfig) -> (r: Result<()>)
        ensures
            r is Ok <==> (forall|j: int| 0 <= j < config@.1.len() ==> !repeats_earlier_id(config@.1, j))
                && (forall|i: int, k: int| !names_unknown_task(config@.1, i, k)),
            r matches Err(e) ==> e is Config,
            r matches Err(e) ==> (exists|j: int| 0 <= j < config@.1.len() && repeats_earlier_id(config@.1, j)) ==> exists|j: int|
                {
                    &&& 0 <= j < config@.1.len()
                    &&& repeats_earlier_id(config@.1, j)
                    &&& forall|j2: int| 0 <= j2 < j ==> !repeats_earlier_id(config@.1, j2)
                    &&& e.detail() == duplicate_id_text(config@.1[j].id)
                },
            r matches Err(e) ==> (forall|j: int| 0 <= j < config@.1.len() ==> !repeats_earlier_id(config@.1, j)) ==> exists|i: int, k: int|
                {
                    &&& names_unknown_task(config@.1, i, k)
                    &&& forall|i2: int, k2: int| comes_before(i2, k2, i, k) ==> !names_unknown_task(config@.1, i2, k2)
                    &&& e.detail() == unknown_dependency_text(config@.1[i].id, config@.1[i].dependencies[k])
                },
    {
        let ghost tasks = config@.1;
        let mut ids: HashSet<TaskUuid> = HashSet::new();
        for j in 0..config.tasks.len()
            invariant
                tasks == config@.1,
                tasks.len() == config.tasks@.len(),
                ids@ == ids_before(tasks, j as int),
                forall|j2: int| 0 <= j2 < j ==> !#[trigger] repeats_earlier_id(tasks, j2),
        {
            let id = config.tasks[j].id;
            assert(tasks[j as int] == config.tasks@[j as int]@);
            let inserted = ids.insert(id);
            if !inserted {
                proof {
                    assert(ids_before(tasks, j as int).contains(id));
                    let i = choose|i: int| 0 <= i < j && #[trigger] tasks[i].id == id;
                    assert(repeats_earlier_id(tasks, j as int));
                }
                let mut msg = String::from_str("Duplicate task ID: ");
                msg.append(uuid_string(id).as_str());
                return Err(NightError::Config(msg));
            }
            proof {
                assert(ids@ =~= ids_before(tasks, j + 1)) by {
                    assert forall|x: TaskUuid| ids@.contains(x) <==> ids_before(tasks, j + 1).contains(x) by {
                        if x == id {
                            assert(tasks[j as int].id == x);
                        }
                        if ids_before(tasks, j + 1).contains(x) && x != id {
                            let i = choose|i: int| 0 <= i < j + 1 && #[trigger] tasks[i].id == x;
                            assert(ids_before(tasks, j as int).contains(x));
                        }
                    }
                }
                assert(!repeats_earlier_id(tasks, j as int)) by {
                    if repeats_earlier_id(tasks, j as int) {
                        let i = choose|i: int| 0 <= i < j && tasks[i].id == tasks[j as int].id;
                        assert(ids_before(tasks, j as int).contains(id));
                    }
                }
            }
        }
        for i in 0..config.tasks.len()
            invariant
                tasks == config@.1,
                tasks.len() == config.tasks@.len(),
                ids@ == task_ids(tasks),
                forall|j: int| 0 <= j < tasks.len() ==> !#[trigger] repeats_earlier_id(tasks, j),
                forall|i2: int, k2: int| 0 <= i2 < i ==> !#[trigger] names_unknown_task(tasks, i2, k2),
        {
            let deps = &config.tasks[i].dependencies;
            assert(deps@ == tasks[i as int].dependencies);
            for k in 0..deps.len()
                invariant
                    tasks == config@.1,
                    deps@ == tasks[i as int].dependencies,
                    0 <= i < tasks.len(),
                    ids@ == task_ids(tasks),
                    forall|j: int| 0 <= j < tasks.len() ==> !#[trigger] repeats_earlier_id(tasks, j),
                    forall|i2: int, k2: int| 0 <= i2 < i ==> !#[trigger] names_unknown_task(tasks, i2, k2),
                    forall|k2: int| 0 <= k2 < k ==> !#[trigger] names_unknown_task(tasks, i as int, k2),
            {
                let dep_id = deps[k];
                if !ids.contains(&dep_id) {
                    let mut msg = String::from_str("Task ");
                    msg.append(uuid_string(config.tasks[i].id).as_str());
                    msg.append(" depends on non-existent task ");
                    msg.append(uuid_string(dep_id).as_str());
                    proof {
                        assert(names_unknown_task(tasks, i as int, k as int));
                        assert forall|i2: int, k2: int| comes_before(i2, k2, i as int, k as int) implies !names_unknown_task(tasks, i2, k2) by {}
                        assert(msg@ =~= unknown_dependency_text(tasks[i as int].id, tasks[i as int].dependencies[k as int]));
                    }
                    return Err(NightError::Config(msg));
                }
            }
            proof {
                assert forall|i2: int, k2: int| 0 <= i2 < i + 1 implies !names_unknown_task(tasks, i2, k2) by {
                    if i2 == i && names_unknown_task(tasks, i2, k2) {
                        assert(k2 < deps@.len());
                    }
                }
            }
        }
        Ok(())
    }
}

} // verus!
