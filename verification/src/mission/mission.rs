use crate::common::types::{
    uuid_string, uuid_text, MissionConfig, TaskAddressMap, TaskConfig, TaskConfigView, TaskInfo,
    TaskStatus, TaskUuid,
};
use crate::mission::topology::{
    config_graph, config_map, cycle_text, dependencies_known, depends, distinct_ids, has_cycle,
    dependents_of, is_task_id, names_no_task, repeats_name_no_task,
    keys_of, missing_dependency_text,
    occurrences, TopologyManager,
};
use crate::task::task::Task;
use crate::utils::error::{NightError, Result};
use std::collections::HashMap;
use vstd::prelude::*;
use vstd::string::StringExecFns;

verus! {

broadcast use vstd::std_specs::hash::group_hash_axioms;

/// The first port of the ports that a mission's tasks listen on, one per task in order.
pub const BASE_PORT: u16 = 12000;

/// The ports of the first `n` tasks: task `i` listens on `BASE_PORT + i`; a later task
/// with the same id takes the earlier one's place.
pub open spec fn port_map(tasks: Seq<TaskConfigView>, n: int) -> Map<TaskUuid, u16>
    decreases n,
{
    if n <= 0 {
        Map::empty()
    } else {
        port_map(tasks, n - 1).insert(tasks[n - 1].id, (BASE_PORT + n - 1) as u16)
    }
}

proof fn lemma_ports_below(tasks: Seq<TaskConfigView>, n: int)
    requires
        n <= 65535 - BASE_PORT + 1,
    ensures
        forall|x: TaskUuid| #[trigger] port_map(tasks, n).contains_key(x) ==> BASE_PORT <= port_map(
            tasks,
            n,
        )[x] < BASE_PORT + n,
    decreases n,
{
    if n > 0 {
        lemma_ports_below(tasks, n - 1);
        let prev = port_map(tasks, n - 1);
        let last = tasks[n - 1].id;
        let port = (BASE_PORT + n - 1) as u16;
        assert(port == BASE_PORT + n - 1);
        assert(port_map(tasks, n) == prev.insert(last, port));
        assert forall|x: TaskUuid| #[trigger] port_map(tasks, n).contains_key(x) implies BASE_PORT
            <= port_map(tasks, n)[x] < BASE_PORT + n by {
            if x != last {
                assert(prev.contains_key(x));
            }
        }
    }
}

/// No two tasks of a mission listen on the same port.
pub proof fn lemma_ports_distinct(tasks: Seq<TaskConfigView>, n: int, a: TaskUuid, b: TaskUuid)
    requires
        n <= 65535 - BASE_PORT + 1,
        port_map(tasks, n).contains_key(a),
        port_map(tasks, n).contains_key(b),
        a != b,
    ensures
        port_map(tasks, n)[a] != port_map(tasks, n)[b],
    decreases n,
{
    if n > 0 {
        lemma_ports_below(tasks, n - 1);
        let prev = port_map(tasks, n - 1);
        let last = tasks[n - 1].id;
        let port = (BASE_PORT + n - 1) as u16;
        assert(port == BASE_PORT + n - 1);
        assert(port_map(tasks, n) == prev.insert(last, port));
        if a != last && b != last {
            lemma_ports_distinct(tasks, n - 1, a, b);
        } else if a == last {
            assert(prev.contains_key(b));
        } else {
            assert(prev.contains_key(a));
        }
    }
}

/// What a fresh task built from `config` holds.
pub open spec fn fresh_task(t: Task, config: TaskConfigView, dependents: Seq<TaskUuid>, ports: Map<TaskUuid, u16>) -> bool {
    &&& t.config@ == config
    &&& t.status == TaskStatus::Pending
    &&& t.start_time is None
    &&& t.end_time is None
    &&& t.execution_lock
    &&& t.dependency_status@ == Map::new(|k: TaskUuid| config.dependencies.contains(k), |k: TaskUuid| false)
    &&& t.address_map@ == ports
    &&& t.execution_order is None
    &&& t.communicator.owner() == config.id
    &&& t.communicator.addresses() == ports
    &&& t.dependent_tasks@ == dependents
}

/// The message of the error for an unknown task.
pub open spec fn task_not_found_text(id: TaskUuid) -> Seq<char> {
    "Task "@ + uuid_text(id) + " not found"@
}

/// No two configurations in the list share an id.
pub fn has_distinct_ids(tasks: &Vec<TaskConfig>) -> (r: bool)
    ensures
        r == distinct_ids(tasks.deep_view()),
{
    let ghost v = tasks.deep_view();
    for j in 0..tasks.len()
        invariant
            v == tasks.deep_view(),
            forall|a: int, b: int| 0 <= a < b < j ==> (#[trigger] v[a]).id != (#[trigger] v[b]).id,
    {
        for i in 0..j
            invariant
                v == tasks.deep_view(),
                j < tasks.len(),
                forall|a: int, b: int| 0 <= a < b < j ==> (#[trigger] v[a]).id != (#[trigger] v[b]).id,
                forall|a: int| 0 <= a < i ==> (#[trigger] v[a]).id != v[j as int].id,
        {
            if tasks[i].id == tasks[j].id {
                assert(v[i as int].id == v[j as int].id);
                return false;
            }
        }
    }
    true
}

/// Whether some task of the list has id `x`.
fn names_task(tasks: &Vec<TaskConfig>, x: TaskUuid) -> (r: bool)
    ensures
        r == is_task_id(tasks.deep_view(), x),
{
    let ghost v = tasks.deep_view();
    for m in 0..tasks.len()
        invariant
            v == tasks.deep_view(),
            forall|a: int| 0 <= a < m ==> (#[trigger] v[a]).id != x,
    {
        if tasks[m].id == x {
            assert(v[m as int].id == x);
            return true;
        }
    }
    false
}

/// Whether every configuration whose id comes again later names no task of the list
/// among its dependencies, so that the tasks can be ordered.
pub fn repeats_name_no_tasks(tasks: &Vec<TaskConfig>) -> (r: bool)
    ensures
        r == repeats_name_no_task(tasks.deep_view()),
{
    let ghost v = tasks.deep_view();
    for j in 0..tasks.len()
        invariant
            v == tasks.deep_view(),
            forall|a: int, b: int|
                0 <= a < b < j && (#[trigger] v[a]).id == (#[trigger] v[b]).id ==> names_no_task(
                    v,
                    v[a].dependencies,
                ),
    {
        for i in 0..j
            invariant
                v == tasks.deep_view(),
                j < tasks.len(),
                forall|a: int, b: int|
                    0 <= a < b < j && (#[trigger] v[a]).id == (#[trigger] v[b]).id ==> names_no_task(
                        v,
                        v[a].dependencies,
                    ),
                forall|a: int|
                    0 <= a < i && (#[trigger] v[a]).id == v[j as int].id ==> names_no_task(
                        v,
                        v[a].dependencies,
                    ),
        {
            if tasks[i].id == tasks[j].id {
                let n = tasks[i].dependencies.len();
                for k in 0..n
                    invariant
                        v == tasks.deep_view(),
                        i < j < tasks.len(),
                        n == v[i as int].dependencies.len(),
                        v[i as int].id == v[j as int].id,
                        forall|c: int| 0 <= c < k ==> !is_task_id(v, #[trigger] v[i as int].dependencies[c]),
                {
                    if names_task(tasks, tasks[i].dependencies[k]) {
                        assert(v[i as int].dependencies[k as int] == tasks[i as int].dependencies[k as int]);
                        return false;
                    }
                }
            }
        }
    }
    true
}

/// A mission: its configuration, the topology of its tasks, the tasks, and the port of
/// each task.
pub struct Mission {
    pub config: MissionConfig,
    pub topology: TopologyManager,
    pub tasks: HashMap<TaskUuid, Task>,
    pub address_map: TaskAddressMap,
}

impl Mission {
    /// Builds a mission from its configuration. The configuration's dependencies must form
    /// no cycle and name only tasks of the mission; each task learns the tasks that depend
    /// on it, and each listens on its own port.
    pub fn new(config: MissionConfig) -> (r: Result<Mission>)
        requires
            config.tasks@.len() <= 65535 - BASE_PORT + 1,
        ensures
            r is Ok <==> (!has_cycle(config_graph(config@.1)) && dependencies_known(config_graph(config@.1))),
            r matches Ok(m) ==> {
                &&& m.config@ == config@
                &&& m.topology.graph() == config_graph(config@.1)
                &&& m.topology.configs() == config_map(config@.1)
                &&& m.topology.valid()
                &&& distinct_ids(config@.1) ==> m.topology.well_formed()
                &&& repeats_name_no_task(config@.1) ==> m.topology.well_formed()
                &&& m.address_map@ == port_map(config@.1, config@.1.len() as int)
                &&& m.tasks@.dom() == config_map(config@.1).dom()
                &&& forall|id: TaskUuid| #[trigger] m.tasks@.contains_key(id) ==> fresh_task(
                    m.tasks@[id],
                    config_map(config@.1)[id],
                    dependents_of(config@.1, id),
                    m.address_map@,
                )
            },
            r matches Err(e) ==> {
                &&& e is Mission
                &&& has_cycle(config_graph(config@.1)) ==> exists|stack: Seq<TaskUuid>|
                    stack.no_duplicates() && e.detail() == cycle_text(stack)
                &&& !has_cycle(config_graph(config@.1)) ==> exists|t: TaskUuid, d: TaskUuid|
                    depends(config_graph(config@.1), t, d) && !config_graph(config@.1).contains_key(d)
                        && e.detail() == missing_dependency_text(t, d)
            },
    {
        let topology = match TopologyManager::new(config.clone().tasks) {
            Ok(t) => t,
            Err(e) => return Err(e),
        };
        let ghost all = config@.1;
        let address_map = Self::generate_address_map(&config.tasks);
        let mut dependent_tasks_map: HashMap<TaskUuid, Vec<TaskUuid>> = HashMap::new();
        proof {
            assert(all.take(0) =~= seq![]);
        }
        for i in 0..config.tasks.len()
            invariant
                all == config@.1,
                all.len() == config.tasks@.len(),
                forall|d: TaskUuid| #[trigger] dependent_list(dependent_tasks_map@, d) == dependents_of(all.take(i as int), d),
        {
            let task_id = config.tasks[i].id;
            let deps = &config.tasks[i].dependencies;
            let ghost before = dependent_tasks_map@;
            assert(deps@ == all[i as int].dependencies);
            for k in 0..deps.len()
                invariant
                    deps@ == all[i as int].dependencies,
                    task_id == all[i as int].id,
                    forall|d: TaskUuid| #[trigger] dependent_list(dependent_tasks_map@, d) == dependent_list(before, d) + Seq::new(
                        occurrences(deps@.take(k as int), d),
                        |_j: int| task_id,
                    ),
            {
                let dep_id = deps[k];
                let ghost mid = dependent_tasks_map@;
                let mut list = match dependent_tasks_map.remove(&dep_id) {
                    Some(l) => l,
                    None => Vec::new(),
                };
                list.push(task_id);
                dependent_tasks_map.insert(dep_id, list);
                proof {
                    assert(deps@.take(k + 1) =~= deps@.take(k as int).push(dep_id));
                    assert forall|d: TaskUuid| #[trigger] dependent_list(dependent_tasks_map@, d) == dependent_list(before, d)
                        + Seq::new(occurrences(deps@.take(k + 1), d), |_j: int| task_id) by {
                        crate::mission::topology::lemma_occurrences_push(deps@.take(k as int), dep_id, d);
                        let n = occurrences(deps@.take(k as int), d);
                        if d == dep_id {
                            assert(dependent_list(dependent_tasks_map@, d) =~= dependent_list(mid, d).push(task_id));
                            assert(dependent_list(before, d) + Seq::new(n + 1, |_j: int| task_id) =~= (dependent_list(before, d)
                                + Seq::new(n, |_j: int| task_id)).push(task_id));
                        } else {
                            assert(dependent_list(dependent_tasks_map@, d) == dependent_list(mid, d));
                        }
                    }
                }
            }
            proof {
                assert(deps@.take(deps@.len() as int) =~= deps@);
                assert(all.take(i + 1).drop_last() =~= all.take(i as int));
            }
        }
        proof {
            assert(all.take(all.len() as int) =~= all);
        }
        let mut tasks: HashMap<TaskUuid, Task> = HashMap::new();
        for i in 0..config.tasks.len()
            invariant
                all == config@.1,
                all.len() == config.tasks@.len(),
                forall|d: TaskUuid| #[trigger] dependent_list(dependent_tasks_map@, d) == dependents_of(all, d),
                tasks@.dom() == config_map(all.take(i as int)).dom(),
                forall|id: TaskUuid| #[trigger] tasks@.contains_key(id) ==> fresh_task(
                    tasks@[id],
                    config_map(all.take(i as int))[id],
                    dependents_of(all, id),
                    address_map@,
                ),
        {
            let task_config = config.tasks[i].clone();
            let id = task_config.id;
            let dependent_tasks = match dependent_tasks_map.get(&id) {
                Some(list) => list.clone(),
                None => Vec::new(),
            };
            assert(dependent_tasks@ == dependent_list(dependent_tasks_map@, id));
            let task = Task::new(task_config, address_map.clone(), dependent_tasks);
            tasks.insert(id, task);
            proof {
                assert(all.take(i + 1).drop_last() =~= all.take(i as int));
                assert(tasks@.dom() =~= config_map(all.take(i + 1)).dom());
            }
        }
        proof {
            assert(all.take(all.len() as int) =~= all);
            crate::mission::topology::lemma_config_graph_dom(all, 0);
        }
        Ok(Mission { config, topology, tasks, address_map })
    }

    /// Gives task `i` of the list the port `BASE_PORT + i`.
    fn generate_address_map(tasks: &Vec<TaskConfig>) -> (r: TaskAddressMap)
        requires
            tasks@.len() <= 65535 - BASE_PORT + 1,
        ensures
            r@ == port_map(tasks.deep_view(), tasks@.len() as int),
    {
        let mut map: TaskAddressMap = HashMap::new();
        for i in 0..tasks.len()
            invariant
                tasks@.len() <= 65535 - BASE_PORT + 1,
                map@ == port_map(tasks.deep_view(), i as int),
        {
            let port: u16 = BASE_PORT + i as u16;
            map.insert(tasks[i].id, port);
        }
        map
    }

    /// Stops a task: a periodic task stops after its current run.
    pub fn stop_task(&mut self, task_id: TaskUuid) -> (r: Result<()>)
        ensures
            r is Ok <==> old(self).tasks@.contains_key(task_id),
            r matches Err(e) ==> e is Mission && e.detail() == task_not_found_text(task_id),
            final(self).tasks@.dom() == old(self).tasks@.dom(),
            r is Ok ==> !final(self).tasks@[task_id].execution_lock,
            r is Ok ==> final(self).tasks@[task_id].status == old(self).tasks@[task_id].status,
            forall|id: TaskUuid| id != task_id && #[trigger] old(self).tasks@.contains_key(id) ==> final(self).tasks@[id] == old(self).tasks@[id],
            final(self).config@ == old(self).config@,
            final(self).address_map@ == old(self).address_map@,
    {
        match self.tasks.remove(&task_id) {
            Some(mut task) => {
                task.set_execution_lock(false);
                self.tasks.insert(task_id, task);
                assert(self.tasks@.dom() =~= old(self).tasks@.dom());
                Ok(())
            },
            None => Err(Self::not_found(task_id)),
        }
    }

    fn not_found(task_id: TaskUuid) -> (e: NightError)
        ensures
            e is Mission && e.detail() == task_not_found_text(task_id),
    {
        let mut msg = String::from_str("Task ");
        msg.append(uuid_string(task_id).as_str());
        msg.append(" not found");
        NightError::Mission(msg)
    }

    /// A snapshot of one task.
    pub fn get_task_info(&self, task_id: TaskUuid) -> (r: Result<TaskInfo>)
        ensures
            r is Ok <==> self.tasks@.contains_key(task_id),
            r matches Ok(info) ==> {
                &&& info.id == self.tasks@[task_id].config.id
                &&& info.status == self.tasks@[task_id].status
                &&& info.start_time == self.tasks@[task_id].start_time
                &&& info.end_time == self.tasks@[task_id].end_time
                &&& info.execution_order == self.tasks@[task_id].execution_order
            },
            r matches Err(e) ==> e is Mission && e.detail() == task_not_found_text(task_id),
    {
        match self.tasks.get(&task_id) {
            Some(task) => Ok(task.get_info()),
            None => Err(Self::not_found(task_id)),
        }
    }

    /// A snapshot of every task.
    pub fn get_all_task_info(&self) -> (r: HashMap<TaskUuid, TaskInfo>)
        ensures
            r@.dom() == self.tasks@.dom(),
            forall|id: TaskUuid| #[trigger] r@.contains_key(id) ==> {
                &&& r@[id].id == self.tasks@[id].config.id
                &&& r@[id].status == self.tasks@[id].status
                &&& r@[id].start_time == self.tasks@[id].start_time
                &&& r@[id].end_time == self.tasks@[id].end_time
                &&& r@[id].execution_order == self.tasks@[id].execution_order
            },
    {
        let keys = keys_of(&self.tasks);
        let mut infos: HashMap<TaskUuid, TaskInfo> = HashMap::new();
        for i in 0..keys.len()
            invariant
                keys@.to_set() == self.tasks@.dom(),
                infos@.dom() == keys@.take(i as int).to_set(),
                forall|id: TaskUuid| #[trigger] infos@.contains_key(id) ==> {
                    &&& self.tasks@.contains_key(id)
                    &&& infos@[id].id == self.tasks@[id].config.id
                    &&& infos@[id].status == self.tasks@[id].status
                    &&& infos@[id].start_time == self.tasks@[id].start_time
                    &&& infos@[id].end_time == self.tasks@[id].end_time
                    &&& infos@[id].execution_order == self.tasks@[id].execution_order
                },
        {
            let id = keys[i];
            assert(keys@.to_set().contains(id));
            let task = self.tasks.get(&id).unwrap();
            infos.insert(id, task.get_info());
            proof {
                assert(keys@.take(i + 1) =~= keys@.take(i as int).push(id));
                keys@.take(i as int).lemma_push_to_set_commute(id);
            }
        }
        proof {
            assert(keys@.take(keys@.len() as int) =~= keys@);
        }
        infos
    }

    /// The port of each task.
    pub fn get_address_map(&self) -> (r: TaskAddressMap)
        ensures
            r@ == self.address_map@,
    {
        self.address_map.clone()
    }
}

/// The list that a map of lists holds at `k`; empty where it holds none.
pub open spec fn dependent_list(m: Map<TaskUuid, Vec<TaskUuid>>, k: TaskUuid) -> Seq<TaskUuid> {
    if m.contains_key(k) {
        m[k]@
    } else {
        seq![]
    }
}

} // verus!
