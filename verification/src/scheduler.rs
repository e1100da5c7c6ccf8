use crate::error::NightResult;
use crate::queue::{last_with_id, TaskQueue};
use crate::task::{Priority, Task, TaskId, TaskView};
use std::collections::{HashMap, HashSet};
use std::sync::Arc;
use vstd::prelude::*;

verus! {

broadcast use vstd::std_specs::hash::group_hash_axioms;

/// Every dependency of `t` has completed.
pub open spec fn ready(t: TaskView, done: Set<TaskId>) -> bool {
    forall|i: int| 0 <= i < t.dependencies.len() ==> done.contains(#[trigger] t.dependencies[i])
}

/// Some task of `level` is ready.
pub open spec fn has_ready(level: Seq<TaskView>, done: Set<TaskId>) -> bool {
    exists|i: int| 0 <= i < level.len() && #[trigger] ready(level[i], done)
}

/// The position of the first ready task of `level`.
pub open spec fn first_ready(level: Seq<TaskView>, done: Set<TaskId>) -> int
    decreases level.len(),
{
    if level.len() == 0 || ready(level[0], done) {
        0
    } else {
        1 + first_ready(level.drop_first(), done)
    }
}

/// `level` after its first `k` tasks were taken from the head and queued again at the
/// tail.
pub open spec fn rotated(level: Seq<TaskView>, k: int) -> Seq<TaskView> {
    level.subrange(k, level.len() as int) + level.subrange(0, k)
}

/// The waiting sets after task `id` is recorded as waiting for each of `deps`.
pub open spec fn add_waiter(g: Map<TaskId, Set<TaskId>>, deps: Seq<TaskId>, id: TaskId) -> Map<
    TaskId,
    Set<TaskId>,
> {
    Map::new(
        |k: TaskId| g.contains_key(k) || deps.contains(k),
        |k: TaskId|
            if deps.contains(k) {
                if g.contains_key(k) {
                    g[k].insert(id)
                } else {
                    set![id]
                }
            } else {
                g[k]
            },
    )
}

/// The tasks that a completion queues again, in order: for each identifier of `order`,
/// the task last recorded under it in `lookup`, when that task is ready.
pub open spec fn released(lookup: Seq<TaskView>, order: Seq<TaskId>, done: Set<TaskId>) -> Seq<
    TaskView,
>
    decreases order.len(),
{
    if order.len() == 0 {
        Seq::empty()
    } else {
        let rest = released(lookup, order.drop_last(), done);
        match last_with_id(lookup, order.last()) {
            Some(t) => if ready(t, done) {
                rest.push(t)
            } else {
                rest
            },
            None => rest,
        }
    }
}

/// The tasks of `released(lookup, order, done)` that have priority `p`, in order.
pub open spec fn released_at(
    lookup: Seq<TaskView>,
    order: Seq<TaskId>,
    done: Set<TaskId>,
    p: Priority,
) -> Seq<TaskView>
    decreases order.len(),
{
    if order.len() == 0 {
        Seq::empty()
    } else {
        let rest = released_at(lookup, order.drop_last(), done, p);
        match last_with_id(lookup, order.last()) {
            Some(t) => if ready(t, done) && t.priority == p {
                rest.push(t)
            } else {
                rest
            },
            None => rest,
        }
    }
}

/// The tasks that were waiting for a task, in the order in which its completion visits
/// them.
pub open spec fn visit_order(waiting: Map<TaskId, Set<TaskId>>, id: TaskId, order: Seq<TaskId>) -> bool {
    &&& order.no_duplicates()
    &&& order.to_set() == (if waiting.contains_key(id) {
        waiting[id]
    } else {
        Set::empty()
    })
}

/// Hands out queued tasks once their dependencies have completed.
pub struct Scheduler {
    queue: TaskQueue,
    dependency_graph: HashMap<TaskId, HashSet<TaskId>>,
    completed_tasks: HashSet<TaskId>,
}

/// Every identifier of `deps` is in `done`.
fn all_completed(deps: &[TaskId], done: &HashSet<TaskId>) -> (r: bool)
    ensures
        r == forall|i: int| 0 <= i < deps@.len() ==> done@.contains(#[trigger] deps@[i]),
{
    let mut i: usize = 0;
    while i < deps.len()
        invariant
            i <= deps@.len(),
            forall|j: int| 0 <= j < i ==> done@.contains(#[trigger] deps@[j]),
        decreases deps@.len() - i,
    {
        if !done.contains(&deps[i]) {
            return false;
        }
        i = i + 1;
    }
    true
}

/// The elements of a set, each once, in the order the set walks them.
fn set_elements(s: &HashSet<TaskId>) -> (v: Vec<TaskId>)
    ensures
        v@.no_duplicates(),
        v@.to_set() == s@,
{
    let mut v: Vec<TaskId> = Vec::new();
    for k in it: s.iter()
        invariant
            v@ == it.seq().take(it.index() as int).unref(),
            it.seq().no_duplicates(),
            it.seq().unref().to_set() == s@,
        ensures
            v@ == it.seq().unref(),
            it.seq().no_duplicates(),
            it.seq().unref().to_set() == s@,
    {
        v.push(*k);
        assert(v@ =~= it.seq().take(it.index() + 1).unref());
    }
    v
}

proof fn lemma_first_ready(level: Seq<TaskView>, done: Set<TaskId>)
    requires
        has_ready(level, done),
    ensures
        0 <= first_ready(level, done) < level.len(),
        ready(level[first_ready(level, done)], done),
        forall|j: int| 0 <= j < first_ready(level, done) ==> !#[trigger] ready(level[j], done),
    decreases level.len(),
{
    if !ready(level[0], done) {
        let i = choose|i: int| 0 <= i < level.len() && #[trigger] ready(level[i], done);
        assert(ready(level.drop_first()[i - 1], done));
        lemma_first_ready(level.drop_first(), done);
        assert forall|j: int| 0 <= j < first_ready(level, done) implies !#[trigger] ready(
            level[j],
            done,
        ) by {
            if j > 0 {
                assert(level[j] == level.drop_first()[j - 1]);
            }
        }
    }
}

proof fn lemma_last_with_id_found(tasks: Seq<TaskView>, id: TaskId)
    ensures
        last_with_id(tasks, id) matches Some(t) ==> t.id == id,
    decreases tasks.len(),
{
    if tasks.len() > 0 && tasks.last().id != id {
        lemma_last_with_id_found(tasks.drop_last(), id);
    }
}

proof fn lemma_last_with_id_append(a: Seq<TaskView>, b: Seq<TaskView>, id: TaskId)
    requires
        forall|i: int| 0 <= i < b.len() ==> (#[trigger] b[i]).id != id,
    ensures
        last_with_id(a + b, id) == last_with_id(a, id),
    decreases b.len(),
{
    if b.len() == 0 {
        assert(a + b =~= a);
    } else {
        assert((a + b).drop_last() =~= a + b.drop_last());
        assert((a + b).last() == b[b.len() - 1]);
        lemma_last_with_id_append(a, b.drop_last(), id);
    }
}

proof fn lemma_released_ids(lookup: Seq<TaskView>, order: Seq<TaskId>, done: Set<TaskId>)
    ensures
        forall|i: int|
            0 <= i < released(lookup, order, done).len() ==> order.contains(
                (#[trigger] released(lookup, order, done)[i]).id,
            ),
    decreases order.len(),
{
    if order.len() > 0 {
        lemma_released_ids(lookup, order.drop_last(), done);
        lemma_last_with_id_found(lookup, order.last());
        let rest = released(lookup, order.drop_last(), done);
        assert forall|i: int|
            0 <= i < released(lookup, order, done).len() implies order.contains(
                (#[trigger] released(lookup, order, done)[i]).id,
            ) by {
            if i < rest.len() {
                assert(released(lookup, order, done)[i] == rest[i]);
                let k = choose|k: int| 0 <= k < order.drop_last().len() && #[trigger] order.drop_last()[k]
                    == rest[i].id;
                assert(order[k] == rest[i].id);
            } else {
                assert(order[order.len() - 1] == order.last());
            }
        }
    }
}

impl Scheduler {
    /// The queue of tasks.
    pub closed spec fn queue(&self) -> TaskQueue {
        self.queue
    }

    /// For each task, the tasks that were queued waiting for it.
    pub closed spec fn waiting(&self) -> Map<TaskId, Set<TaskId>> {
        Map::new(
            |k: TaskId| self.dependency_graph@.contains_key(k),
            |k: TaskId| self.dependency_graph@[k]@,
        )
    }

    /// The tasks that have completed.
    pub closed spec fn completed(&self) -> Set<TaskId> {
        self.completed_tasks@
    }

    /// A scheduler over `queue`, with nothing waiting and nothing completed.
    pub fn new(queue: TaskQueue) -> (r: Self)
        requires
            queue.sorted(),
        ensures
            r.queue() == queue,
            r.waiting() == Map::<TaskId, Set<TaskId>>::empty(),
            r.completed() == Set::<TaskId>::empty(),
    {
        let r = Scheduler {
            queue,
            dependency_graph: HashMap::new(),
            completed_tasks: HashSet::new(),
        };
        assert(r.waiting() =~= Map::<TaskId, Set<TaskId>>::empty());
        r
    }

    /// Queues `task` and records it as waiting for each of its dependencies.
    pub fn add_task(&mut self, task: Task) -> (r: NightResult<()>)
        requires
            old(self).queue().sorted(),
        ensures
            final(self).queue().sorted(),
            r is Ok,
            final(self).waiting() == add_waiter(old(self).waiting(), task@.dependencies, task@.id),
            final(self).completed() == old(self).completed(),
            final(self).queue().level(task@.priority) == old(self).queue().level(
                task@.priority,
            ).push(task@),
            forall|p: Priority| p != task@.priority ==> #[trigger] final(self).queue().level(p)
                == old(self).queue().level(p),
            final(self).queue().lookup() == old(self).queue().lookup().push(task@),
    {
        let task_id = task.id();
        let dependencies = task.dependencies();
        let ghost deps = dependencies@;
        for i in 0..dependencies.len()
            invariant
                deps == dependencies@,
                self.waiting() == add_waiter(old(self).waiting(), deps.take(i as int), task_id),
                self.completed() == old(self).completed(),
                self.queue == old(self).queue,
        {
            let dep = dependencies[i];
            let ghost g0 = self.dependency_graph@;
            let mut waiters = match self.dependency_graph.remove(&dep) {
                Some(set) => set,
                None => HashSet::new(),
            };
            assert(waiters@ == (if g0.contains_key(dep) { g0[dep]@ } else { Set::<TaskId>::empty() }));
            waiters.insert(task_id);
            self.dependency_graph.insert(dep, waiters);
            assert(self.dependency_graph@ == g0.remove(dep).insert(dep, waiters));
            proof {
                let prev = add_waiter(old(self).waiting(), deps.take(i as int), task_id);
                let next = add_waiter(old(self).waiting(), deps.take(i + 1), task_id);
                assert(deps.take(i + 1) =~= deps.take(i as int).push(dep));
                assert forall|k: TaskId| #[trigger] deps.take(i + 1).contains(k) <==> (deps.take(
                    i as int,
                ).contains(k) || k == dep) by {
                    if deps.take(i + 1).contains(k) && k != dep {
                        let j = choose|j: int| 0 <= j < i + 1 && #[trigger] deps.take(i + 1)[j] == k;
                        assert(deps.take(i as int)[j] == k);
                    }
                    if deps.take(i as int).contains(k) {
                        let j = choose|j: int| 0 <= j < i && #[trigger] deps.take(i as int)[j] == k;
                        assert(deps.take(i + 1)[j] == k);
                    }
                    if k == dep {
                        assert(deps.take(i + 1)[i as int] == k);
                    }
                }
                assert(self.waiting().dom() =~= next.dom()) by {
                    assert forall|k: TaskId| #[trigger] next.dom().contains(k) == self.waiting().dom().contains(k) by {
                        assert(prev.contains_key(k) == g0.contains_key(k));
                    }
                }
                assert forall|k: TaskId| #[trigger] self.waiting().contains_key(k) implies self.waiting()[k]
                    == next[k] by {
                    assert(prev.contains_key(k) == g0.contains_key(k));
                    if k == dep {
                        if g0.contains_key(k) {
                            assert(prev[k] == g0[k]@);
                        }
                        assert(self.waiting()[k] =~= next[k]);
                    } else {
                        assert(self.dependency_graph@[k] == g0[k]);
                        assert(prev[k] == g0[k]@);
                    }
                }
                assert(self.waiting() =~= next);
            }
        }
        proof {
            assert(deps.take(deps.len() as int) =~= deps);
        }
        self.queue.push(task);
        Ok(())
    }

    /// The next task to run: of the highest priority that holds tasks, the first whose
    /// dependencies have all completed. The tasks of that priority ahead of it are queued
    /// again behind the others, and recorded again for lookup. None when no task waits.
    ///
    /// When the highest priority holds no ready task, the search would go on for ever, so
    /// a ready task must be there.
    pub fn next_task(&mut self) -> (r: NightResult<Option<Arc<Task>>>)
        requires
            old(self).queue().sorted(),
            old(self).queue().top() matches Some(t) ==> has_ready(
                old(self).queue().level(t),
                old(self).completed(),
            ),
        ensures
            final(self).queue().sorted(),
            final(self).waiting() == old(self).waiting(),
            final(self).completed() == old(self).completed(),
            old(self).queue().top() is None ==> {
                &&& r matches Ok(None)
                &&& forall|p: Priority| #[trigger] final(self).queue().level(p) == old(
                    self,
                ).queue().level(p)
                &&& final(self).queue().lookup() == old(self).queue().lookup()
            },
            old(self).queue().top() matches Some(t) ==> {
                let level = old(self).queue().level(t);
                let k = first_ready(level, old(self).completed());
                &&& (r matches Ok(Some(task)) && task@ == level[k])
                &&& ready(level[k], old(self).completed())
                &&& final(self).queue().level(t) == rotated(level, k).drop_first()
                &&& forall|p: Priority| p != t ==> #[trigger] final(self).queue().level(p)
                    == old(self).queue().level(p)
                &&& final(self).queue().lookup() == old(self).queue().lookup() + level.subrange(
                    0,
                    k,
                )
            },
    {
        let ghost top = old(self).queue().top();
        let ghost t: Priority = match top {
            Some(t) => t,
            None => 0,
        };
        let ghost level = old(self).queue().level(t);
        let ghost done = old(self).completed();
        let ghost target: int = first_ready(level, done);
        let ghost mut k: int = 0;
        proof {
            old(self).queue.lemma_top();
            if top is Some {
                lemma_first_ready(level, done);
            }
        }
        loop
            invariant
                self.waiting() == old(self).waiting(),
                self.completed() == done,
                self.dependency_graph == old(self).dependency_graph,
                self.completed_tasks == old(self).completed_tasks,
                self.queue.sorted(),
                top == old(self).queue().top(),
                top is Some ==> top == Some(t),
                level == old(self).queue().level(t),
                done == old(self).completed(),
                target == first_ready(level, done),
                top is None ==> self.queue == old(self).queue,
                top is Some ==> {
                    &&& 0 <= k <= target < level.len()
                    &&& ready(level[target], done)
                    &&& forall|j: int| 0 <= j < target ==> !#[trigger] ready(level[j], done)
                    &&& self.queue.level(t) == rotated(level, k)
                    &&& forall|p: Priority| p != t ==> #[trigger] self.queue.level(p) == old(
                        self,
                    ).queue().level(p)
                    &&& self.queue.lookup() == old(self).queue().lookup() + level.subrange(0, k)
                    &&& forall|p: Priority| t < p ==> #[trigger] self.queue.level(p).len() == 0
                },
            decreases target - k,
        {
            proof {
                if top is Some {
                    self.queue.lemma_is_top(t);
                } else {
                    assert(self.queue.top() == old(self).queue().top());
                }
            }
            match self.queue.pop() {
                Some(task) => {
                    assert(task@ == level[k]) by {
                        assert(rotated(level, k)[0] == level[k]);
                    }
                    if all_completed(task.dependencies(), &self.completed_tasks) {
                        proof {
                            assert(ready(level[k], done));
                            assert(k == target);
                        }
                        return Ok(Some(task));
                    }
                    let again = (*task).clone();
                    self.queue.push(again);
                    proof {
                        assert(k != target);
                        assert(rotated(level, k).drop_first().push(level[k]) =~= rotated(
                            level,
                            k + 1,
                        ));
                        assert(old(self).queue().lookup() + level.subrange(0, k + 1) =~= (old(
                            self,
                        ).queue().lookup() + level.subrange(0, k)).push(level[k]));
                        k = k + 1;
                    }
                },
                None => {
                    return Ok(None);
                },
            }
        }
    }

    /// Records that task `task_id` completed. Each task that was waiting for it, taken as
    /// last recorded for lookup, is queued again when all its dependencies have completed.
    /// The waiting tasks are visited in the order their set walks them, which no clause
    /// fixes: the result holds for some visiting order of them.
    pub fn complete_task(&mut self, task_id: TaskId) -> (r: NightResult<()>)
        requires
            old(self).queue().sorted(),
        ensures
            final(self).queue().sorted(),
            r is Ok,
            final(self).completed() == old(self).completed().insert(task_id),
            final(self).waiting() == old(self).waiting().remove(task_id),
            exists|order: Seq<TaskId>|
                {
                    &&& #[trigger] visit_order(old(self).waiting(), task_id, order)
                    &&& final(self).queue().lookup() == old(self).queue().lookup() + released(
                        old(self).queue().lookup(),
                        order,
                        final(self).completed(),
                    )
                    &&& forall|p: Priority| #[trigger] final(self).queue().level(p) == old(
                        self,
                    ).queue().level(p) + released_at(
                        old(self).queue().lookup(),
                        order,
                        final(self).completed(),
                        p,
                    )
                },
    {
        let ghost base = old(self).queue().lookup();
        self.completed_tasks.insert(task_id);
        let ghost done = self.completed_tasks@;
        let removed = self.dependency_graph.remove(&task_id);
        proof {
            assert(self.waiting() =~= old(self).waiting().remove(task_id));
        }
        let order: Vec<TaskId> = match &removed {
            Some(waiting) => set_elements(waiting),
            None => Vec::new(),
        };
        proof {
            if removed is None {
                assert(order@.to_set() =~= Set::<TaskId>::empty());
            }
            assert(visit_order(old(self).waiting(), task_id, order@));
        }
        for j in 0..order.len()
            invariant
                order@.no_duplicates(),
                self.queue.sorted(),
                self.completed_tasks@ == done,
                self.waiting() == old(self).waiting().remove(task_id),
                self.queue.lookup() == base + released(base, order@.take(j as int), done),
                forall|p: Priority| #[trigger] self.queue.level(p) == old(self).queue().level(p)
                    + released_at(base, order@.take(j as int), done, p),
        {
            let w = order[j];
            let ghost prefix = order@.take(j as int);
            assert(order@.take(j + 1).drop_last() =~= prefix);
            assert(order@.take(j + 1).last() == w);
            proof {
                lemma_released_ids(base, prefix, done);
                assert forall|i: int| 0 <= i < released(base, prefix, done).len() implies (
                #[trigger] released(base, prefix, done)[i]).id != w by {
                    let id = released(base, prefix, done)[i].id;
                    if id == w {
                        let m = choose|m: int| 0 <= m < prefix.len() && #[trigger] prefix[m] == id;
                        assert(order@[m] == order@[j as int]);
                    }
                }
                lemma_last_with_id_append(base, released(base, prefix, done), w);
                lemma_last_with_id_found(base, w);
            }
            match self.queue.get_task(w) {
                Some(task) => {
                    if all_completed(task.dependencies(), &self.completed_tasks) {
                        let again = (*task).clone();
                        self.queue.push(again);
                    }
                },
                None => {},
            }
        }
        proof {
            assert(order@.take(order@.len() as int) =~= order@);
        }
        Ok(())
    }
}

} // verus!
