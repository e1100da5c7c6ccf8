use crate::task::{Priority, Task, TaskId, TaskView};
use crossbeam::queue::SegQueue;
use std::collections::BTreeMap;
use std::sync::Arc;
use vstd::prelude::*;

verus! {

broadcast use {vstd::laws_cmp::group_laws_cmp, vstd::std_specs::btree::group_btree_axioms};

/// `crossbeam::queue::SegQueue`, an unbounded first-in first-out queue.
#[verifier::external_type_specification]
#[verifier::external_body]
#[verifier::reject_recursive_types(T)]
pub struct ExSegQueue<T>(SegQueue<T>);

/// The tasks that a `SegQueue` of tasks holds, from its head to its tail.
pub uninterp spec fn queued_tasks(q: SegQueue<Arc<Task>>) -> Seq<TaskView>;

/// Makes an empty queue with `SegQueue::new`.
#[verifier::external_body]
fn empty_segment_queue() -> (q: SegQueue<Arc<Task>>)
    ensures
        queued_tasks(q) == Seq::<TaskView>::empty(),
{
    SegQueue::new()
}

/// Appends `task` at the tail with `SegQueue::push`. The queue is taken by `&mut`, though
/// `push` needs only `&`, so that the change to what it holds can be stated.
#[verifier::external_body]
fn segment_push(q: &mut SegQueue<Arc<Task>>, task: Arc<Task>)
    ensures
        queued_tasks(*final(q)) == queued_tasks(*old(q)).push(task@),
{
    q.push(task)
}

/// Takes the task at the head with `SegQueue::pop`: none when the queue is empty, else
/// the head, which leaves the queue. The queue is taken by `&mut`, though `pop` needs only
/// `&`, so that the change to what it holds can be stated.
#[verifier::external_body]
fn segment_pop(q: &mut SegQueue<Arc<Task>>) -> (r: Option<Arc<Task>>)
    ensures
        queued_tasks(*old(q)).len() == 0 ==> r is None && queued_tasks(*final(q))
            == queued_tasks(*old(q)),
        queued_tasks(*old(q)).len() > 0 ==> (r matches Some(t) && t@ == queued_tasks(*old(q))[0]
            && queued_tasks(*final(q)) == queued_tasks(*old(q)).drop_first()),
{
    q.pop()
}

/// Asks `SegQueue::is_empty` whether the queue holds no task.
#[verifier::external_body]
fn segment_is_empty(q: &SegQueue<Arc<Task>>) -> (r: bool)
    ensures
        r == (queued_tasks(*q).len() == 0),
{
    q.is_empty()
}

/// A shared handle on the same task.
fn share(task: &Arc<Task>) -> (r: Arc<Task>)
    ensures
        r@ == task@,
{
    Arc::clone(task)
}

/// The highest priority below `bound` whose level holds a task, if there is one.
pub open spec fn top_level(levels: spec_fn(Priority) -> Seq<TaskView>, bound: int) -> Option<Priority>
    decreases bound,
{
    if bound <= 0 {
        None
    } else if levels((bound - 1) as u8).len() > 0 {
        Some((bound - 1) as u8)
    } else {
        top_level(levels, bound - 1)
    }
}

/// Tasks ordered first by priority, highest first, then by arrival within a priority.
pub struct PriorityQueue {
    queues: BTreeMap<Priority, SegQueue<Arc<Task>>>,
}

impl PriorityQueue {
    /// The tasks waiting at priority `p`, oldest first.
    pub closed spec fn level(&self, p: Priority) -> Seq<TaskView> {
        if self.queues@.contains_key(p) {
            queued_tasks(self.queues@[p])
        } else {
            Seq::empty()
        }
    }

    /// All levels, by priority.
    pub open spec fn levels(&self) -> spec_fn(Priority) -> Seq<TaskView> {
        |p: Priority| self.level(p)
    }

    /// The highest priority that holds a task.
    pub open spec fn top(&self) -> Option<Priority> {
        top_level(self.levels(), 256)
    }

    /// No task waits at any priority.
    pub open spec fn empty(&self) -> bool {
        forall|p: Priority| #[trigger] self.level(p).len() == 0
    }

    /// Every task waits at its own priority.
    pub open spec fn sorted(&self) -> bool {
        forall|p: Priority, i: int|
            0 <= i < self.level(p).len() ==> (#[trigger] self.level(p)[i]).priority == p
    }

    pub fn new() -> (r: Self)
        ensures
            r.empty(),
            r.sorted(),
    {
        PriorityQueue { queues: BTreeMap::new() }
    }

    /// Queues `task` behind the tasks of its priority.
    pub fn push(&mut self, task: Arc<Task>)
        requires
            old(self).sorted(),
        ensures
            final(self).sorted(),
            final(self).level(task@.priority) == old(self).level(task@.priority).push(task@),
            forall|p: Priority| p != task@.priority ==> #[trigger] final(self).level(p) == old(
                self,
            ).level(p),
    {
        let priority = task.priority();
        let mut queue = match self.queues.remove(&priority) {
            Some(q) => q,
            None => empty_segment_queue(),
        };
        segment_push(&mut queue, task);
        self.queues.insert(priority, queue);
        assert forall|p: Priority, i: int| 0 <= i < self.level(p).len() implies (
        #[trigger] self.level(p)[i]).priority == p by {
            if p == priority && i == self.level(p).len() - 1 {
            } else {
                assert(self.level(p)[i] == old(self).level(p)[i]);
            }
        }
    }

    /// Takes the oldest task of the highest priority that holds one; none when no task
    /// waits.
    pub fn pop(&mut self) -> (r: Option<Arc<Task>>)
        ensures
            old(self).sorted() ==> final(self).sorted(),
            old(self).top() is None ==> (r is None && forall|p: Priority| #[trigger] final(self).level(p)
                == old(self).level(p)),
            old(self).top() matches Some(t) ==> {
                &&& (r matches Some(task) && task@ == old(self).level(t)[0])
                &&& final(self).level(t) == old(self).level(t).drop_first()
                &&& forall|p: Priority| p != t ==> #[trigger] final(self).level(p) == old(self).level(p)
            },
    {
        let mut bound: u16 = 256;
        while bound > 0
            invariant
                bound <= 256,
                forall|p: Priority| #[trigger] self.level(p) == old(self).level(p),
                top_level(old(self).levels(), 256) == top_level(old(self).levels(), bound as int),
            decreases bound,
        {
            let p: u8 = (bound - 1) as u8;
            let ghost before_map = self.queues@;
            let ghost pre_levels = self.levels();
            assert(self.level(p) == old(self).level(p));
            if self.queues.contains_key(&p) {
                assert(before_map.contains_key(p));
                assert(self.level(p) == queued_tasks(before_map[p]));
                let mut queue = self.queues.remove(&p).unwrap();
                let ghost held = queued_tasks(queue);
                assert(held == old(self).level(p));
                let next = segment_pop(&mut queue);
                self.queues.insert(p, queue);
                assert forall|q: Priority| q != p implies #[trigger] self.level(q)
                    == old(self).level(q) by {
                    assert(self.queues@.contains_key(q) == before_map.contains_key(q));
                    if before_map.contains_key(q) {
                        assert(self.queues@[q] == before_map[q]);
                    }
                    assert(pre_levels(q) == old(self).level(q));
                }
                match next {
                    Some(task) => {
                        proof {
                            assert(old(self).levels()(p) == old(self).level(p));
                            assert(held.len() > 0);
                            assert(top_level(old(self).levels(), bound as int) == Some(p));
                        }
                        return Some(task);
                    },
                    None => {
                        assert(self.level(p) == old(self).level(p));
                    },
                }
            }
            proof {
                assert(old(self).levels()(p) == old(self).level(p));
            }
            bound = bound - 1;
        }
        None
    }

    /// Whether no task waits at any priority.
    pub fn is_empty(&self) -> (r: bool)
        ensures
            r == self.empty(),
    {
        let mut bound: u16 = 256;
        while bound > 0
            invariant
                bound <= 256,
                forall|p: Priority| bound <= p ==> #[trigger] self.level(p).len() == 0,
            decreases bound,
        {
            let p: u8 = (bound - 1) as u8;
            match self.queues.get(&p) {
                Some(queue) => {
                    if !segment_is_empty(queue) {
                        assert(self.level(p).len() > 0);
                        return false;
                    }
                },
                None => {},
            }
            bound = bound - 1;
        }
        true
    }
}

/// The last of `tasks` whose identifier is `id`.
pub open spec fn last_with_id(tasks: Seq<TaskView>, id: TaskId) -> Option<TaskView>
    decreases tasks.len(),
{
    if tasks.len() == 0 {
        None
    } else if tasks.last().id == id {
        Some(tasks.last())
    } else {
        last_with_id(tasks.drop_last(), id)
    }
}

/// A task queued last is the one found under its identifier; queuing it changes nothing
/// that is found under another identifier.
pub proof fn lemma_last_with_id_push(tasks: Seq<TaskView>, t: TaskView, id: TaskId)
    ensures
        last_with_id(tasks.push(t), id) == (if t.id == id {
            Some(t)
        } else {
            last_with_id(tasks, id)
        }),
{
    assert(tasks.push(t).drop_last() =~= tasks);
}

/// A priority queue of tasks, with every task ever queued kept in arrival order so that
/// it can be found by its identifier.
pub struct TaskQueue {
    queue: PriorityQueue,
    task_lookup: SegQueue<Arc<Task>>,
}

impl TaskQueue {
    /// The tasks waiting at priority `p`, oldest first.
    pub closed spec fn level(&self, p: Priority) -> Seq<TaskView> {
        self.queue.level(p)
    }

    /// The highest priority that holds a task.
    pub closed spec fn top(&self) -> Option<Priority> {
        self.queue.top()
    }

    /// Every task ever queued, oldest first.
    pub closed spec fn lookup(&self) -> Seq<TaskView> {
        queued_tasks(self.task_lookup)
    }

    /// Every task waits at its own priority.
    pub open spec fn sorted(&self) -> bool {
        forall|p: Priority, i: int|
            0 <= i < self.level(p).len() ==> (#[trigger] self.level(p)[i]).priority == p
    }

    proof fn lemma_sorted_iff(&self)
        ensures
            self.sorted() == self.queue.sorted(),
    {
        assert forall|p: Priority| #![trigger self.level(p)] #![trigger self.queue.level(p)]
            self.level(p) == self.queue.level(p) by {}
    }

    /// The highest priority that holds a task is `top()`: the levels above it are empty,
    /// and the level itself is not.
    pub proof fn lemma_top(&self)
        ensures
            self.top() matches Some(t) ==> self.level(t).len() > 0 && forall|p: Priority|
                t < p ==> #[trigger] self.level(p).len() == 0,
            self.top() is None ==> forall|p: Priority| #[trigger] self.level(p).len() == 0,
    {
        lemma_top_level(self.queue.levels(), 256);
        assert forall|p: Priority| #[trigger] self.level(p) == self.queue.levels()(p) by {}
    }

    /// A priority whose level holds a task, above which every level is empty, is `top()`.
    pub proof fn lemma_is_top(&self, t: Priority)
        requires
            self.level(t).len() > 0,
            forall|p: Priority| t < p ==> #[trigger] self.level(p).len() == 0,
        ensures
            self.top() == Some(t),
    {
        assert forall|p: Priority| #[trigger] self.queue.levels()(p) == self.level(p) by {}
        lemma_top_level_is(self.queue.levels(), t, 256);
    }

    pub fn new() -> (r: Self)
        ensures
            forall|p: Priority| #[trigger] r.level(p).len() == 0,
            r.lookup().len() == 0,
            r.sorted(),
    {
        TaskQueue { queue: PriorityQueue::new(), task_lookup: empty_segment_queue() }
    }

    /// Queues `task` behind the tasks of its priority, and records it for lookup.
    pub fn push(&mut self, task: Task)
        requires
            old(self).sorted(),
        ensures
            final(self).sorted(),
            final(self).level(task@.priority) == old(self).level(task@.priority).push(task@),
            forall|p: Priority| p != task@.priority ==> #[trigger] final(self).level(p) == old(
                self,
            ).level(p),
            final(self).lookup() == old(self).lookup().push(task@),
    {
        proof {
            self.lemma_sorted_iff();
        }
        let task = Arc::new(task);
        self.queue.push(share(&task));
        segment_push(&mut self.task_lookup, task);
        proof {
            self.lemma_sorted_iff();
        }
    }

    /// Takes the oldest task of the highest priority that holds one; none when no task
    /// waits. The lookup record keeps every task.
    pub fn pop(&mut self) -> (r: Option<Arc<Task>>)
        ensures
            old(self).sorted() ==> final(self).sorted(),
            old(self).top() is None ==> (r is None && forall|p: Priority| #[trigger] final(self).level(p)
                == old(self).level(p)),
            old(self).top() matches Some(t) ==> {
                &&& (r matches Some(task) && task@ == old(self).level(t)[0])
                &&& final(self).level(t) == old(self).level(t).drop_first()
                &&& forall|p: Priority| p != t ==> #[trigger] final(self).level(p) == old(self).level(p)
            },
            final(self).lookup() == old(self).lookup(),
    {
        proof {
            self.lemma_sorted_iff();
        }
        let r = self.queue.pop();
        proof {
            self.lemma_sorted_iff();
        }
        r
    }

    /// The task with identifier `id` that was queued last, if any was. The queue is left
    /// as it was.
    pub fn get_task(&mut self, id: TaskId) -> (r: Option<Arc<Task>>)
        ensures
            forall|p: Priority| #[trigger] final(self).level(p) == old(self).level(p),
            final(self).lookup() == old(self).lookup(),
            match r {
                Some(t) => last_with_id(old(self).lookup(), id) == Some(t@),
                None => last_with_id(old(self).lookup(), id) is None,
            },
    {
        let ghost all = queued_tasks(self.task_lookup);
        let mut temp_queue = empty_segment_queue();
        let mut found_task: Option<Arc<Task>> = None;
        loop
            invariant
                all == queued_tasks(temp_queue) + queued_tasks(self.task_lookup),
                match found_task {
                    Some(t) => last_with_id(queued_tasks(temp_queue), id) == Some(t@),
                    None => last_with_id(queued_tasks(temp_queue), id) is None,
                },
                self.queue == old(self).queue,
            ensures
                all == queued_tasks(temp_queue),
                queued_tasks(self.task_lookup).len() == 0,
                match found_task {
                    Some(t) => last_with_id(all, id) == Some(t@),
                    None => last_with_id(all, id) is None,
                },
                self.queue == old(self).queue,
            decreases queued_tasks(self.task_lookup).len(),
        {
            let ghost seen = queued_tasks(temp_queue);
            let ghost rest = queued_tasks(self.task_lookup);
            match segment_pop(&mut self.task_lookup) {
                Some(task) => {
                    if task.id() == id {
                        found_task = Some(share(&task));
                    }
                    proof {
                        lemma_last_with_id_push(seen, task@, id);
                        assert(seen.push(task@) + rest.drop_first() =~= seen + rest);
                    }
                    segment_push(&mut temp_queue, task);
                },
                None => {
                    assert(seen + rest =~= seen);
                    break;
                },
            }
        }
        assert(all =~= queued_tasks(self.task_lookup) + queued_tasks(temp_queue));
        loop
            invariant
                all == queued_tasks(self.task_lookup) + queued_tasks(temp_queue),
                self.queue == old(self).queue,
            ensures
                all == queued_tasks(self.task_lookup),
                self.queue == old(self).queue,
            decreases queued_tasks(temp_queue).len(),
        {
            let ghost back = queued_tasks(self.task_lookup);
            let ghost rest = queued_tasks(temp_queue);
            match segment_pop(&mut temp_queue) {
                Some(item) => {
                    assert(back.push(item@) + rest.drop_first() =~= back + rest);
                    segment_push(&mut self.task_lookup, item);
                },
                None => {
                    assert(back + rest =~= back);
                    break;
                },
            }
        }
        found_task
    }

    /// Whether no task waits at any priority.
    pub fn is_empty(&self) -> (r: bool)
        ensures
            r == forall|p: Priority| #[trigger] self.level(p).len() == 0,
    {
        let r = self.queue.is_empty();
        assert forall|p: Priority| #![trigger self.level(p)] #![trigger self.queue.level(p)]
            self.level(p) == self.queue.level(p) by {}
        r
    }
}

proof fn lemma_top_level_is(levels: spec_fn(Priority) -> Seq<TaskView>, t: Priority, bound: int)
    requires
        t < bound <= 256,
        levels(t).len() > 0,
        forall|p: Priority| t < p < bound ==> #[trigger] levels(p).len() == 0,
    ensures
        top_level(levels, bound) == Some(t),
    decreases bound,
{
    if bound - 1 > t {
        assert(levels((bound - 1) as u8).len() == 0);
        lemma_top_level_is(levels, t, bound - 1);
    }
}

/// What `top_level` finds: the level it names holds a task and every level between it and
/// the bound is empty; when it finds none, every level below the bound is empty.
pub proof fn lemma_top_level(levels: spec_fn(Priority) -> Seq<TaskView>, bound: int)
    requires
        bound <= 256,
    ensures
        top_level(levels, bound) matches Some(t) ==> levels(t).len() > 0 && t < bound
            && forall|p: Priority| t < p < bound ==> #[trigger] levels(p).len() == 0,
        top_level(levels, bound) is None ==> forall|p: Priority| p < bound ==> #[trigger] levels(
            p,
        ).len() == 0,
    decreases bound,
{
    if bound > 0 {
        lemma_top_level(levels, bound - 1);
    }
}

} // verus!
