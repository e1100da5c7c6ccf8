use crate::common::types::{uuid_string, uuid_text, TaskConfig, TaskConfigView, TaskUuid};
use crate::utils::error::{NightError, Result};
use std::collections::{HashMap, HashSet, VecDeque};
use vstd::prelude::*;
use vstd::std_specs::iter::IteratorSpec;
use vstd::string::StringExecFns;

verus! {

broadcast use vstd::std_specs::hash::group_hash_axioms;

/// A dependency graph: each task maps to the tasks it depends on.
pub type DependencyGraph = Map<TaskUuid, Seq<TaskUuid>>;

/// Task `u` is in the graph and depends on `v`.
pub open spec fn depends(g: DependencyGraph, u: TaskUuid, v: TaskUuid) -> bool {
    g.contains_key(u) && g[u].contains(v)
}

/// The `i`-th step of `p` follows a dependency.
pub open spec fn step_at(g: DependencyGraph, p: Seq<TaskUuid>, i: int) -> bool {
    depends(g, p[i], p[i + 1])
}

/// `p` is a chain of dependencies: each task depends on the next.
pub open spec fn is_dependency_path(g: DependencyGraph, p: Seq<TaskUuid>) -> bool {
    p.len() >= 1 && forall|i: int| 0 <= i < p.len() - 1 ==> #[trigger] step_at(g, p, i)
}

/// Some chain of dependencies leads from a task back to itself.
pub open spec fn has_cycle(g: DependencyGraph) -> bool {
    exists|p: Seq<TaskUuid>| #[trigger] is_dependency_path(g, p) && p.len() >= 2 && p[0] == p.last()
}

/// Every task that some task depends on is itself in the graph.
pub open spec fn dependencies_known(g: DependencyGraph) -> bool {
    forall|u: TaskUuid, v: TaskUuid| #[trigger] depends(g, u, v) ==> g.contains_key(v)
}

/// The graph that a list of task configurations gives: each task's dependencies, a later
/// configuration with the same id replacing an earlier one.
pub open spec fn config_graph(tasks: Seq<TaskConfigView>) -> DependencyGraph
    decreases tasks.len(),
{
    if tasks.len() == 0 {
        Map::empty()
    } else {
        config_graph(tasks.drop_last()).insert(tasks.last().id, tasks.last().dependencies)
    }
}

/// The configurations by id that a list gives, a later one replacing an earlier one.
pub open spec fn config_map(tasks: Seq<TaskConfigView>) -> Map<TaskUuid, TaskConfigView>
    decreases tasks.len(),
{
    if tasks.len() == 0 {
        Map::empty()
    } else {
        config_map(tasks.drop_last()).insert(tasks.last().id, tasks.last())
    }
}

/// No two configurations in the list have the same id.
pub open spec fn distinct_ids(tasks: Seq<TaskConfigView>) -> bool {
    forall|i: int, j: int|
        0 <= i < j < tasks.len() ==> (#[trigger] tasks[i]).id != (#[trigger] tasks[j]).id
}

/// Some task of the list has id `x`.
pub open spec fn is_task_id(tasks: Seq<TaskConfigView>, x: TaskUuid) -> bool {
    exists|m: int| 0 <= m < tasks.len() && #[trigger] tasks[m].id == x
}

/// A configuration whose id comes again later in the list names no task of the list
/// among its dependencies: the later one replaces it, and what it leaves among the
/// dependents of known tasks is nothing.
pub open spec fn repeats_name_no_task(tasks: Seq<TaskConfigView>) -> bool {
    forall|i: int, j: int|
        0 <= i < j < tasks.len() && (#[trigger] tasks[i]).id == (#[trigger] tasks[j]).id
            ==> names_no_task(tasks, tasks[i].dependencies)
}

/// No id of `deps` is the id of a task of the list.
pub open spec fn names_no_task(tasks: Seq<TaskConfigView>, deps: Seq<TaskUuid>) -> bool {
    forall|k: int| 0 <= k < deps.len() ==> !is_task_id(tasks, #[trigger] deps[k])
}

/// No id of `deps` is in `known`.
pub open spec fn avoids(known: Set<TaskUuid>, deps: Seq<TaskUuid>) -> bool {
    forall|k: int| 0 <= k < deps.len() ==> !known.contains(#[trigger] deps[k])
}

/// The tasks that depend on `d`, in the order of the configuration, each once for every
/// time it lists `d`.
pub open spec fn dependents_of(tasks: Seq<TaskConfigView>, d: TaskUuid) -> Seq<TaskUuid>
    decreases tasks.len(),
{
    if tasks.len() == 0 {
        seq![]
    } else {
        dependents_of(tasks.drop_last(), d) + Seq::new(
            occurrences(tasks.last().dependencies, d),
            |_i: int| tasks.last().id,
        )
    }
}

/// A task is told that another depends on it exactly when the other's configuration
/// lists it among its dependencies.
pub proof fn lemma_dependents_listed(tasks: Seq<TaskConfigView>, d: TaskUuid, t: TaskUuid)
    ensures
        dependents_of(tasks, d).contains(t) <==> exists|i: int|
            0 <= i < tasks.len() && tasks[i].id == t && #[trigger] tasks[i].dependencies.contains(d),
    decreases tasks.len(),
{
    if tasks.len() > 0 {
        let init = tasks.drop_last();
        let last = tasks.last();
        let head = dependents_of(init, d);
        let rep = Seq::new(occurrences(last.dependencies, d), |_i: int| last.id);
        lemma_dependents_listed(init, d, t);
        assert(dependents_of(tasks, d) == head + rep);
        if last.dependencies.contains(d) {
            lemma_occurrences_present(last.dependencies, d);
        } else {
            lemma_occurrences_absent(last.dependencies, d);
        }
        if (head + rep).contains(t) {
            let k = choose|k: int| 0 <= k < (head + rep).len() && (head + rep)[k] == t;
            if k < head.len() {
                assert(head[k] == t);
            } else {
                assert(rep[k - head.len()] == t);
                assert(tasks[tasks.len() - 1] == last);
            }
        }
        if exists|i: int|
            0 <= i < tasks.len() && tasks[i].id == t && #[trigger] tasks[i].dependencies.contains(d) {
            let i = choose|i: int|
                0 <= i < tasks.len() && tasks[i].id == t && #[trigger] tasks[i].dependencies.contains(d);
            if i < init.len() {
                assert(init[i] == tasks[i]);
                assert(head.contains(t));
                let k = choose|k: int| 0 <= k < head.len() && head[k] == t;
                assert((head + rep)[k] == t);
            } else {
                assert(rep[0] == t);
                assert((head + rep)[head.len() as int] == t);
            }
        }
    }
}

proof fn lemma_dependents_absent(s: Seq<TaskConfigView>, d: TaskUuid, t: TaskUuid)
    requires
        forall|i: int| 0 <= i < s.len() && (#[trigger] s[i]).id == t ==> !s[i].dependencies.contains(d),
    ensures
        occurrences(dependents_of(s, d), t) == 0,
    decreases s.len(),
{
    if s.len() > 0 {
        let init = s.drop_last();
        let last = s.last();
        assert forall|i: int| 0 <= i < init.len() && (#[trigger] init[i]).id == t implies !init[i].dependencies.contains(d) by {
            assert(init[i] == s[i]);
        }
        lemma_dependents_absent(init, d, t);
        let n = occurrences(last.dependencies, d);
        lemma_occurrences_concat(dependents_of(init, d), Seq::new(n, |_i: int| last.id), t);
        lemma_occurrences_repeat(n, last.id, t);
        if last.id == t {
            assert(s[s.len() - 1] == last);
            lemma_occurrences_absent(last.dependencies, d);
        }
    }
}

proof fn lemma_dependents_count(s: Seq<TaskConfigView>, known: Set<TaskUuid>, d: TaskUuid, t: TaskUuid)
    requires
        forall|i: int, j: int|
            0 <= i < j < s.len() && (#[trigger] s[i]).id == (#[trigger] s[j]).id ==> avoids(
                known,
                s[i].dependencies,
            ),
        known.contains(d),
        config_graph(s).contains_key(t),
    ensures
        occurrences(dependents_of(s, d), t) == occurrences(config_graph(s)[t], d),
    decreases s.len(),
{
    let init = s.drop_last();
    let last = s.last();
    let n = occurrences(last.dependencies, d);
    lemma_occurrences_concat(dependents_of(init, d), Seq::new(n, |_i: int| last.id), t);
    lemma_occurrences_repeat(n, last.id, t);
    if last.id == t {
        assert forall|i: int| 0 <= i < init.len() && (#[trigger] init[i]).id == t implies !init[i].dependencies.contains(d) by {
            assert(init[i] == s[i]);
            assert(s[s.len() - 1] == last);
            if init[i].dependencies.contains(d) {
                let k = choose|k: int| 0 <= k < init[i].dependencies.len() && init[i].dependencies[k] == d;
                assert(s[i].id == s[s.len() - 1].id);
                assert(avoids(known, s[i].dependencies));
                assert(!known.contains(s[i].dependencies[k]));
            }
        }
        lemma_dependents_absent(init, d, t);
    } else {
        assert forall|i: int, j: int|
            0 <= i < j < init.len() && (#[trigger] init[i]).id == (#[trigger] init[j]).id implies avoids(
                known,
                init[i].dependencies,
            ) by {
            assert(init[i] == s[i]);
            assert(init[j] == s[j]);
        }
        lemma_dependents_count(init, known, d, t);
    }
}

/// When no repeated configuration names a task of the list, the dependents of each task
/// of the list agree with the dependency lists.
proof fn lemma_inverts_of_dependents(all: Seq<TaskConfigView>)
    requires
        repeats_name_no_task(all),
    ensures
        inverts(config_graph(all), Map::new(|d: TaskUuid| true, |d: TaskUuid| dependents_of(all, d))),
        forall|d: TaskUuid, t: TaskUuid|
            config_graph(all).contains_key(d) && config_graph(all).contains_key(t)
                ==> #[trigger] occurrences(dependents_of(all, d), t) == occurrences(config_graph(all)[t], d),
        forall|d: TaskUuid, i: int|
            config_graph(all).contains_key(d) && 0 <= i < dependents_of(all, d).len()
                ==> config_graph(all).contains_key(#[trigger] dependents_of(all, d)[i]),
{
    let g = config_graph(all);
    let known = g.dom();
    assert forall|i: int, j: int|
        0 <= i < j < all.len() && (#[trigger] all[i]).id == (#[trigger] all[j]).id implies avoids(
            known,
            all[i].dependencies,
        ) by {
        assert(names_no_task(all, all[i].dependencies));
        assert forall|k: int| 0 <= k < all[i].dependencies.len() implies !known.contains(
            #[trigger] all[i].dependencies[k],
        ) by {
            lemma_config_graph_dom(all, all[i].dependencies[k]);
        }
    }
    assert forall|d: TaskUuid, t: TaskUuid|
        g.contains_key(d) && g.contains_key(t) implies #[trigger] occurrences(dependents_of(all, d), t)
            == occurrences(g[t], d) by {
        lemma_dependents_count(all, known, d, t);
    }
    assert forall|d: TaskUuid, i: int|
        g.contains_key(d) && 0 <= i < dependents_of(all, d).len() implies g.contains_key(
            #[trigger] dependents_of(all, d)[i],
        ) by {
        let t = dependents_of(all, d)[i];
        lemma_dependents_listed(all, d, t);
        assert(dependents_of(all, d).contains(t));
        let m = choose|m: int| 0 <= m < all.len() && all[m].id == t && #[trigger] all[m].dependencies.contains(d);
        lemma_config_graph_dom(all, t);
    }
    let rev = Map::new(|d: TaskUuid| true, |d: TaskUuid| dependents_of(all, d));
    assert forall|d: TaskUuid| #[trigger] list_at(rev, d) == dependents_of(all, d) by {}
}

/// How often `x` occurs in `s`.
pub open spec fn occurrences(s: Seq<TaskUuid>, x: TaskUuid) -> nat
    decreases s.len(),
{
    if s.len() == 0 {
        0
    } else {
        occurrences(s.drop_last(), x) + if s.last() == x {
            1nat
        } else {
            0nat
        }
    }
}

/// The list that a map of lists holds at `k`; empty where it holds none.
pub open spec fn list_at(m: Map<TaskUuid, Seq<TaskUuid>>, k: TaskUuid) -> Seq<TaskUuid> {
    if m.contains_key(k) {
        m[k]
    } else {
        seq![]
    }
}

/// `rev` lists, for each task, the tasks that depend on it: task `t` once for each time
/// it lists the task as a dependency.
pub open spec fn inverts(g: DependencyGraph, rev: Map<TaskUuid, Seq<TaskUuid>>) -> bool {
    &&& forall|d: TaskUuid, t: TaskUuid|
        g.contains_key(d) && g.contains_key(t) ==> #[trigger] occurrences(list_at(rev, d), t)
            == occurrences(g[t], d)
    &&& forall|d: TaskUuid, i: int|
        g.contains_key(d) && 0 <= i < list_at(rev, d).len() ==> g.contains_key(
            #[trigger] list_at(rev, d)[i],
        )
}

/// The message of the error for a task that depends on a task that is not there.
pub open spec fn missing_dependency_text(task: TaskUuid, dep: TaskUuid) -> Seq<char> {
    "Task "@ + uuid_text(task) + " depends on non-existent task "@ + uuid_text(dep)
}

/// The texts of `ids` joined by `", "`.
pub open spec fn joined_ids(ids: Seq<TaskUuid>) -> Seq<char>
    decreases ids.len(),
{
    if ids.len() == 0 {
        seq![]
    } else if ids.len() == 1 {
        uuid_text(ids[0])
    } else {
        joined_ids(ids.drop_last()) + ", "@ + uuid_text(ids.last())
    }
}

/// What the cycle search reports for the tasks on its stack when it meets a cycle, in
/// the order their set is walked.
pub open spec fn cycle_report(stack: Seq<TaskUuid>) -> Seq<char> {
    "Cyclic dependency detected: {"@ + joined_ids(stack) + "}"@
}

/// The message of the error for a dependency cycle: the search's report, shown as the
/// error it came in.
pub open spec fn cycle_text(stack: Seq<TaskUuid>) -> Seq<char> {
    "Cyclic dependency detected: Mission(\""@ + cycle_report(stack) + "\")"@
}


/// The keys of a map, each once, in the order the map walks them.
pub(crate) fn keys_of<V>(m: &HashMap<TaskUuid, V>) -> (ks: Vec<TaskUuid>)
    ensures
        ks@.no_duplicates(),
        ks@.to_set() == m@.dom(),
{
    let mut ks: Vec<TaskUuid> = Vec::new();
    for k in it: m.keys()
        invariant
            ks@ == it.seq().take(it.index() as int).unref(),
            it.seq().no_duplicates(),
            it.seq().unref().to_set() == m@.dom(),
        ensures
            ks@ == it.seq().unref(),
            it.seq().no_duplicates(),
            it.seq().unref().to_set() == m@.dom(),
    {
        ks.push(*k);
        assert(ks@ =~= it.seq().take(it.index() + 1).unref());
    }
    ks
}


pub(crate) proof fn lemma_occurrences_push(s: Seq<TaskUuid>, y: TaskUuid, x: TaskUuid)
    ensures
        occurrences(s.push(y), x) == occurrences(s, x) + if y == x {
            1nat
        } else {
            0nat
        },
{
    assert(s.push(y).drop_last() =~= s);
}

proof fn lemma_occurrences_concat(a: Seq<TaskUuid>, b: Seq<TaskUuid>, x: TaskUuid)
    ensures
        occurrences(a + b, x) == occurrences(a, x) + occurrences(b, x),
    decreases b.len(),
{
    if b.len() == 0 {
        assert(a + b =~= a);
    } else {
        lemma_occurrences_concat(a, b.drop_last(), x);
        assert((a + b).drop_last() =~= a + b.drop_last());
    }
}

proof fn lemma_occurrences_repeat(n: nat, y: TaskUuid, x: TaskUuid)
    ensures
        occurrences(Seq::new(n, |_i: int| y), x) == if y == x {
            n
        } else {
            0
        },
    decreases n,
{
    if n > 0 {
        lemma_occurrences_repeat((n - 1) as nat, y, x);
        assert(Seq::new(n, |_i: int| y).drop_last() =~= Seq::new((n - 1) as nat, |_i: int| y));
    }
}

pub(crate) proof fn lemma_occurrences_absent(s: Seq<TaskUuid>, x: TaskUuid)
    requires
        !s.contains(x),
    ensures
        occurrences(s, x) == 0,
    decreases s.len(),
{
    if s.len() > 0 {
        assert(!s.drop_last().contains(x)) by {
            if s.drop_last().contains(x) {
                let k = choose|k: int| 0 <= k < s.drop_last().len() && s.drop_last()[k] == x;
                assert(s[k] == x);
            }
        }
        lemma_occurrences_absent(s.drop_last(), x);
    }
}

pub(crate) proof fn lemma_occurrences_present(s: Seq<TaskUuid>, x: TaskUuid)
    requires
        s.contains(x),
    ensures
        occurrences(s, x) > 0,
    decreases s.len(),
{
    if s.last() != x {
        let k = choose|k: int| 0 <= k < s.len() && s[k] == x;
        assert(s.drop_last()[k] == x);
        lemma_occurrences_present(s.drop_last(), x);
    }
}

proof fn lemma_config_graph_entry(tasks: Seq<TaskConfigView>, x: TaskUuid)
    requires
        config_graph(tasks).contains_key(x),
    ensures
        exists|j: int|
            0 <= j < tasks.len() && (#[trigger] tasks[j]).id == x && config_graph(tasks)[x]
                == tasks[j].dependencies,
    decreases tasks.len(),
{
    let n = tasks.len() - 1;
    if tasks[n].id == x {
        assert(config_graph(tasks)[x] == tasks[n].dependencies);
    } else {
        lemma_config_graph_entry(tasks.drop_last(), x);
        let j = choose|j: int|
            0 <= j < tasks.drop_last().len() && (#[trigger] tasks.drop_last()[j]).id == x
                && config_graph(tasks.drop_last())[x] == tasks.drop_last()[j].dependencies;
        assert(tasks[j] == tasks.drop_last()[j]);
    }
}

pub(crate) proof fn lemma_config_graph_dom(tasks: Seq<TaskConfigView>, x: TaskUuid)
    ensures
        config_graph(tasks).contains_key(x) <==> exists|j: int|
            0 <= j < tasks.len() && (#[trigger] tasks[j]).id == x,
        config_map(tasks).dom() == config_graph(tasks).dom(),
    decreases tasks.len(),
{
    if tasks.len() > 0 {
        lemma_config_graph_dom(tasks.drop_last(), x);
        if config_graph(tasks.drop_last()).contains_key(x) {
            let j = choose|j: int|
                0 <= j < tasks.drop_last().len() && (#[trigger] tasks.drop_last()[j]).id == x;
            assert(tasks[j].id == x);
        }
        if exists|j: int| 0 <= j < tasks.len() && (#[trigger] tasks[j]).id == x {
            let j = choose|j: int| 0 <= j < tasks.len() && (#[trigger] tasks[j]).id == x;
            if j < tasks.len() - 1 {
                assert(tasks.drop_last()[j].id == x);
            }
        }
        assert(config_map(tasks).dom() =~= config_graph(tasks).dom()) by {
            assert forall|y: TaskUuid|
                config_map(tasks).dom().contains(y) <==> config_graph(tasks).dom().contains(
                    y,
                ) by {
                lemma_config_graph_dom(tasks.drop_last(), y);
            }
        }
    }
}

/// A search that meets a task already on its stack has found a cycle.
proof fn lemma_back_edge_cycle(g: DependencyGraph, path: Seq<TaskUuid>, t: TaskUuid)
    requires
        path.len() > 0,
        path.contains(t),
        forall|i: int| 0 <= i < path.len() - 1 ==> #[trigger] step_at(g, path, i),
        depends(g, path.last(), t),
    ensures
        has_cycle(g),
{
    let j = choose|j: int| 0 <= j < path.len() && path[j] == t;
    let c = path.subrange(j, path.len() as int).push(t);
    assert forall|i: int| 0 <= i < c.len() - 1 implies #[trigger] step_at(g, c, i) by {
        if i < c.len() - 2 {
            assert(step_at(g, path, j + i));
        }
    }
    assert(is_dependency_path(g, c));
}

proof fn lemma_rank_decreases(g: DependencyGraph, rank: Map<TaskUuid, int>, p: Seq<TaskUuid>, k: int)
    requires
        is_dependency_path(g, p),
        1 <= k < p.len(),
        rank.contains_key(p[0]),
        forall|u: TaskUuid, v: TaskUuid|
            rank.contains_key(u) && #[trigger] depends(g, u, v) ==> rank.contains_key(v) && rank[v]
                < rank[u],
    ensures
        rank.contains_key(p[k]),
        rank[p[k]] < rank[p[0]],
    decreases k,
{
    assert(step_at(g, p, k - 1));
    if k > 1 {
        lemma_rank_decreases(g, rank, p, k - 1);
    }
}

/// A graph whose tasks all have ranks that fall along every dependency has no cycle.
proof fn lemma_ranked_acyclic(g: DependencyGraph, rank: Map<TaskUuid, int>)
    requires
        forall|u: TaskUuid| g.contains_key(u) ==> rank.contains_key(u),
        forall|u: TaskUuid, v: TaskUuid|
            rank.contains_key(u) && #[trigger] depends(g, u, v) ==> rank.contains_key(v) && rank[v]
                < rank[u],
    ensures
        !has_cycle(g),
{
    if has_cycle(g) {
        let p = choose|p: Seq<TaskUuid>|
            #[trigger] is_dependency_path(g, p) && p.len() >= 2 && p[0] == p.last();
        assert(step_at(g, p, 0));
        lemma_rank_decreases(g, rank, p, p.len() - 1);
    }
}

/// The state of the depth-first search for cycles: the stack is the current chain of
/// dependencies, and every finished task has a rank above those of its dependencies.
spec fn search_state(
    g: DependencyGraph,
    visited: Set<TaskUuid>,
    stack: Set<TaskUuid>,
    path: Seq<TaskUuid>,
    rank: Map<TaskUuid, int>,
    next: int,
) -> bool {
    &&& stack == path.to_set()
    &&& path.no_duplicates()
    &&& forall|i: int| 0 <= i < path.len() - 1 ==> #[trigger] step_at(g, path, i)
    &&& stack.subset_of(visited)
    &&& rank.dom() == visited.difference(stack)
    &&& forall|u: TaskUuid| #[trigger] rank.contains_key(u) ==> rank[u] < next
    &&& forall|u: TaskUuid, v: TaskUuid|
        rank.contains_key(u) && #[trigger] depends(g, u, v) ==> rank.contains_key(v) && rank[v]
            < rank[u]
}

/// The elements of a set, each once, in the order the set walks them.
fn set_elements(s: &HashSet<TaskUuid>) -> (v: Vec<TaskUuid>)
    ensures
        v@.no_duplicates(),
        v@.to_set() == s@,
{
    let mut v: Vec<TaskUuid> = Vec::new();
    for k in it: s.iter()
        invariant
            v@ == it.seq().take(it.index() as int).unref(),
            it.seq().no_duplicates(),
            it.seq().unref().to_set() == s@,
        ensures
            v@ == it.seq().unref(),
            it.seq().no_duplicates(),
            it.seq().unref().to_set() == s@,
    {
        v.push(*k);
        assert(v@ =~= it.seq().take(it.index() + 1).unref());
    }
    v
}

/// The texts of `ids` joined by `", "`.
fn join_ids(ids: &Vec<TaskUuid>) -> (s: String)
    ensures
        s@ == joined_ids(ids@),
{
    let mut s = String::new();
    for i in 0..ids.len()
        invariant
            s@ == joined_ids(ids@.take(i as int)),
    {
        if i > 0 {
            s.append(", ");
        }
        let t = uuid_string(ids[i]);
        s.append(t.as_str());
        proof {
            let p = ids@.take(i + 1);
            assert(p.drop_last() =~= ids@.take(i as int));
            if i == 0 {
                assert(ids@.take(0) =~= seq![]);
                assert(s@ =~= joined_ids(p));
            } else {
                assert(s@ =~= joined_ids(p));
            }
        }
    }
    assert(ids@.take(ids.len() as int) =~= ids@);
    s
}


/// How many entries of `s` are not in `done`.
pub open spec fn pending(s: Seq<TaskUuid>, done: Set<TaskUuid>) -> nat
    decreases s.len(),
{
    if s.len() == 0 {
        0
    } else {
        pending(s.drop_last(), done) + if done.contains(s.last()) {
            0nat
        } else {
            1nat
        }
    }
}

/// Task `t` depends on some task of `level`.
pub open spec fn depends_on_some(g: DependencyGraph, t: TaskUuid, level: Seq<TaskUuid>) -> bool {
    exists|d: TaskUuid| g[t].contains(d) && level.contains(d)
}

/// Task `t` is in one of the first `upto` levels.
pub open spec fn in_levels(levels: Seq<Seq<TaskUuid>>, t: TaskUuid, upto: int) -> bool {
    exists|k: int| 0 <= k < upto && #[trigger] levels[k].contains(t)
}

/// `levels` is the level order of the graph: every task in exactly one level and once;
/// every task after all its dependencies; and every task past the first level right after
/// the level of one of its dependencies.
pub open spec fn is_level_order(g: DependencyGraph, levels: Seq<Seq<TaskUuid>>) -> bool {
    &&& forall|k: int| 0 <= k < levels.len() ==> #[trigger] levels[k].len() > 0
    &&& forall|t: TaskUuid| g.contains_key(t) <==> in_levels(levels, t, levels.len() as int)
    &&& forall|k1: int, i1: int, k2: int, i2: int|
        0 <= k1 < levels.len() && 0 <= k2 < levels.len() && 0 <= i1 < levels[k1].len() && 0 <= i2
            < levels[k2].len() && #[trigger] levels[k1][i1] == #[trigger] levels[k2][i2] ==> k1
            == k2 && i1 == i2
    &&& forall|k: int, i: int, d: TaskUuid|
        0 <= k < levels.len() && 0 <= i < levels[k].len() && #[trigger] g[levels[k][i]].contains(d)
            ==> in_levels(levels, d, k)
    &&& forall|k: int, i: int|
        1 <= k < levels.len() && 0 <= i < levels[k].len() ==> depends_on_some(g, #[trigger] levels[k][i], levels[k - 1])
}

/// The lists that a vector of vectors holds.
pub open spec fn level_seqs(v: Seq<Vec<TaskUuid>>) -> Seq<Seq<TaskUuid>> {
    v.map_values(|l: Vec<TaskUuid>| l@)
}

proof fn lemma_pending_insert(s: Seq<TaskUuid>, done: Set<TaskUuid>, x: TaskUuid)
    requires
        !done.contains(x),
    ensures
        pending(s, done) >= occurrences(s, x),
        pending(s, done.insert(x)) == pending(s, done) - occurrences(s, x),
    decreases s.len(),
{
    if s.len() > 0 {
        lemma_pending_insert(s.drop_last(), done, x);
    }
}

proof fn lemma_pending_zero(s: Seq<TaskUuid>, done: Set<TaskUuid>)
    ensures
        pending(s, done) == 0 <==> forall|i: int| 0 <= i < s.len() ==> done.contains(#[trigger] s[i]),
    decreases s.len(),
{
    if s.len() > 0 {
        lemma_pending_zero(s.drop_last(), done);
        if pending(s, done) == 0 {
            assert forall|i: int| 0 <= i < s.len() implies done.contains(#[trigger] s[i]) by {
                if i < s.len() - 1 {
                    assert(s.drop_last()[i] == s[i]);
                }
            }
        }
        if forall|i: int| 0 <= i < s.len() ==> done.contains(#[trigger] s[i]) {
            assert forall|i: int| 0 <= i < s.drop_last().len() implies done.contains(
                #[trigger] s.drop_last()[i],
            ) by {
                assert(s.drop_last()[i] == s[i]);
            }
            assert(done.contains(s[s.len() - 1]));
        }
    }
}

proof fn lemma_pending_none_done(s: Seq<TaskUuid>)
    ensures
        pending(s, Set::empty()) == s.len(),
    decreases s.len(),
{
    if s.len() > 0 {
        lemma_pending_none_done(s.drop_last());
    }
}

proof fn lemma_pending_grows_done(s: Seq<TaskUuid>, a: Set<TaskUuid>, b: Set<TaskUuid>)
    requires
        a.subset_of(b),
    ensures
        pending(s, b) <= pending(s, a),
    decreases s.len(),
{
    if s.len() > 0 {
        lemma_pending_grows_done(s.drop_last(), a, b);
    }
}

proof fn lemma_occurrences_take(s: Seq<TaskUuid>, j: int, x: TaskUuid)
    requires
        0 <= j < s.len(),
    ensures
        occurrences(s.take(j + 1), x) == occurrences(s.take(j), x) + if s[j] == x {
            1nat
        } else {
            0nat
        },
        occurrences(s.take(j + 1), x) <= occurrences(s, x),
{
    assert(s.take(j + 1) =~= s.take(j).push(s[j]));
    lemma_occurrences_push(s.take(j), s[j], x);
    lemma_occurrences_concat(s.take(j + 1), s.skip(j + 1), x);
    assert(s.take(j + 1) + s.skip(j + 1) =~= s);
}

/// A walk of `n` steps along dependencies that stays in `s`.
proof fn walk_within(g: DependencyGraph, s: Set<TaskUuid>, n: nat) -> (p: Seq<TaskUuid>)
    requires
        s.len() > 0,
        s.finite(),
        forall|t: TaskUuid| #[trigger] s.contains(t) ==> exists|d: TaskUuid| depends(g, t, d) && s.contains(d),
    ensures
        p.len() == n + 1,
        is_dependency_path(g, p),
        forall|i: int| 0 <= i < p.len() ==> s.contains(#[trigger] p[i]),
    decreases n,
{
    if n == 0 {
        let t = s.choose();
        assert(s.contains(t));
        seq![t]
    } else {
        let q = walk_within(g, s, (n - 1) as nat);
        assert(s.contains(q[q.len() - 1]));
        let d = choose|d: TaskUuid| depends(g, q.last(), d) && s.contains(d);
        let p = q.push(d);
        assert forall|i: int| 0 <= i < p.len() - 1 implies #[trigger] step_at(g, p, i) by {
            if i < q.len() - 1 {
                assert(step_at(g, q, i));
            }
        }
        assert forall|i: int| 0 <= i < p.len() implies s.contains(#[trigger] p[i]) by {
            if i < q.len() {
                assert(p[i] == q[i]);
            }
        }
        p
    }
}

/// When every task of a finite nonempty set depends on some task of the set, a chain of
/// dependencies comes back to a task it has met: there is a cycle.
proof fn lemma_closed_set_cycle(g: DependencyGraph, s: Set<TaskUuid>)
    requires
        s.len() > 0,
        s.finite(),
        forall|t: TaskUuid| #[trigger] s.contains(t) ==> exists|d: TaskUuid| depends(g, t, d) && s.contains(d),
    ensures
        has_cycle(g),
{
    let p = walk_within(g, s, s.len());
    if p.no_duplicates() {
        p.unique_seq_to_set();
        assert(p.to_set().subset_of(s));
        vstd::set_lib::lemma_len_subset(p.to_set(), s);
        assert(false);
    }
    let (i, j) = choose|i: int, j: int|
        0 <= i < p.len() && 0 <= j < p.len() && i != j && p[i] == p[j];
    let (a, b) = if i < j {
        (i, j)
    } else {
        (j, i)
    };
    let c = p.subrange(a, b + 1);
    assert forall|k: int| 0 <= k < c.len() - 1 implies #[trigger] step_at(g, c, k) by {
        assert(step_at(g, p, a + k));
    }
    assert(is_dependency_path(g, c));
}


/// The first levels of a level order: each level nonempty and made of tasks of the graph,
/// no task twice, every task after its dependencies, and every task past the first level
/// right after the level of one of its dependencies.
pub open spec fn partial_level_order(g: DependencyGraph, levels: Seq<Seq<TaskUuid>>) -> bool {
    &&& forall|k: int| 0 <= k < levels.len() ==> #[trigger] levels[k].len() > 0
    &&& forall|k: int, i: int|
        0 <= k < levels.len() && 0 <= i < levels[k].len() ==> g.contains_key(#[trigger] levels[k][i])
    &&& forall|k1: int, i1: int, k2: int, i2: int|
        0 <= k1 < levels.len() && 0 <= k2 < levels.len() && 0 <= i1 < levels[k1].len() && 0 <= i2
            < levels[k2].len() && #[trigger] levels[k1][i1] == #[trigger] levels[k2][i2] ==> k1
            == k2 && i1 == i2
    &&& forall|k: int, i: int, d: TaskUuid|
        0 <= k < levels.len() && 0 <= i < levels[k].len() && #[trigger] g[levels[k][i]].contains(d)
            ==> in_levels(levels, d, k)
    &&& forall|k: int, i: int|
        1 <= k < levels.len() && 0 <= i < levels[k].len() ==> depends_on_some(g, #[trigger] levels[k][i], levels[k - 1])
}

/// The queue of a level-order walk: the tasks not yet placed whose dependencies all are.
pub open spec fn ready_queue(g: DependencyGraph, queue: Seq<TaskUuid>, done: Set<TaskUuid>) -> bool {
    &&& queue.no_duplicates()
    &&& forall|i: int|
        0 <= i < queue.len() ==> g.contains_key(#[trigger] queue[i]) && !done.contains(queue[i])
            && pending(g[queue[i]], done) == 0
    &&& forall|t: TaskUuid|
        g.contains_key(t) && !done.contains(t) && pending(g[t], done) == 0 ==> #[trigger] queue.contains(t)
}

/// Appending the level of the ready tasks keeps a level order, and the tasks that became
/// ready while it was placed are the next ready queue.
proof fn lemma_next_level(
    g: DependencyGraph,
    old_levels: Seq<Seq<TaskUuid>>,
    level: Seq<TaskUuid>,
    done0: Set<TaskUuid>,
    fresh: Seq<TaskUuid>,
)
    requires
        g.dom().finite(),
        partial_level_order(g, old_levels),
        forall|t: TaskUuid| #[trigger] done0.contains(t) <==> in_levels(old_levels, t, old_levels.len() as int),
        forall|t: TaskUuid| #[trigger] done0.contains(t) ==> pending(g[t], done0) == 0,
        done0.subset_of(g.dom()),
        ready_queue(g, level, done0),
        level.len() > 0,
        old_levels.len() > 0 ==> forall|i: int| 0 <= i < level.len() ==> depends_on_some(g, #[trigger] level[i], old_levels.last()),
        fresh.no_duplicates(),
        forall|t: TaskUuid| #[trigger] fresh.contains(t) ==> g.contains_key(t) && !done0.contains(t) && !level.contains(t) && pending(g[t], done0.union(level.to_set())) == 0,
        forall|t: TaskUuid| g.contains_key(t) && !done0.contains(t) && !level.contains(t) && pending(g[t], done0.union(level.to_set())) == 0 ==> #[trigger] fresh.contains(t),
    ensures
        ({
            let done = done0.union(level.to_set());
            let levels = old_levels.push(level);
            &&& partial_level_order(g, levels)
            &&& forall|t: TaskUuid| #[trigger] done.contains(t) <==> in_levels(levels, t, levels.len() as int)
            &&& forall|t: TaskUuid| #[trigger] done.contains(t) ==> pending(g[t], done) == 0
            &&& done.subset_of(g.dom())
            &&& ready_queue(g, fresh, done)
            &&& forall|i: int| 0 <= i < fresh.len() ==> depends_on_some(g, #[trigger] fresh[i], levels.last())
            &&& g.dom().difference(done).len() < g.dom().difference(done0).len()
        }),
{
    let done = done0.union(level.to_set());
    let levels = old_levels.push(level);
    let n = old_levels.len() as int;
    assert(levels[n] == level);
    assert forall|k: int| 0 <= k < n implies #[trigger] levels[k] == old_levels[k] by {}
    assert forall|t: TaskUuid| #[trigger] level.contains(t) implies g.contains_key(t) && !done0.contains(t) && pending(g[t], done0) == 0 by {
        let i = choose|i: int| 0 <= i < level.len() && level[i] == t;
        assert(g.contains_key(level[i]));
    }
    // the walk's sets
    assert forall|t: TaskUuid| #[trigger] done.contains(t) <==> in_levels(levels, t, levels.len() as int) by {
        if done.contains(t) {
            if done0.contains(t) {
                let k = choose|k: int| 0 <= k < n && #[trigger] old_levels[k].contains(t);
                assert(levels[k].contains(t));
            } else {
                assert(levels[n].contains(t));
            }
        }
        if in_levels(levels, t, levels.len() as int) {
            let k = choose|k: int| 0 <= k < levels.len() && #[trigger] levels[k].contains(t);
            if k < n {
                assert(old_levels[k].contains(t));
                assert(in_levels(old_levels, t, n));
            } else {
                assert(level.to_set().contains(t));
            }
        }
    }
    assert forall|t: TaskUuid| #[trigger] done.contains(t) implies pending(g[t], done) == 0 by {
        if done0.contains(t) {
            lemma_pending_grows_done(g[t], done0, done);
        } else {
            assert(level.contains(t));
            lemma_pending_grows_done(g[t], done0, done);
        }
    }
    // the level order
    assert forall|k: int, i: int| 0 <= k < levels.len() && 0 <= i < levels[k].len() implies g.contains_key(#[trigger] levels[k][i]) by {
        if k == n {
            assert(level.contains(level[i]));
        }
    }
    assert forall|k1: int, i1: int, k2: int, i2: int|
        0 <= k1 < levels.len() && 0 <= k2 < levels.len() && 0 <= i1 < levels[k1].len() && 0 <= i2
            < levels[k2].len() && #[trigger] levels[k1][i1] == #[trigger] levels[k2][i2] implies k1
            == k2 && i1 == i2 by {
        if k1 == n && k2 < n {
            assert(old_levels[k2].contains(levels[k2][i2]));
            assert(done0.contains(levels[k2][i2]));
            assert(level.contains(level[i1]));
        } else if k2 == n && k1 < n {
            assert(old_levels[k1].contains(levels[k1][i1]));
            assert(done0.contains(levels[k1][i1]));
            assert(level.contains(level[i2]));
        }
    }
    assert forall|k: int, i: int, d: TaskUuid|
        0 <= k < levels.len() && 0 <= i < levels[k].len() && #[trigger] g[levels[k][i]].contains(d)
            implies in_levels(levels, d, k) by {
        if k == n {
            let x = level[i];
            assert(level.contains(x));
            lemma_pending_zero(g[x], done0);
            let j = choose|j: int| 0 <= j < g[x].len() && g[x][j] == d;
            assert(done0.contains(g[x][j]));
            let k2 = choose|k2: int| 0 <= k2 < n && #[trigger] old_levels[k2].contains(d);
            assert(levels[k2].contains(d));
        } else {
            assert(in_levels(old_levels, d, k));
            let k2 = choose|k2: int| 0 <= k2 < k && #[trigger] old_levels[k2].contains(d);
            assert(levels[k2].contains(d));
        }
    }
    assert forall|k: int, i: int|
        1 <= k < levels.len() && 0 <= i < levels[k].len() implies depends_on_some(g, #[trigger] levels[k][i], levels[k - 1]) by {
        if k == n {
            assert(level.contains(level[i]));
            assert(depends_on_some(g, level[i], old_levels.last()));
            let d = choose|d: TaskUuid| g[level[i]].contains(d) && old_levels.last().contains(d);
            assert(levels[k - 1] == old_levels.last());
            assert(levels[k][i] == level[i]);
            assert(g[levels[k][i]].contains(d) && levels[k - 1].contains(d));
        } else {
            assert(levels[k] == old_levels[k]);
            assert(levels[k - 1] == old_levels[k - 1]);
            assert(depends_on_some(g, old_levels[k][i], old_levels[k - 1]));
            let d = choose|d: TaskUuid| g[old_levels[k][i]].contains(d) && old_levels[k - 1].contains(d);
            assert(g[levels[k][i]].contains(d) && levels[k - 1].contains(d));
        }
    }
    // the next queue
    assert forall|i: int| 0 <= i < fresh.len() implies g.contains_key(#[trigger] fresh[i]) && !done.contains(fresh[i])
        && pending(g[fresh[i]], done) == 0 by {
        assert(fresh.contains(fresh[i]));
    }
    assert forall|t: TaskUuid| g.contains_key(t) && !done.contains(t) && pending(g[t], done) == 0 implies #[trigger] fresh.contains(t) by {
        assert(!level.contains(t));
    }
    assert forall|i: int| 0 <= i < fresh.len() implies depends_on_some(g, #[trigger] fresh[i], levels.last()) by {
        let t = fresh[i];
        assert(fresh.contains(t));
        assert(pending(g[t], done0) != 0);
        lemma_pending_zero(g[t], done0);
        lemma_pending_zero(g[t], done);
        let j = choose|j: int| 0 <= j < g[t].len() && !done0.contains(#[trigger] g[t][j]);
        assert(done.contains(g[t][j]));
        assert(level.to_set().contains(g[t][j]));
        assert(levels.last() == level);
    }
    assert forall|k: int| 0 <= k < levels.len() implies #[trigger] levels[k].len() > 0 by {}
    assert(forall|k: int| 0 <= k < levels.len() ==> #[trigger] levels[k].len() > 0);
    assert(forall|k: int, i: int|
        0 <= k < levels.len() && 0 <= i < levels[k].len() ==> g.contains_key(#[trigger] levels[k][i]));
    assert(forall|k1: int, i1: int, k2: int, i2: int|
        0 <= k1 < levels.len() && 0 <= k2 < levels.len() && 0 <= i1 < levels[k1].len() && 0 <= i2
            < levels[k2].len() && #[trigger] levels[k1][i1] == #[trigger] levels[k2][i2] ==> k1
            == k2 && i1 == i2);
    assert(forall|k: int, i: int, d: TaskUuid|
        0 <= k < levels.len() && 0 <= i < levels[k].len() && #[trigger] g[levels[k][i]].contains(d)
            ==> in_levels(levels, d, k));
    assert(forall|k: int, i: int|
        1 <= k < levels.len() && 0 <= i < levels[k].len() ==> depends_on_some(g, #[trigger] levels[k][i], levels[k - 1]));
    assert(partial_level_order(g, levels));
    assert(ready_queue(g, fresh, done));
    // progress
    assert(level.contains(level[0]));
    assert(g.dom().difference(done).subset_of(g.dom().difference(done0).remove(level[0])));
    vstd::set_lib::lemma_len_subset(g.dom().difference(done0), g.dom());
    vstd::set_lib::lemma_len_subset(g.dom().difference(done), g.dom().difference(done0).remove(level[0]));
}

/// When no task is ready and some are left, the tasks left close a cycle.
proof fn lemma_stuck_walk(g: DependencyGraph, done: Set<TaskUuid>)
    requires
        g.dom().finite(),
        dependencies_known(g),
        !has_cycle(g),
        forall|t: TaskUuid| g.contains_key(t) && !done.contains(t) ==> pending(g[t], done) > 0,
    ensures
        forall|t: TaskUuid| g.contains_key(t) ==> #[trigger] done.contains(t),
{
    let rest = g.dom().difference(done);
    if rest.len() > 0 {
        vstd::set_lib::lemma_len_subset(rest, g.dom());
        assert forall|t: TaskUuid| #[trigger] rest.contains(t) implies exists|d: TaskUuid| depends(g, t, d) && rest.contains(d) by {
            assert(g.contains_key(t) && !done.contains(t));
            assert(pending(g[t], done) > 0);
            lemma_pending_zero(g[t], done);
            let j = choose|j: int| 0 <= j < g[t].len() && !done.contains(#[trigger] g[t][j]);
            let d = g[t][j];
            assert(g[t].contains(d));
            assert(depends(g, t, d));
            assert(g.contains_key(d));
            assert(rest.contains(d));
        }
        lemma_closed_set_cycle(g, rest);
    }
    assert forall|t: TaskUuid| g.contains_key(t) implies #[trigger] done.contains(t) by {
        if !done.contains(t) {
            assert(rest.contains(t));
        }
    }
}

/// Keeps the tasks of a mission and the dependencies between them.
pub struct TopologyManager {
    tasks: HashMap<TaskUuid, TaskConfig>,
    dependencies: HashMap<TaskUuid, Vec<TaskUuid>>,
    reverse_dependencies: HashMap<TaskUuid, Vec<TaskUuid>>,
}

impl TopologyManager {
    /// The dependency graph: each task and the tasks it depends on.
    pub closed spec fn graph(&self) -> DependencyGraph {
        self.dependencies@.map_values(|v: Vec<TaskUuid>| v@)
    }

    /// The configuration of each task.
    pub closed spec fn configs(&self) -> Map<TaskUuid, TaskConfigView> {
        self.tasks@.map_values(|c: TaskConfig| c@)
    }

    closed spec fn reverse(&self) -> Map<TaskUuid, Seq<TaskUuid>> {
        self.reverse_dependencies@.map_values(|v: Vec<TaskUuid>| v@)
    }

    closed spec fn shape(&self) -> bool {
        &&& self.tasks@.dom() == self.dependencies@.dom()
        &&& forall|id: TaskUuid|
            #[trigger] self.tasks@.contains_key(id) ==> self.configs()[id].dependencies
                == self.graph()[id]
    }

    /// The topology was accepted: its graph has no cycle and names no unknown task.
    pub closed spec fn valid(&self) -> bool {
        &&& self.shape()
        &&& !has_cycle(self.graph())
        &&& dependencies_known(self.graph())
    }

    /// The topology is valid and its list of dependent tasks matches its graph, which
    /// holds when no two of its configurations shared an id.
    pub closed spec fn well_formed(&self) -> bool {
        &&& self.valid()
        &&& inverts(self.graph(), self.reverse())
    }

    /// Builds the topology of a mission's tasks and checks it: the tasks' dependencies must
    /// form no cycle and must name only tasks of the mission.
    pub fn new(tasks: Vec<TaskConfig>) -> (r: Result<TopologyManager>)
        ensures
            r is Ok <==> (!has_cycle(config_graph(tasks.deep_view())) && dependencies_known(
                config_graph(tasks.deep_view()),
            )),
            r matches Ok(t) ==> {
                &&& t.graph() == config_graph(tasks.deep_view())
                &&& t.configs() == config_map(tasks.deep_view())
                &&& t.valid()
                &&& distinct_ids(tasks.deep_view()) ==> t.well_formed()
                &&& repeats_name_no_task(tasks.deep_view()) ==> t.well_formed()
            },
            r matches Err(e) ==> {
                &&& e is Mission
                &&& has_cycle(config_graph(tasks.deep_view())) ==> exists|stack: Seq<TaskUuid>|
                    stack.no_duplicates() && e.detail() == cycle_text(stack)
                &&& !has_cycle(config_graph(tasks.deep_view())) ==> exists|t: TaskUuid, d: TaskUuid|
                    depends(config_graph(tasks.deep_view()), t, d) && !config_graph(
                        tasks.deep_view(),
                    ).contains_key(d) && e.detail() == missing_dependency_text(t, d)
            },
    {
        let mut topology = TopologyManager {
            tasks: HashMap::new(),
            dependencies: HashMap::new(),
            reverse_dependencies: HashMap::new(),
        };
        let ghost all = tasks.deep_view();
        proof {
            assert(topology.graph() =~= config_graph(all.take(0)));
            assert(topology.configs() =~= config_map(all.take(0)));
            assert(topology.reverse() =~= Map::empty());
        }
        for i in 0..tasks.len()
            invariant
                all == tasks.deep_view(),
                topology.shape(),
                topology.graph() == config_graph(all.take(i as int)),
                topology.configs() == config_map(all.take(i as int)),
                forall|d: TaskUuid| #[trigger] list_at(topology.reverse(), d) == dependents_of(
                    all.take(i as int),
                    d,
                ),
        {
            let task = tasks[i].clone();
            proof {
                let p = all.take(i + 1);
                assert(p.drop_last() =~= all.take(i as int));
                assert(p.last() == task@);
            }
            let ghost r0 = topology.reverse();
            let ghost tv = task@;
            let _ = topology.add_task(task);
            proof {
                let p = all.take(i + 1);
                assert forall|d: TaskUuid| #[trigger] list_at(topology.reverse(), d)
                    == dependents_of(p, d) by {
                    assert(list_at(r0, d) == dependents_of(all.take(i as int), d));
                }
            }
        }
        proof {
            assert(all.take(tasks.len() as int) =~= all);
            if repeats_name_no_task(all) {
                lemma_inverts_of_dependents(all);
                assert(inverts(topology.graph(), topology.reverse()));
            }
            if distinct_ids(all) {
                assert(repeats_name_no_task(all));
                lemma_inverts_of_dependents(all);
                assert(inverts(topology.graph(), topology.reverse()));
            }
        }
        match topology.validate() {
            Ok(()) => Ok(topology),
            Err(e) => Err(e),
        }
    }

    /// Records a task: its configuration, its dependencies, and it as a dependent of each
    /// of them.
    fn add_task(&mut self, task: TaskConfig) -> (r: Result<()>)
        requires
            old(self).shape(),
        ensures
            r is Ok,
            final(self).shape(),
            final(self).graph() == old(self).graph().insert(task.id, task.dependencies@),
            final(self).configs() == old(self).configs().insert(task.id, task@),
            forall|d: TaskUuid| #[trigger] list_at(final(self).reverse(), d) == list_at(
                old(self).reverse(),
                d,
            ) + Seq::new(occurrences(task.dependencies@, d), |_i: int| task.id),
    {
        let task_id = task.id;
        let deps = task.dependencies.clone();
        let ghost g0 = self.graph();
        let ghost r0 = self.reverse();
        let ghost c0 = self.configs();
        let ghost tv = task@;
        self.tasks.insert(task_id, task.clone());
        self.dependencies.insert(task_id, deps.clone());
        proof {
            assert(self.graph() =~= g0.insert(task_id, deps@));
            assert(self.configs() =~= c0.insert(task_id, tv));
            assert(self.reverse() =~= r0);
            assert(deps@.take(0) =~= seq![]);
            assert forall|d: TaskUuid| #[trigger] list_at(self.reverse(), d) == list_at(r0, d) + Seq::new(
                occurrences(deps@.take(0), d),
                |_i: int| task_id,
            ) by {
                assert(list_at(r0, d) + Seq::new(0, |_i: int| task_id) =~= list_at(r0, d));
            }
        }
        for i in 0..deps.len()
            invariant
                self.shape(),
                self.graph() == g0.insert(task_id, deps@),
                self.configs() == c0.insert(task_id, tv),
                forall|d: TaskUuid| #[trigger] list_at(self.reverse(), d) == list_at(r0, d) + Seq::new(
                    occurrences(deps@.take(i as int), d),
                    |_i: int| task_id,
                ),
        {
            let dep_id = deps[i];
            let ghost before = self.reverse();
            let mut list = match self.reverse_dependencies.remove(&dep_id) {
                Some(l) => l,
                None => Vec::new(),
            };
            assert(list@ == list_at(before, dep_id));
            list.push(task_id);
            self.reverse_dependencies.insert(dep_id, list);
            proof {
                assert(deps@.take(i + 1) =~= deps@.take(i as int).push(dep_id));
                assert forall|d: TaskUuid| #[trigger] list_at(self.reverse(), d) == list_at(r0, d)
                    + Seq::new(occurrences(deps@.take(i + 1), d), |_i: int| task_id) by {
                    lemma_occurrences_push(deps@.take(i as int), dep_id, d);
                    let n = occurrences(deps@.take(i as int), d);
                    if d == dep_id {
                        assert(list_at(self.reverse(), d) =~= list_at(before, d).push(task_id));
                        assert(list_at(r0, d) + Seq::new(n + 1, |_i: int| task_id) =~= (list_at(
                            r0,
                            d,
                        ) + Seq::new(n, |_i: int| task_id)).push(task_id));
                    } else {
                        assert(list_at(self.reverse(), d) == list_at(before, d));
                    }
                }
            }
        }
        proof {
            assert(deps@.take(deps@.len() as int) =~= deps@);
        }
        Ok(())
    }

    /// Checks that the graph has no cycle and names only known tasks; a cycle is reported
    /// first.
    fn validate(&self) -> (r: Result<()>)
        requires
            self.shape(),
        ensures
            r is Ok <==> (!has_cycle(self.graph()) && dependencies_known(self.graph())),
            r matches Err(e) ==> {
                &&& e is Mission
                &&& has_cycle(self.graph()) ==> exists|stack: Seq<TaskUuid>|
                    stack.no_duplicates() && e.detail() == cycle_text(stack)
                &&& !has_cycle(self.graph()) ==> exists|t: TaskUuid, d: TaskUuid|
                    depends(self.graph(), t, d) && !self.graph().contains_key(d) && e.detail()
                        == missing_dependency_text(t, d)
            },
    {
        match self.detect_cycle() {
            Ok(()) => {},
            Err(cycle) => {
                let detail = match cycle {
                    NightError::Mission(m) => m,
                    _ => String::new(),
                };
                let mut msg = String::from_str("Cyclic dependency detected: Mission(\"");
                msg.append(detail.as_str());
                msg.append("\")");
                proof {
                    let stack = choose|stack: Seq<TaskUuid>|
                        stack.no_duplicates() && detail@ == cycle_report(stack);
                    assert(msg@ =~= cycle_text(stack));
                }
                return Err(NightError::Mission(msg));
            },
        }
        let keys = keys_of(&self.dependencies);
        for k in 0..keys.len()
            invariant
                self.shape(),
                !has_cycle(self.graph()),
                keys@.to_set() == self.dependencies@.dom(),
                forall|j: int, v: TaskUuid|
                    0 <= j < k && #[trigger] depends(self.graph(), keys@[j], v)
                        ==> self.graph().contains_key(v),
        {
            let task_id = keys[k];
            assert(keys@.to_set().contains(task_id));
            let deps = match self.dependencies.get(&task_id) {
                Some(d) => d,
                None => {
                    return Ok(());
                },
            };
            assert(deps@ == self.graph()[task_id]);
            for i in 0..deps.len()
                invariant
                    self.shape(),
                    !has_cycle(self.graph()),
                    deps@ == self.graph()[task_id],
                    self.graph().contains_key(task_id),
                    forall|j: int| 0 <= j < i ==> self.graph().contains_key(#[trigger] deps@[j]),
            {
                let dep_id = deps[i];
                if !self.tasks.contains_key(&dep_id) {
                    let mut msg = String::from_str("Task ");
                    msg.append(uuid_string(task_id).as_str());
                    msg.append(" depends on non-existent task ");
                    msg.append(uuid_string(dep_id).as_str());
                    proof {
                        assert(depends(self.graph(), task_id, dep_id));
                        assert(msg@ =~= missing_dependency_text(task_id, dep_id));
                    }
                    return Err(NightError::Mission(msg));
                }
            }
            proof {
                assert forall|j: int, v: TaskUuid|
                    0 <= j < k + 1 && #[trigger] depends(self.graph(), keys@[j], v)
                        implies self.graph().contains_key(v) by {
                    if j == k {
                        let i = choose|i: int| 0 <= i < deps@.len() && deps@[i] == v;
                    }
                }
            }
        }
        proof {
            assert forall|u: TaskUuid, v: TaskUuid| #[trigger] depends(self.graph(), u, v)
                implies self.graph().contains_key(v) by {
                assert(keys@.to_set().contains(u));
                let j = choose|j: int| 0 <= j < keys@.len() && keys@[j] == u;
                assert(depends(self.graph(), keys@[j], v));
            }
        }
        Ok(())
    }

    /// Searches depth first for a cycle among all tasks.
    fn detect_cycle(&self) -> (r: Result<()>)
        requires
            self.shape(),
        ensures
            r is Ok <==> !has_cycle(self.graph()),
            r matches Err(e) ==> {
                &&& e is Mission
                &&& exists|stack: Seq<TaskUuid>|
                    stack.no_duplicates() && e.detail() == cycle_report(stack)
            },
    {
        let mut visited: HashSet<TaskUuid> = HashSet::new();
        let mut stack: HashSet<TaskUuid> = HashSet::new();
        let mut rank: Ghost<Map<TaskUuid, int>> = Ghost(Map::empty());
        let mut next: Ghost<int> = Ghost(0);
        let keys = keys_of(&self.tasks);
        proof {
            assert(visited@.difference(stack@) =~= Map::<TaskUuid, int>::empty().dom());
            assert(Seq::<TaskUuid>::empty().to_set() =~= stack@);
        }
        for k in 0..keys.len()
            invariant
                self.shape(),
                keys@.to_set() == self.tasks@.dom(),
                search_state(self.graph(), visited@, stack@, Seq::empty(), rank@, next@),
                stack@ == Set::<TaskUuid>::empty(),
                forall|j: int| 0 <= j < k ==> visited@.contains(#[trigger] keys@[j]),
        {
            let bound = Ghost(self.graph().dom().difference(visited@).len());
            if self.is_cyclic(keys[k], &mut visited, &mut stack, Ghost(Seq::empty()), &mut rank, &mut next, bound) {
                let elements = set_elements(&stack);
                let mut msg = String::from_str("Cyclic dependency detected: {");
                msg.append(join_ids(&elements).as_str());
                msg.append("}");
                assert(msg@ =~= cycle_report(elements@));
                return Err(NightError::Mission(msg));
            }
        }
        proof {
            assert forall|u: TaskUuid| self.graph().contains_key(u) implies rank@.contains_key(u) by {
                assert(keys@.to_set().contains(u));
                let j = choose|j: int| 0 <= j < keys@.len() && keys@[j] == u;
                assert(visited@.contains(keys@[j]));
            }
            lemma_ranked_acyclic(self.graph(), rank@);
        }
        Ok(())
    }

    /// Depth-first search from `task_id`: true when it meets a task on the stack, which
    /// closes a cycle. On false the task is finished: visited and off the stack.
    fn is_cyclic(
        &self,
        task_id: TaskUuid,
        visited: &mut HashSet<TaskUuid>,
        stack: &mut HashSet<TaskUuid>,
        Ghost(path): Ghost<Seq<TaskUuid>>,
        rank: &mut Ghost<Map<TaskUuid, int>>,
        next: &mut Ghost<int>,
        Ghost(bound): Ghost<nat>,
    ) -> (r: bool)
        requires
            self.shape(),
            search_state(self.graph(), old(visited)@, old(stack)@, path, old(rank)@, old(next)@),
            path.len() > 0 ==> depends(self.graph(), path.last(), task_id),
            bound == self.graph().dom().difference(old(visited)@).len(),
        ensures
            r ==> has_cycle(self.graph()),
            !r ==> {
                &&& search_state(
                    self.graph(),
                    final(visited)@,
                    final(stack)@,
                    path,
                    final(rank)@,
                    final(next)@,
                )
                &&& final(stack)@ == old(stack)@
                &&& old(visited)@.subset_of(final(visited)@)
                &&& final(visited)@.contains(task_id)
                &&& !final(stack)@.contains(task_id)
            },
        decreases bound,
    {
        let ghost g = self.graph();
        if stack.contains(&task_id) {
            proof {
                assert(path.to_set().contains(task_id));
                lemma_back_edge_cycle(g, path, task_id);
            }
            return true;
        }
        if visited.contains(&task_id) {
            return false;
        }
        let ghost v0 = visited@;
        let ghost s0 = stack@;
        visited.insert(task_id);
        stack.insert(task_id);
        let ghost path2 = path.push(task_id);
        proof {
            assert(g.dom() =~= self.dependencies@.dom());
            vstd::std_specs::hash::axiom_hashmap_view_finite_dom(self.dependencies);
            path.lemma_push_to_set_commute(task_id);
            assert(path2.to_set() =~= stack@);
            assert forall|i: int| 0 <= i < path2.len() - 1 implies #[trigger] step_at(g, path2, i) by {
                if i < path.len() - 1 {
                    assert(step_at(g, path, i));
                }
            }
            assert(visited@.difference(stack@) =~= v0.difference(s0));
        }
        match self.dependencies.get(&task_id) {
            Some(deps) => {
                for i in 0..deps.len()
                    invariant
                        self.shape(),
                        g == self.graph(),
                        g.contains_key(task_id),
                        path2 == path.push(task_id),
                        g.dom().finite(),
                        deps@ == g[task_id],
                        search_state(g, visited@, stack@, path2, rank@, next@),
                        stack@ == s0.insert(task_id),
                        !v0.contains(task_id),
                        v0.insert(task_id).subset_of(visited@),
                        bound == g.dom().difference(v0).len(),
                        forall|j: int| 0 <= j < i ==> rank@.contains_key(#[trigger] deps@[j]),
                {
                    let dep_id = deps[i];
                    let sub = Ghost(g.dom().difference(visited@).len());
                    proof {
                        vstd::set_lib::lemma_len_subset(g.dom().difference(v0), g.dom());
                        vstd::set_lib::lemma_len_subset(
                            g.dom().difference(visited@),
                            g.dom().difference(v0).remove(task_id),
                        );
                        assert(g.dom().difference(visited@).subset_of(
                            g.dom().difference(v0).remove(task_id),
                        ));
                        assert(g[task_id][i as int] == dep_id);
                        assert(depends(g, path2.last(), dep_id));
                    }
                    if self.is_cyclic(dep_id, visited, stack, Ghost(path2), rank, next, sub) {
                        return true;
                    }
                }
            },
            None => {},
        }
        stack.remove(&task_id);
        proof {
            let old_rank = rank@;
            assert forall|v: TaskUuid| #[trigger] depends(g, task_id, v) implies old_rank.contains_key(v) by {
                let i = choose|i: int| 0 <= i < g[task_id].len() && g[task_id][i] == v;
            }
            rank@ = rank@.insert(task_id, next@);
            next@ = next@ + 1;
            assert(path.to_set() =~= stack@) by {
                path.lemma_push_to_set_commute(task_id);
            }
            assert(rank@.dom() =~= visited@.difference(stack@));
        }
        false
    }

    /// Each task's count of dependencies, all still to run.
    fn initial_degrees(&self) -> (deg: HashMap<TaskUuid, usize>)
        requires
            self.valid(),
        ensures
            deg@.dom() == self.graph().dom(),
            forall|t: TaskUuid| #[trigger] self.graph().contains_key(t) ==> deg@[t] as nat == pending(self.graph()[t], Set::empty()),
    {
        let keys = keys_of(&self.tasks);
        let mut in_degree: HashMap<TaskUuid, usize> = HashMap::new();
        for k in 0..keys.len()
            invariant
                self.valid(),
                keys@.to_set() == self.tasks@.dom(),
                keys@.no_duplicates(),
                in_degree@.dom() == keys@.take(k as int).to_set(),
                forall|t: TaskUuid| #[trigger] in_degree@.contains_key(t) ==> in_degree@[t] as nat == pending(self.graph()[t], Set::empty()),
        {
            let task_id = keys[k];
            assert(keys@.to_set().contains(task_id));
            let n = match self.dependencies.get(&task_id) {
                Some(deps) => deps.len(),
                None => 0,
            };
            proof {
                lemma_pending_none_done(self.graph()[task_id]);
                assert(keys@.take(k + 1) =~= keys@.take(k as int).push(task_id));
                keys@.take(k as int).lemma_push_to_set_commute(task_id);
            }
            in_degree.insert(task_id, n);
        }
        proof {
            assert(keys@.take(keys@.len() as int) =~= keys@);
            assert(in_degree@.dom() =~= self.graph().dom());
        }
        in_degree
    }

    /// The tasks with no dependency to wait for.
    fn initial_queue(&self, in_degree: &HashMap<TaskUuid, usize>) -> (queue: VecDeque<TaskUuid>)
        requires
            self.valid(),
            in_degree@.dom() == self.graph().dom(),
            forall|t: TaskUuid| #[trigger] self.graph().contains_key(t) ==> in_degree@[t] as nat == pending(self.graph()[t], Set::empty()),
        ensures
            queue@.no_duplicates(),
            forall|i: int| 0 <= i < queue@.len() ==> self.graph().contains_key(#[trigger] queue@[i]),
            forall|t: TaskUuid| self.graph().contains_key(t) ==> (pending(self.graph()[t], Set::empty()) == 0 <==> #[trigger] queue@.contains(t)),
    {
        let keys = keys_of(in_degree);
        let mut queue: VecDeque<TaskUuid> = VecDeque::new();
        for k in 0..keys.len()
            invariant
                self.valid(),
                in_degree@.dom() == self.graph().dom(),
                forall|t: TaskUuid| #[trigger] self.graph().contains_key(t) ==> in_degree@[t] as nat == pending(self.graph()[t], Set::empty()),
                keys@.to_set() == in_degree@.dom(),
                keys@.no_duplicates(),
                queue@.no_duplicates(),
                forall|i: int| 0 <= i < queue@.len() ==> self.graph().contains_key(#[trigger] queue@[i]),
                forall|t: TaskUuid| self.graph().contains_key(t) ==> ((keys@.take(k as int).contains(t) && pending(self.graph()[t], Set::empty()) == 0) <==> #[trigger] queue@.contains(t)),
        {
            let task_id = keys[k];
            assert(keys@.to_set().contains(task_id));
            let degree = *in_degree.get(&task_id).unwrap();
            let ghost q0 = queue@;
            if degree == 0 {
                queue.push_back(task_id);
                proof {
                    assert(!q0.contains(task_id)) by {
                        if q0.contains(task_id) {
                            let pre = keys@.take(k as int);
                            let j = choose|j: int| 0 <= j < pre.len() && pre[j] == task_id;
                            assert(keys@[j] == task_id);
                        }
                    }
                }
            }
            proof {
                let pre = keys@.take(k as int);
                let post = keys@.take(k + 1);
                assert(post =~= pre.push(task_id));
                assert forall|t: TaskUuid| self.graph().contains_key(t) implies ((post.contains(t) && pending(self.graph()[t], Set::empty()) == 0) <==> #[trigger] queue@.contains(t)) by {
                    if post.contains(t) && t != task_id {
                        let j = choose|j: int| 0 <= j < post.len() && post[j] == t;
                        assert(pre[j] == t);
                    }
                    if pre.contains(t) {
                        let j = choose|j: int| 0 <= j < pre.len() && pre[j] == t;
                        assert(post[j] == t);
                    }
                    if t == task_id {
                        assert(post[k as int] == t);
                    }
                    if queue@.contains(t) && t != task_id {
                        let j = choose|j: int| 0 <= j < queue@.len() && queue@[j] == t;
                        assert(q0[j] == t);
                    }
                    if q0.contains(t) {
                        let j = choose|j: int| 0 <= j < q0.len() && q0[j] == t;
                        assert(queue@[j] == t);
                    }
                    if t == task_id && degree == 0 {
                        assert(queue@[queue@.len() - 1] == t);
                    }
                }
            }
        }
        proof {
            assert(keys@.take(keys@.len() as int) =~= keys@);
            assert forall|t: TaskUuid| self.graph().contains_key(t) implies (pending(self.graph()[t], Set::empty()) == 0 <==> #[trigger] queue@.contains(t)) by {
                assert(keys@.to_set().contains(t));
            }
        }
        queue
    }

    /// Marks task `x` as run: each task that depends on it has one dependency fewer to
    /// wait for, and joins the back of the queue when it has none left.
    fn release_dependents(
        &self,
        x: TaskUuid,
        in_degree: &mut HashMap<TaskUuid, usize>,
        queue: &mut VecDeque<TaskUuid>,
        Ghost(done): Ghost<Set<TaskUuid>>,
    ) -> (added: Ghost<Seq<TaskUuid>>)
        requires
            self.well_formed(),
            self.graph().contains_key(x),
            !done.contains(x),
            pending(self.graph()[x], done) == 0,
            old(in_degree)@.dom() == self.graph().dom(),
            forall|t: TaskUuid| #[trigger] self.graph().contains_key(t) ==> old(in_degree)@[t] as nat == pending(self.graph()[t], done),
            forall|t: TaskUuid|
                self.graph().contains_key(t) && #[trigger] done.contains(t) ==> pending(self.graph()[t], done) == 0,
            forall|t: TaskUuid|
                self.graph().contains_key(t) && #[trigger] old(queue)@.contains(t) ==> pending(self.graph()[t], done) == 0,
            !old(queue)@.contains(x),
        ensures
            final(in_degree)@.dom() == self.graph().dom(),
            forall|t: TaskUuid| #[trigger] self.graph().contains_key(t) ==> final(in_degree)@[t] as nat == pending(self.graph()[t], done.insert(x)),
            final(queue)@ == old(queue)@ + added@,
            added@.no_duplicates(),
            forall|t: TaskUuid| #[trigger] added@.contains(t) <==> {
                &&& self.graph().contains_key(t)
                &&& !done.contains(t)
                &&& !old(queue)@.contains(t)
                &&& t != x
                &&& pending(self.graph()[t], done) > 0
                &&& pending(self.graph()[t], done.insert(x)) == 0
            },
    {
        let ghost g = self.graph();
        let ghost q0 = queue@;
        let ghost mut added: Seq<TaskUuid> = Seq::empty();
        let ghost rev = list_at(self.reverse(), x);
        proof {
            assert forall|t: TaskUuid| g.contains_key(t) implies occurrences(#[trigger] g[t], x) <= pending(g[t], done) by {
                lemma_pending_insert(g[t], done, x);
            }
        }
        match self.reverse_dependencies.get(&x) {
            Some(dependents) => {
                assert(dependents@ == rev);
                for j in 0..dependents.len()
                    invariant
                        self.well_formed(),
                        g == self.graph(),
                        dependents@ == rev,
                        rev == list_at(self.reverse(), x),
                        !done.contains(x),
                        g.contains_key(x),
                        pending(g[x], done) == 0,
                        forall|t: TaskUuid|
                            g.contains_key(t) && #[trigger] done.contains(t) ==> pending(g[t], done) == 0,
                        forall|t: TaskUuid|
                            g.contains_key(t) && #[trigger] q0.contains(t) ==> pending(g[t], done) == 0,
                        forall|t: TaskUuid| g.contains_key(t) ==> occurrences(#[trigger] g[t], x) <= pending(g[t], done),
                        in_degree@.dom() == g.dom(),
                        forall|t: TaskUuid| #[trigger] g.contains_key(t) ==> in_degree@[t] as nat + occurrences(rev.take(j as int), t) == pending(g[t], done),
                        queue@ == q0 + added,
                        added.no_duplicates(),
                        forall|t: TaskUuid| #[trigger] added.contains(t) ==> {
                            &&& g.contains_key(t)
                            &&& !done.contains(t)
                            &&& !q0.contains(t)
                            &&& t != x
                            &&& pending(g[t], done) > 0
                            &&& in_degree@[t] == 0
                        },
                        forall|t: TaskUuid| g.contains_key(t) && !done.contains(t) && !q0.contains(t) && t != x && pending(g[t], done) > 0 && in_degree@[t] == 0 ==> #[trigger] added.contains(t),
                {
                    let t = dependents[j];
                    proof {
                        assert(g.contains_key(list_at(self.reverse(), x)[j as int]));
                        lemma_occurrences_take(rev, j as int, t);
                        assert(rev.take(j + 1).contains(t)) by {
                            assert(rev.take(j + 1)[j as int] == t);
                        }
                        lemma_occurrences_present(rev.take(j + 1), t);
                        assert(occurrences(list_at(self.reverse(), x), t) == occurrences(g[t], x));
                        assert(pending(g[t], done) > 0);
                    }
                    let e = *in_degree.get(&t).unwrap();
                    let ghost d0 = in_degree@;
                    let ghost added_old = added;
                    proof {
                        assert(t != x);
                        assert(!done.contains(t));
                        assert(!q0.contains(t));
                        assert(!added_old.contains(t));
                    }
                    in_degree.insert(t, e - 1);
                    if e - 1 == 0 {
                        queue.push_back(t);
                        proof {
                            added = added.push(t);
                            assert(added[added.len() - 1] == t);
                        }
                    }
                    proof {
                        assert forall|u: TaskUuid| #[trigger] g.contains_key(u) implies in_degree@[u] as nat + occurrences(rev.take(j + 1), u) == pending(g[u], done) by {
                            lemma_occurrences_take(rev, j as int, u);
                        }
                        assert forall|u: TaskUuid| #[trigger] added.contains(u) implies {
                            &&& g.contains_key(u)
                            &&& !done.contains(u)
                            &&& !q0.contains(u)
                            &&& u != x
                            &&& pending(g[u], done) > 0
                            &&& in_degree@[u] == 0
                        } by {
                            if u != t {
                                let k = choose|k: int| 0 <= k < added.len() && added[k] == u;
                                assert(added_old[k] == u);
                                assert(added_old.contains(u));
                                assert(g.contains_key(u));
                                assert(!done.contains(u));
                                assert(!q0.contains(u));
                                assert(u != x);
                                assert(pending(g[u], done) > 0);
                                assert(d0[u] == 0);
                                assert(in_degree@[u] == 0);
                            } else if e - 1 != 0 {
                                assert(added == added_old);
                            } else {
                                assert(in_degree@[u] == 0);
                            }
                        }
                        assert forall|u: TaskUuid| g.contains_key(u) && !done.contains(u) && !q0.contains(u) && u != x && pending(g[u], done) > 0 && in_degree@[u] == 0 implies #[trigger] added.contains(u) by {
                            if u != t {
                                assert(added_old.contains(u));
                                let k = choose|k: int| 0 <= k < added_old.len() && added_old[k] == u;
                                assert(added[k] == u);
                            }
                        }
                    }
                }
                proof {
                    assert(rev.take(rev.len() as int) =~= rev);
                }
            },
            None => {
                proof {
                    assert(rev =~= seq![]);
                    assert forall|t: TaskUuid| g.contains_key(t) implies occurrences(#[trigger] g[t], x) == 0 by {
                        assert(occurrences(list_at(self.reverse(), x), t) == occurrences(g[t], x));
                    }
                }
            },
        }
        proof {
            assert forall|t: TaskUuid| #[trigger] g.contains_key(t) implies in_degree@[t] as nat == pending(g[t], done.insert(x)) by {
                lemma_pending_insert(g[t], done, x);
                assert(occurrences(list_at(self.reverse(), x), t) == occurrences(g[t], x));
                assert(rev.take(rev.len() as int) =~= rev);
            }
        }
        Ghost(added)
    }

    /// The tasks in levels: the first level holds the tasks with no dependencies, and each
    /// later level the tasks whose last dependencies ran in the level before. Every task
    /// comes after all its dependencies.
    pub fn get_execution_order(&self) -> (order: Vec<Vec<TaskUuid>>)
        requires
            self.well_formed(),
        ensures
            is_level_order(self.graph(), level_seqs(order@)),
    {
        let ghost g = self.graph();
        let mut in_degree = self.initial_degrees();
        let mut queue = self.initial_queue(&in_degree);
        let mut result: Vec<Vec<TaskUuid>> = Vec::new();
        let ghost mut done: Set<TaskUuid> = Set::empty();
        proof {
            assert(g.dom() =~= self.dependencies@.dom());
            vstd::std_specs::hash::axiom_hashmap_view_finite_dom(self.dependencies);
            assert forall|i: int| 0 <= i < queue@.len() implies g.contains_key(#[trigger] queue@[i]) && !done.contains(queue@[i])
                && pending(g[queue@[i]], done) == 0 by {
                assert(queue@.contains(queue@[i]));
            }
            assert(level_seqs(result@) =~= Seq::<Seq<TaskUuid>>::empty());
        }
        while queue.len() > 0
            invariant
                self.well_formed(),
                g == self.graph(),
                g.dom().finite(),
                in_degree@.dom() == g.dom(),
                forall|t: TaskUuid| #[trigger] g.contains_key(t) ==> in_degree@[t] as nat == pending(g[t], done),
                done.subset_of(g.dom()),
                forall|t: TaskUuid| #[trigger] done.contains(t) <==> in_levels(level_seqs(result@), t, result@.len() as int),
                forall|t: TaskUuid| #[trigger] done.contains(t) ==> pending(g[t], done) == 0,
                ready_queue(g, queue@, done),
                result@.len() > 0 ==> forall|i: int| 0 <= i < queue@.len() ==> depends_on_some(g, #[trigger] queue@[i], level_seqs(result@).last()),
                partial_level_order(g, level_seqs(result@)),
            decreases g.dom().difference(done).len(),
        {
            let ghost level_start = queue@;
            let ghost done0 = done;
            let ghost old_levels = level_seqs(result@);
            let mut level: Vec<TaskUuid> = Vec::new();
            let ghost mut fresh: Seq<TaskUuid> = Seq::empty();
            let count = queue.len();
            proof {
                assert forall|t: TaskUuid| #[trigger] level_start.contains(t) implies g.contains_key(t) && !done0.contains(t) && pending(g[t], done0) == 0 by {
                    let j = choose|j: int| 0 <= j < level_start.len() && level_start[j] == t;
                }
                assert(level_start.take(0).to_set() =~= Set::<TaskUuid>::empty());
                assert(done =~= done0.union(level_start.take(0).to_set()));
                assert(level_start.skip(0) + fresh =~= queue@);
                assert(old_levels.len() == result@.len());
                if old_levels.len() > 0 {
                    assert forall|j: int| 0 <= j < level_start.len() implies depends_on_some(g, #[trigger] level_start[j], old_levels.last()) by {
                        assert(queue@[j] == level_start[j]);
                    }
                }
            }
            for i in 0..count
                invariant
                    self.well_formed(),
                    g == self.graph(),
                    count == level_start.len(),
                    level_start.no_duplicates(),
                    forall|t: TaskUuid| #[trigger] level_start.contains(t) ==> g.contains_key(t) && !done0.contains(t) && pending(g[t], done0) == 0,
                    forall|t: TaskUuid| g.contains_key(t) && !done0.contains(t) && pending(g[t], done0) == 0 ==> #[trigger] level_start.contains(t),
                    forall|t: TaskUuid| #[trigger] done0.contains(t) ==> pending(g[t], done0) == 0,
                    done0.subset_of(g.dom()),
                    level@ == level_start.take(i as int),
                    old_levels == level_seqs(result@),
                    old_levels.len() > 0 ==> forall|j: int| 0 <= j < level_start.len() ==> depends_on_some(g, #[trigger] level_start[j], old_levels.last()),
                    done == done0.union(level_start.take(i as int).to_set()),
                    queue@ == level_start.skip(i as int) + fresh,
                    in_degree@.dom() == g.dom(),
                    forall|t: TaskUuid| #[trigger] g.contains_key(t) ==> in_degree@[t] as nat == pending(g[t], done),
                    fresh.no_duplicates(),
                    forall|t: TaskUuid| #[trigger] fresh.contains(t) ==> g.contains_key(t) && !done0.contains(t) && !level_start.contains(t) && pending(g[t], done) == 0,
                    forall|t: TaskUuid| g.contains_key(t) && !done0.contains(t) && !level_start.contains(t) && pending(g[t], done) == 0 ==> #[trigger] fresh.contains(t),
            {
                let ghost q_before = queue@;
                let ghost ran = level_start.take(i as int);
                let x = queue.pop_front().unwrap();
                assert(x == level_start[i as int]);
                level.push(x);
                proof {
                    assert(level_start.skip(i as int) =~= seq![x] + level_start.skip(i + 1));
                    assert(queue@ =~= level_start.skip(i + 1) + fresh);
                    assert(level_start.contains(x));
                    assert(!done.contains(x)) by {
                        if level_start.take(i as int).to_set().contains(x) {
                            let j = choose|j: int| 0 <= j < ran.len() && ran[j] == x;
                            assert(level_start[j] == level_start[i as int]);
                        }
                    }
                    lemma_pending_grows_done(g[x], done0, done);
                    assert forall|t: TaskUuid| g.contains_key(t) && #[trigger] done.contains(t) implies pending(g[t], done) == 0 by {
                        if done0.contains(t) {
                            lemma_pending_grows_done(g[t], done0, done);
                        } else {
                            let j = choose|j: int| 0 <= j < ran.len() && ran[j] == t;
                            assert(level_start.contains(level_start[j]));
                            lemma_pending_grows_done(g[t], done0, done);
                        }
                    }
                    assert forall|t: TaskUuid| g.contains_key(t) && #[trigger] queue@.contains(t) implies pending(g[t], done) == 0 by {
                        if false {
                            if done0.contains(t) {
                                lemma_pending_grows_done(g[t], done0, done);
                            } else {
                                let j = choose|j: int| 0 <= j < ran.len() && ran[j] == t;
                                assert(level_start.contains(t));
                                lemma_pending_grows_done(g[t], done0, done);
                            }
                        } else {
                            let j = choose|j: int| 0 <= j < queue@.len() && queue@[j] == t;
                            if j < level_start.skip(i + 1).len() {
                                assert(level_start.contains(level_start[i + 1 + j]));
                                lemma_pending_grows_done(g[t], done0, done);
                            } else {
                                assert(fresh.contains(fresh[j - level_start.skip(i + 1).len()]));
                            }
                        }
                    }
                    assert(!queue@.contains(x)) by {
                        if queue@.contains(x) {
                            let j = choose|j: int| 0 <= j < queue@.len() && queue@[j] == x;
                            if j < level_start.skip(i + 1).len() {
                                assert(level_start[i + 1 + j] == level_start[i as int]);
                            } else {
                                assert(fresh.contains(x));
                            }
                        }
                    }
                }
                let ghost done_before = done;
                let ghost q_mid = queue@;
                let added = self.release_dependents(x, &mut in_degree, &mut queue, Ghost(done));
                proof {
                    done = done.insert(x);
                    assert(level_start.take(i + 1) =~= level_start.take(i as int).push(x));
                    level_start.take(i as int).lemma_push_to_set_commute(x);
                    assert(done =~= done0.union(level_start.take(i + 1).to_set()));
                    assert(queue@ =~= level_start.skip(i + 1) + (fresh + added@));
                    let new_fresh = fresh + added@;
                    assert forall|a: int, b: int| 0 <= a < new_fresh.len() && 0 <= b < new_fresh.len() && a != b implies new_fresh[a] != new_fresh[b] by {
                        if a < fresh.len() && b >= fresh.len() {
                            assert(q_mid.contains(new_fresh[a])) by {
                                assert(q_mid[level_start.skip(i + 1).len() + a] == new_fresh[a]);
                            }
                            assert(added@.contains(new_fresh[b]));
                        }
                        if b < fresh.len() && a >= fresh.len() {
                            assert(q_mid.contains(new_fresh[b])) by {
                                assert(q_mid[level_start.skip(i + 1).len() + b] == new_fresh[b]);
                            }
                            assert(added@.contains(new_fresh[a]));
                        }
                    }
                    assert forall|t: TaskUuid| #[trigger] new_fresh.contains(t) implies g.contains_key(t) && !done0.contains(t) && !level_start.contains(t) && pending(g[t], done) == 0 by {
                        if fresh.contains(t) {
                            lemma_pending_insert(g[t], done_before, x);
                        } else {
                            assert(added@.contains(t));
                            assert(!level_start.contains(t)) by {
                                if level_start.contains(t) {
                                    let j = choose|j: int| 0 <= j < level_start.len() && level_start[j] == t;
                                    if j < i {
                                        assert(level_start.take(i as int).to_set().contains(t)) by {
                                            assert(level_start.take(i as int)[j] == t);
                                        }
                                    } else if j > i {
                                        assert(q_mid[j - i - 1] == t);
                                    }
                                }
                            }
                        }
                    }
                    assert forall|t: TaskUuid| g.contains_key(t) && !done0.contains(t) && !level_start.contains(t) && pending(g[t], done) == 0 implies #[trigger] new_fresh.contains(t) by {
                        if pending(g[t], done_before) == 0 {
                            assert(fresh.contains(t));
                            let j = choose|j: int| 0 <= j < fresh.len() && fresh[j] == t;
                            assert(new_fresh[j] == t);
                        } else {
                            assert(!done_before.contains(t)) by {
                                if done_before.contains(t) {
                                    let j = choose|j: int| 0 <= j < ran.len() && ran[j] == t;
                                    assert(level_start[j] == t);
                                }
                            }
                            assert(!q_mid.contains(t)) by {
                                if q_mid.contains(t) {
                                    let j = choose|j: int| 0 <= j < q_mid.len() && q_mid[j] == t;
                                    if j < level_start.skip(i + 1).len() {
                                        assert(level_start[i + 1 + j] == t);
                                    } else {
                                        assert(fresh.contains(t));
                                    }
                                }
                            }
                            assert(t != x);
                            assert(added@.contains(t));
                            let j = choose|j: int| 0 <= j < added@.len() && added@[j] == t;
                            assert(new_fresh[fresh.len() + j] == t);
                        }
                    }
                    fresh = new_fresh;
                }
            }
            proof {
                assert(level_start.take(count as int) =~= level_start);
                assert(level_start.skip(count as int) =~= seq![]);
                assert(queue@ =~= fresh);
            }
            result.push(level);
            proof {
                assert(level_seqs(result@) =~= old_levels.push(level_start));
                assert forall|t: TaskUuid| g.contains_key(t) && !done0.contains(t) && !level_start.contains(t) && pending(g[t], done0.union(level_start.to_set())) == 0 implies #[trigger] fresh.contains(t) by {}
                lemma_next_level(g, old_levels, level_start, done0, fresh);
                assert(done =~= done0.union(level_start.to_set()));
            }
        }
        proof {
            assert forall|t: TaskUuid| g.contains_key(t) && !done.contains(t) implies pending(g[t], done) > 0 by {
                if pending(g[t], done) == 0 {
                    assert(queue@.contains(t));
                }
            }
            lemma_stuck_walk(g, done);
            let levels = level_seqs(result@);
            assert forall|t: TaskUuid| g.contains_key(t) <==> in_levels(levels, t, levels.len() as int) by {
                if g.contains_key(t) {
                    assert(done.contains(t));
                }
                if in_levels(levels, t, levels.len() as int) {
                    let k = choose|k: int| 0 <= k < levels.len() && #[trigger] levels[k].contains(t);
                    let i = choose|i: int| 0 <= i < levels[k].len() && levels[k][i] == t;
                    assert(g.contains_key(levels[k][i]));
                }
            }
            assert(is_level_order(g, levels));
        }
        result
    }

    /// The configuration of a task.
    pub fn get_task(&self, task_id: &TaskUuid) -> (r: Option<&TaskConfig>)
        ensures
            r is Some <==> self.configs().contains_key(*task_id),
            r matches Some(c) ==> c@ == self.configs()[*task_id],
    {
        self.tasks.get(task_id)
    }

    /// The tasks that a task depends on.
    pub fn get_dependencies(&self, task_id: &TaskUuid) -> (r: Option<&Vec<TaskUuid>>)
        ensures
            r is Some <==> self.graph().contains_key(*task_id),
            r matches Some(d) ==> d@ == self.graph()[*task_id],
    {
        self.dependencies.get(task_id)
    }
}

} // verus!
