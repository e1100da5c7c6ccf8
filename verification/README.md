# Night

Night runs the tasks of a mission in dependency order: a task starts once every task it
depends on has completed, and tells the tasks that depend on it when it completes. A
second, queue-based layer schedules prioritised tasks with retries, and a distributed
layer spreads tasks over nodes with a consistent-hash ring.

The library in `src/` is verified with Verus:

- `common`, `config`: the configuration types and their validation.
- `mission`: the dependency topology (cycle detection, level order) and the mission state.
- `task`: the state and decisions of a running task, and the messages tasks exchange;
  the queued task type of the second layer.
- `queue`, `scheduler`, `executor`, `persistence`: the prioritised queue, the scheduler
  that hands out ready tasks, the retry decisions, and where state is saved.
- `distributed`: nodes, their messages, and the system that tracks them.
- `utils`: consistent hashing, duration parsing, identifiers and errors.

The program in `app/` does the rest: it reads the configuration file, opens the
listeners, sends the messages, sleeps between attempts, and writes the log.
