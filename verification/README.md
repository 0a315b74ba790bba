# workflow_core

A workflow engine for chains of computational jobs (CASTEP, LAMMPS, or any
command): tasks with dependencies form a graph, run in dependency order with
a parallelism limit, and their statuses are kept in a state file from which
a run can be resumed or selectively retried.

`src/` is the verified library. Each module states its behaviour in
`requires`/`ensures` contracts over mathematical models (sequences, maps,
sets of task ids), and Verus proves the code against them:

- `dag` — the dependency graph (on petgraph); edges that would close a cycle
  are refused, so the graph stays acyclic; topological order and ready sets.
- `state` — task statuses, the state store, counts, resume reset.
- `workflow` — building a workflow, its graph, skip propagation after
  failures, and the decisions of a run (what starts, how a finish is
  recorded, the summary).
- `run` — a workflow run as a state machine: each step takes what happened
  (a round, a process check, a wait, a setup, a spawn) and returns what to
  do next; tasks start only after their dependencies, never more at once
  than the parallelism limit, and an interrupt sends running tasks back to
  pending.
- `cli` — the status listing, task inspection, and which tasks a retry resets.
- `queued`, `executor` — batch-scheduler commands and how their output is read.
- `castep`, `schema` — preparing CASTEP tasks from configured ones.
- `pipeline`, `scheduler`, `cycle` — configured tasks as a graph, and the
  decisions of the job scheduler that drives them (promotion, per-executor
  parallelism, poll answers, wall-time limits, skipping after failures),
  with its cycle as a state machine like the run's.
- `monitoring`, `task`, `process`, `command` — hooks, tasks, process results
  and command building.
- `text` — the string handling the rest relies on, each function proved
  against the behaviour of the corresponding `str` operation.

`app/` holds what touches the outside world: the `workflow-cli` program, the
JSON state file, the loops that carry out the actions of the two state
machines (starting, polling and stopping processes and jobs), and the
asynchronous executors. Every decision it acts on comes from the library.
