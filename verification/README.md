# omnischedule

Schedules the tasks of a project onto its resources. A project description
(resource kinds with counts, named task sizes and tasks with resource
selections and dependencies) becomes a `Project`; a minimax search then adds
one task per round to a `Solution`, a queue of dated entries per resource.

The library under `src/` is verified with Verus:

* `project` — resources, tasks, task queues and solutions, with the rules for
  adding a task to a solution (`Solution::push_task`).
* `config` — the project description and its conversion into a `Project`.
* `solver` — exact scores and the minimax search.
* `validity` — what makes a schedule valid, and the proof that every push the
  search makes keeps it valid.
* `calendar` — day numbers and their calendar dates.
* `timeline` — the blocks of a queue drawn on a line of text.
* `cli` — the command line options.

`app/` is the command line program: argument and TOML parsing, the columns of
each timeline block (computed in floating point), printing and CSV output.
