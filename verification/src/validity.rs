use vstd::prelude::*;

use crate::project::{
    deps_complete, entry_end, entry_for, is_scheduled, lemma_entry_in_solution, lemma_queue_work_nonneg,
    lemma_solution_work_nonneg, lemma_stable_sort_sorted, project_wf, push_start, push_task_result,
    queue_duration, queue_work, solution_entries, solution_work, sorted_by_start, ProjectView, QueueView,
    ResourceId, TaskId, TaskQueueEntry,
};

verus! {

/// Queue `i` has an entry at position `k`.
pub open spec fn in_range(qs: Seq<QueueView>, i: int, k: int) -> bool {
    0 <= i < qs.len() && 0 <= k < qs[i].tasks.len()
}

/// There is one queue per resource, in resource order.
pub open spec fn queues_match_resources(p: ProjectView, qs: Seq<QueueView>) -> bool {
    &&& qs.len() == p.resources.len()
    &&& forall|i: int| 0 <= i < qs.len() ==> (#[trigger] qs[i]).assignee == p.resources[i]
}

/// Every entry is a task of the project, with its length and name, on a resource the task
/// may use.
pub open spec fn entries_match_tasks(p: ProjectView, qs: Seq<QueueView>) -> bool {
    forall|i: int, k: int|
        #![trigger qs[i].tasks[k]]
        in_range(qs, i, k) ==> {
            let e = qs[i].tasks[k];
            &&& 0 <= e.id.0 < p.tasks.len()
            &&& e.days == p.tasks[e.id.0 as int].days
            &&& e.label == p.tasks[e.id.0 as int].name
            &&& p.tasks[e.id.0 as int].resource_options.contains(qs[i].assignee.id)
        }
}

/// No task has two entries.
pub open spec fn ids_distinct(qs: Seq<QueueView>) -> bool {
    forall|i1: int, k1: int, i2: int, k2: int|
        #![trigger qs[i1].tasks[k1], qs[i2].tasks[k2]]
        in_range(qs, i1, k1) && in_range(qs, i2, k2) && qs[i1].tasks[k1].id == qs[i2].tasks[k2].id ==> i1
            == i2 && k1 == k2
}

/// Within a queue, each entry starts no earlier than every earlier entry ends.
pub open spec fn queues_packed(qs: Seq<QueueView>) -> bool {
    forall|i: int, k1: int, k2: int|
        #![trigger qs[i].tasks[k1], qs[i].tasks[k2]]
        in_range(qs, i, k1) && in_range(qs, i, k2) && k1 < k2 ==> entry_end(qs[i].tasks[k1])
            <= qs[i].tasks[k2].start
}

/// Every dependency of a scheduled task is scheduled and ends no later than the task starts.
pub open spec fn deps_respected(p: ProjectView, qs: Seq<QueueView>) -> bool {
    forall|i: int, k: int, j: int|
        #![trigger qs[i].tasks[k], p.tasks[qs[i].tasks[k].id.0 as int].dependencies[j]]
        in_range(qs, i, k) && 0 <= j < p.tasks[qs[i].tasks[k].id.0 as int].dependencies.len() ==> {
            let d = p.tasks[qs[i].tasks[k].id.0 as int].dependencies[j];
            &&& is_scheduled(qs, d)
            &&& forall|i2: int, k2: int|
                #![trigger qs[i2].tasks[k2]]
                in_range(qs, i2, k2) && qs[i2].tasks[k2].id == d ==> entry_end(qs[i2].tasks[k2])
                    <= qs[i].tasks[k].start
        }
}

/// Every entry for a task that a scheduled entry depends on ends no later than that entry
/// starts.
pub open spec fn deps_end_first(p: ProjectView, qs: Seq<QueueView>) -> bool {
    forall|i: int, k: int, j: int, i2: int, k2: int|
        #![trigger qs[i].tasks[k], p.tasks[qs[i].tasks[k].id.0 as int].dependencies[j], qs[i2].tasks[k2]]
        in_range(qs, i, k) && 0 <= j < p.tasks[qs[i].tasks[k].id.0 as int].dependencies.len() && in_range(
            qs,
            i2,
            k2,
        ) && qs[i2].tasks[k2].id == p.tasks[qs[i].tasks[k].id.0 as int].dependencies[j] ==> entry_end(
            qs[i2].tasks[k2],
        ) <= qs[i].tasks[k].start
}

/// Days of work of the scheduled tasks among the first `k`.
pub open spec fn scheduled_days(p: ProjectView, qs: Seq<QueueView>, k: int) -> int
    decreases k,
{
    if k <= 0 {
        0
    } else {
        scheduled_days(p, qs, k - 1) + if is_scheduled(qs, TaskId((k - 1) as usize)) {
            p.tasks[k - 1].days as int
        } else {
            0
        }
    }
}

/// Number of scheduled tasks among the first `k`.
pub open spec fn scheduled_count(p: ProjectView, qs: Seq<QueueView>, k: int) -> int
    decreases k,
{
    if k <= 0 {
        0
    } else {
        scheduled_count(p, qs, k - 1) + if is_scheduled(qs, TaskId((k - 1) as usize)) {
            1int
        } else {
            0
        }
    }
}

/// Days of work of the first `k` tasks.
pub open spec fn total_days(p: ProjectView, k: int) -> int
    decreases k,
{
    if k <= 0 {
        0
    } else {
        total_days(p, k - 1) + p.tasks[k - 1].days
    }
}

/// The total work is the work of the scheduled tasks, there is one entry per scheduled task
/// and no entry ends after the total work.
pub open spec fn work_accounted(p: ProjectView, qs: Seq<QueueView>) -> bool {
    &&& solution_work(qs) == scheduled_days(p, qs, p.tasks.len() as int)
    &&& solution_entries(qs).len() == scheduled_count(p, qs, p.tasks.len() as int)
    &&& forall|i: int, k: int|
        #![trigger qs[i].tasks[k]]
        in_range(qs, i, k) ==> entry_end(qs[i].tasks[k]) <= solution_work(qs)
}

/// A partial schedule of the project that respects every rule the solver keeps.
pub open spec fn valid_solution(p: ProjectView, qs: Seq<QueueView>) -> bool {
    &&& queues_match_resources(p, qs)
    &&& entries_match_tasks(p, qs)
    &&& ids_distinct(qs)
    &&& queues_packed(qs)
    &&& deps_respected(p, qs)
    &&& work_accounted(p, qs)
}

/// A schedule that holds every task of the project.
pub open spec fn complete_solution(p: ProjectView, qs: Seq<QueueView>) -> bool {
    &&& valid_solution(p, qs)
    &&& forall|t: int| 0 <= t < p.tasks.len() ==> is_scheduled(qs, #[trigger] p.tasks[t].id)
}

/// A flat entry of the solution sits in some queue.
pub proof fn lemma_entry_position(qs: Seq<QueueView>, j: int)
    requires
        0 <= j < solution_entries(qs).len(),
    ensures
        exists|i: int, k: int| #[trigger] in_range(qs, i, k) && qs[i].tasks[k] == solution_entries(qs)[j],
    decreases qs.len(),
{
    let prev = solution_entries(qs.drop_last());
    if j < prev.len() {
        lemma_entry_position(qs.drop_last(), j);
        let (i, k) = choose|i: int, k: int|
            #[trigger] in_range(qs.drop_last(), i, k) && qs.drop_last()[i].tasks[k] == prev[j];
        assert(in_range(qs, i, k) && qs[i].tasks[k] == solution_entries(qs)[j]);
    } else {
        let i = qs.len() - 1;
        let k = j - prev.len();
        assert(in_range(qs, i, k) && qs[i].tasks[k] == solution_entries(qs)[j]);
    }
}

/// A task is scheduled exactly when some queue holds an entry for it.
pub proof fn lemma_scheduled_iff(qs: Seq<QueueView>, id: TaskId)
    ensures
        is_scheduled(qs, id) <==> exists|i: int, k: int| #[trigger] in_range(qs, i, k) && qs[i].tasks[k].id == id,
{
    if is_scheduled(qs, id) {
        let j = choose|j: int| 0 <= j < solution_entries(qs).len() && (#[trigger] solution_entries(qs)[j]).id == id;
        lemma_entry_position(qs, j);
    }
    if exists|i: int, k: int| #[trigger] in_range(qs, i, k) && qs[i].tasks[k].id == id {
        let (i, k) = choose|i: int, k: int| #[trigger] in_range(qs, i, k) && qs[i].tasks[k].id == id;
        lemma_entry_in_solution(qs, i, k);
        let j = solution_entries(qs.take(i)).len() + k;
        assert(solution_entries(qs)[j].id == id);
    }
}

/// The latest dependency end is bounded by any bound on the entries' ends.
pub proof fn lemma_deps_complete_le(es: Seq<TaskQueueEntry>, deps: Seq<TaskId>, bound: int)
    requires
        forall|k: int| 0 <= k < es.len() ==> entry_end(#[trigger] es[k]) <= bound,
    ensures
        deps_complete(es, deps) matches Some(m) ==> 0 <= m <= bound,
    decreases es.len(),
{
    if es.len() > 0 {
        assert forall|k: int| 0 <= k < es.drop_last().len() implies entry_end(#[trigger] es.drop_last()[k]) <= bound by {
            assert(es.drop_last()[k] == es[k]);
        }
        lemma_deps_complete_le(es.drop_last(), deps, bound);
        assert(es[es.len() - 1] == es.last());
    }
}

proof fn lemma_solution_work_update(qs: Seq<QueueView>, r: int, q: QueueView)
    requires
        0 <= r < qs.len(),
    ensures
        solution_work(qs.update(r, q)) == solution_work(qs) - queue_work(qs[r].tasks) + queue_work(q.tasks),
        solution_entries(qs.update(r, q)).len() == solution_entries(qs).len() - qs[r].tasks.len() + q.tasks.len(),
    decreases qs.len(),
{
    if r == qs.len() - 1 {
        assert(qs.update(r, q).drop_last() =~= qs.drop_last());
    } else {
        lemma_solution_work_update(qs.drop_last(), r, q);
        assert(qs.update(r, q).drop_last() =~= qs.drop_last().update(r, q));
    }
}

proof fn lemma_scheduled_sums_flip(p: ProjectView, qs: Seq<QueueView>, qs2: Seq<QueueView>, t: int, k: int)
    requires
        0 <= t < p.tasks.len(),
        p.tasks.len() <= usize::MAX,
        0 <= k <= p.tasks.len(),
        !is_scheduled(qs, TaskId(t as usize)),
        forall|x: TaskId| #[trigger] is_scheduled(qs2, x) == (is_scheduled(qs, x) || x == TaskId(t as usize)),
        t <= usize::MAX,
    ensures
        scheduled_days(p, qs2, k) == scheduled_days(p, qs, k) + if t < k {
            p.tasks[t].days as int
        } else {
            0
        },
        scheduled_count(p, qs2, k) == scheduled_count(p, qs, k) + if t < k {
            1int
        } else {
            0
        },
    decreases k,
{
    if k > 0 {
        lemma_scheduled_sums_flip(p, qs, qs2, t, k - 1);
        assert(is_scheduled(qs2, TaskId((k - 1) as usize)) == (is_scheduled(qs, TaskId((k - 1) as usize))
            || TaskId((k - 1) as usize) == TaskId(t as usize)));
        assert((TaskId((k - 1) as usize) == TaskId(t as usize)) == (k - 1 == t));
    }
}

/// The scheduled work never exceeds the work of all tasks.
pub proof fn lemma_scheduled_days_le_total(p: ProjectView, qs: Seq<QueueView>, k: int)
    ensures
        0 <= scheduled_days(p, qs, k) <= total_days(p, k),
        0 <= scheduled_count(p, qs, k) <= if k <= 0 {
            0
        } else {
            k
        },
    decreases k,
{
    if k > 0 {
        lemma_scheduled_days_le_total(p, qs, k - 1);
    }
}

/// When as many tasks are scheduled as there are tasks, all of them are.
pub proof fn lemma_full_count(p: ProjectView, qs: Seq<QueueView>, k: int)
    requires
        0 <= k,
        scheduled_count(p, qs, k) == k,
    ensures
        forall|t: int| 0 <= t < k ==> #[trigger] is_scheduled(qs, TaskId(t as usize)),
    decreases k,
{
    if k > 0 {
        lemma_scheduled_days_le_total(p, qs, k - 1);
        lemma_full_count(p, qs, k - 1);
    }
}

/// Adding an unscheduled task of the project keeps a valid solution valid; the entry lands
/// at the end of its queue.
pub proof fn lemma_push_keeps_valid(p: ProjectView, qs: Seq<QueueView>, r: int, t: int)
    requires
        project_wf(p),
        valid_solution(p, qs),
        0 <= r < p.resources.len(),
        0 <= t < p.tasks.len(),
        !is_scheduled(qs, p.tasks[t].id),
        push_task_result(qs, p.resources[r].id, p.tasks[t]) is Ok,
        total_days(p, p.tasks.len() as int) <= usize::MAX,
    ensures
        ({
            let (qs2, start) = push_task_result(qs, p.resources[r].id, p.tasks[t])->Ok_0;
            &&& valid_solution(p, qs2)
            &&& solution_work(qs2) == solution_work(qs) + p.tasks[t].days
            &&& start == push_start(qs, p.resources[r].id, p.tasks[t])
            &&& qs2 == qs.update(
                r,
                QueueView { assignee: qs[r].assignee, tasks: qs[r].tasks.push(entry_for(start, p.tasks[t])) },
            )
        }),
{
    let rid = p.resources[r].id;
    let task = p.tasks[t];
    let tid = TaskId(t as usize);
    assert(task.id == tid);
    assert(rid == ResourceId(r as usize));
    let q = qs[r];
    let es = solution_entries(qs);
    let w = solution_work(qs);
    // every entry ends no later than the total work
    assert forall|j: int| 0 <= j < es.len() implies entry_end(#[trigger] es[j]) <= w by {
        lemma_entry_position(qs, j);
    }
    lemma_deps_complete_le(es, task.dependencies, w);
    crate::project::lemma_queue_duration_props(q.tasks);
    if q.tasks.len() > 0 {
        let k = choose|k: int| 0 <= k < q.tasks.len() && queue_duration(q.tasks) == entry_end(#[trigger] q.tasks[k]);
        assert(in_range(qs, r, k));
    }
    let start_i = push_start(qs, rid, task);
    assert(0 <= start_i <= w) by {
        lemma_solution_work_nonneg(qs);
    }
    lemma_scheduled_days_le_total(p, qs, p.tasks.len() as int);
    let start = start_i as usize;
    assert(start == start_i);
    let e = entry_for(start, task);
    assert(start_i >= queue_duration(q.tasks));
    // the queue stays ordered, so sorting leaves the new entry last
    assert(sorted_by_start(q.tasks.push(e))) by {
        assert forall|a: int, b: int| 0 <= a <= b < q.tasks.push(e).len() implies q.tasks.push(e)[a].start
            <= q.tasks.push(e)[b].start by {
            if b < q.tasks.len() {
                if a < b {
                    assert(in_range(qs, r, a) && in_range(qs, r, b));
                    assert(entry_end(qs[r].tasks[a]) <= qs[r].tasks[b].start);
                }
            } else if a < q.tasks.len() {
                let last = q.tasks.len() - 1;
                assert(q.tasks.push(e)[b] == e);
                assert(q.tasks.push(e)[a] == q.tasks[a]);
                assert(entry_end(q.tasks[last]) <= e.start);
                if a < last {
                    assert(in_range(qs, r, a) && in_range(qs, r, last));
                    assert(entry_end(qs[r].tasks[a]) <= qs[r].tasks[last].start);
                }
            }
        }
    }
    lemma_stable_sort_sorted(q.tasks.push(e));
    let nq = QueueView { assignee: q.assignee, tasks: q.tasks.push(e) };
    let qs2 = qs.update(r, nq);
    assert(push_task_result(qs, rid, task) == Ok::<(Seq<QueueView>, usize), crate::project::ScheduleError>((qs2, start)));
    lemma_solution_work_update(qs, r, nq);
    assert(queue_work(nq.tasks) == queue_work(q.tasks) + task.days) by {
        assert(nq.tasks.drop_last() =~= q.tasks);
    }
    let w2 = solution_work(qs2);
    assert(w2 == w + task.days);
    // which tasks are scheduled now
    assert(in_range(qs2, r, q.tasks.len() as int));
    assert forall|x: TaskId| #[trigger] is_scheduled(qs2, x) == (is_scheduled(qs, x) || x == tid) by {
        lemma_scheduled_iff(qs, x);
        lemma_scheduled_iff(qs2, x);
        if is_scheduled(qs2, x) {
            let (i, k) = choose|i: int, k: int| #[trigger] in_range(qs2, i, k) && qs2[i].tasks[k].id == x;
            if !(i == r && k == q.tasks.len()) {
                assert(in_range(qs, i, k) && qs[i].tasks[k] == qs2[i].tasks[k]);
            }
        }
        if is_scheduled(qs, x) {
            let (i, k) = choose|i: int, k: int| #[trigger] in_range(qs, i, k) && qs[i].tasks[k].id == x;
            assert(in_range(qs2, i, k) && qs2[i].tasks[k] == qs[i].tasks[k]);
        }
        if x == tid {
            assert(qs2[r].tasks[q.tasks.len() as int].id == x);
        }
    }
    lemma_scheduled_sums_flip(p, qs, qs2, t, p.tasks.len() as int);
    // entries of the new solution: old ones, or the new entry
    assert forall|i: int, k: int| #[trigger] in_range(qs2, i, k) implies (if i == r && k == q.tasks.len() {
        qs2[i].tasks[k] == e
    } else {
        in_range(qs, i, k) && qs2[i].tasks[k] == qs[i].tasks[k]
    }) by {}
    // the new entry's task was not scheduled, so no old entry carries its id
    assert forall|i: int, k: int| #[trigger] in_range(qs, i, k) implies qs[i].tasks[k].id != tid by {
        lemma_scheduled_iff(qs, tid);
    }
    assert(queues_match_resources(p, qs2));
    assert(entries_match_tasks(p, qs2)) by {
        assert forall|i: int, k: int| #[trigger] in_range(qs2, i, k) implies ({
            let en = qs2[i].tasks[k];
            &&& 0 <= en.id.0 < p.tasks.len()
            &&& en.days == p.tasks[en.id.0 as int].days
            &&& en.label == p.tasks[en.id.0 as int].name
            &&& p.tasks[en.id.0 as int].resource_options.contains(qs2[i].assignee.id)
        }) by {
            if !(i == r && k == q.tasks.len()) {
                assert(qs[i].tasks[k] == qs2[i].tasks[k]);
            }
        }
    }
    assert(ids_distinct(qs2)) by {
        assert forall|i1: int, k1: int, i2: int, k2: int|
            in_range(qs2, i1, k1) && in_range(qs2, i2, k2) && #[trigger] qs2[i1].tasks[k1].id
                == #[trigger] qs2[i2].tasks[k2].id implies i1 == i2 && k1 == k2 by {
            if !(i1 == r && k1 == q.tasks.len()) {
                assert(qs[i1].tasks[k1] == qs2[i1].tasks[k1]);
            }
            if !(i2 == r && k2 == q.tasks.len()) {
                assert(qs[i2].tasks[k2] == qs2[i2].tasks[k2]);
            }
        }
    }
    // the dependency rules carry over from the law on pushes
    assert(deps_end_first(p, qs)) by {
        lemma_deps_respected_end_first(p, qs);
    }
    lemma_unscheduled_has_no_dependents(p, qs, tid);
    lemma_push_keeps_schedule_rules(p, qs, rid, t);
    // the work of the new entry is accounted for
    assert(work_accounted(p, qs2)) by {
        assert forall|i: int, k: int| #[trigger] in_range(qs2, i, k) implies entry_end(qs2[i].tasks[k]) <= w2 by {
            if !(i == r && k == q.tasks.len()) {
                assert(in_range(qs, i, k) && qs[i].tasks[k] == qs2[i].tasks[k]);
            }
        }
    }
}


/// A schedule whose dependencies are all scheduled and ended in time has every entry a
/// scheduled entry depends on ended in time.
pub proof fn lemma_deps_respected_end_first(p: ProjectView, qs: Seq<QueueView>)
    requires
        deps_respected(p, qs),
    ensures
        deps_end_first(p, qs),
{
}

/// Nothing is scheduled in queues that hold no entries.
proof fn lemma_nothing_scheduled(p: ProjectView, qs: Seq<QueueView>, k: int)
    requires
        solution_entries(qs).len() == 0,
    ensures
        scheduled_days(p, qs, k) == 0,
        scheduled_count(p, qs, k) == 0,
    decreases k,
{
    if k > 0 {
        lemma_nothing_scheduled(p, qs, k - 1);
    }
}

/// Queues that hold no entries hold no work.
proof fn lemma_empty_queues(qs: Seq<QueueView>)
    requires
        forall|i: int| 0 <= i < qs.len() ==> (#[trigger] qs[i]).tasks.len() == 0,
    ensures
        solution_entries(qs).len() == 0,
        solution_work(qs) == 0,
    decreases qs.len(),
{
    if qs.len() > 0 {
        assert forall|i: int| 0 <= i < qs.drop_last().len() implies (#[trigger] qs.drop_last()[i]).tasks.len() == 0 by {
            assert(qs.drop_last()[i] == qs[i]);
        }
        lemma_empty_queues(qs.drop_last());
        assert(qs.last().tasks.len() == 0);
    }
}

/// One empty queue per resource is a valid solution.
pub proof fn lemma_empty_solution_valid(p: ProjectView, qs: Seq<QueueView>)
    requires
        qs == p.resources.map_values(|a: crate::project::Resource| QueueView { assignee: a, tasks: Seq::empty() }),
    ensures
        valid_solution(p, qs),
{
    assert forall|i: int| 0 <= i < qs.len() implies (#[trigger] qs[i]).tasks.len() == 0 by {}
    lemma_empty_queues(qs);
    lemma_nothing_scheduled(p, qs, p.tasks.len() as int);
}

/// A valid solution with one entry per task holds every task.
pub proof fn lemma_valid_full(p: ProjectView, qs: Seq<QueueView>)
    requires
        project_wf(p),
        valid_solution(p, qs),
        solution_entries(qs).len() == p.tasks.len(),
    ensures
        complete_solution(p, qs),
{
    lemma_full_count(p, qs, p.tasks.len() as int);
    assert forall|t: int| 0 <= t < p.tasks.len() implies is_scheduled(qs, #[trigger] p.tasks[t].id) by {
        assert(p.tasks[t].id == TaskId(t as usize));
    }
}

/// Days of work of the tasks not scheduled yet.
pub open spec fn unscheduled_days(p: ProjectView, qs: Seq<QueueView>) -> int {
    total_days(p, p.tasks.len() as int) - scheduled_days(p, qs, p.tasks.len() as int)
}

/// A solution with one queue per resource, whose work and every entry's end stay within a
/// `usize` even after the remaining tasks are added.
pub open spec fn search_room(p: ProjectView, qs: Seq<QueueView>) -> bool {
    &&& qs.len() == p.resources.len()
    &&& solution_work(qs) + unscheduled_days(p, qs) <= usize::MAX
    &&& forall|i: int, k: int|
        #![trigger qs[i].tasks[k]]
        in_range(qs, i, k) ==> entry_end(qs[i].tasks[k]) + unscheduled_days(p, qs) <= usize::MAX
}

/// With room for the search, the work, the queues' durations and every entry's end fit in a
/// `usize`, and for a valid solution so does the work of all tasks.
pub proof fn lemma_room_bounds(p: ProjectView, qs: Seq<QueueView>)
    requires
        search_room(p, qs),
    ensures
        qs.len() == p.resources.len(),
        0 <= unscheduled_days(p, qs),
        0 <= solution_work(qs) <= usize::MAX,
        forall|i: int| 0 <= i < qs.len() ==> queue_duration(#[trigger] qs[i].tasks) <= usize::MAX,
        crate::project::ends_fit(solution_entries(qs)),
        valid_solution(p, qs) ==> total_days(p, p.tasks.len() as int) <= usize::MAX,
{
    lemma_scheduled_days_le_total(p, qs, p.tasks.len() as int);
    lemma_solution_work_nonneg(qs);
    assert forall|i: int| 0 <= i < qs.len() implies queue_duration(#[trigger] qs[i].tasks) <= usize::MAX by {
        crate::project::lemma_queue_duration_props(qs[i].tasks);
        if qs[i].tasks.len() > 0 {
            let k = choose|k: int| 0 <= k < qs[i].tasks.len() && queue_duration(qs[i].tasks) == entry_end(
                #[trigger] qs[i].tasks[k],
            );
            assert(in_range(qs, i, k));
        }
    }
    let es = solution_entries(qs);
    assert forall|j: int| 0 <= j < es.len() implies entry_end(#[trigger] es[j]) <= usize::MAX by {
        lemma_entry_position(qs, j);
    }
}

/// A valid solution of a project whose work fits in a `usize` leaves room for the search.
pub proof fn lemma_valid_room(p: ProjectView, qs: Seq<QueueView>)
    requires
        valid_solution(p, qs),
        total_days(p, p.tasks.len() as int) <= usize::MAX,
    ensures
        search_room(p, qs),
{
    lemma_scheduled_days_le_total(p, qs, p.tasks.len() as int);
}

/// Adding an unscheduled task of the project keeps room for the search.
#[verifier::spinoff_prover]
#[verifier::rlimit(30)]
pub proof fn lemma_push_keeps_room(p: ProjectView, qs: Seq<QueueView>, r: int, t: int)
    requires
        project_wf(p),
        search_room(p, qs),
        0 <= r < p.resources.len(),
        0 <= t < p.tasks.len(),
        !is_scheduled(qs, p.tasks[t].id),
        push_task_result(qs, p.resources[r].id, p.tasks[t]) is Ok,
    ensures
        search_room(p, push_task_result(qs, p.resources[r].id, p.tasks[t])->Ok_0.0),
{
    let rid = p.resources[r].id;
    let task = p.tasks[t];
    let tid = TaskId(t as usize);
    assert(task.id == tid);
    assert(rid == ResourceId(r as usize));
    let q = qs[r];
    let es = solution_entries(qs);
    let u = unscheduled_days(p, qs);
    lemma_room_bounds(p, qs);
    crate::project::lemma_push_task_places(qs, rid, task);
    let (qs2, start) = push_task_result(qs, rid, task)->Ok_0;
    let e = entry_for(start, task);
    let sorted = crate::project::stable_sort_by_start(q.tasks.push(e));
    assert(qs2 == qs.update(r, QueueView { assignee: q.assignee, tasks: sorted }));
    crate::project::lemma_stable_sort_orders(q.tasks.push(e));
    assert(q.tasks.push(e).to_multiset() =~= q.tasks.to_multiset().insert(e));
    // the work grows by the task's days
    crate::project::lemma_stable_sort_work(q.tasks.push(e));
    assert(q.tasks.push(e).drop_last() =~= q.tasks);
    lemma_solution_work_update(qs, r, QueueView { assignee: q.assignee, tasks: sorted });
    // the new entry starts where an entry ends, or on day 0
    assert forall|j: int| 0 <= j < es.len() implies entry_end(#[trigger] es[j]) <= usize::MAX - u by {
        lemma_entry_position(qs, j);
    }
    lemma_deps_complete_le(es, task.dependencies, usize::MAX - u);
    crate::project::lemma_queue_duration_props(q.tasks);
    if q.tasks.len() > 0 {
        let k = choose|k: int| 0 <= k < q.tasks.len() && queue_duration(q.tasks) == entry_end(#[trigger] q.tasks[k]);
        assert(in_range(qs, r, k));
    }
    assert(start + u <= usize::MAX);
    // the scheduled tasks are the old ones and the new one
    assert forall|x: TaskId| #[trigger] is_scheduled(qs2, x) == (is_scheduled(qs, x) || x == tid) by {
        broadcast use vstd::seq_lib::group_to_multiset_ensures;
        lemma_scheduled_iff(qs, x);
        lemma_scheduled_iff(qs2, x);
        if is_scheduled(qs2, x) {
            let (i, k) = choose|i: int, k: int| #[trigger] in_range(qs2, i, k) && qs2[i].tasks[k].id == x;
            if i != r {
                assert(in_range(qs, i, k) && qs[i].tasks[k] == qs2[i].tasks[k]);
            } else if sorted[k] != e {
                assert(sorted.to_multiset().count(sorted[k]) > 0);
                assert(q.tasks.push(e).to_multiset().count(sorted[k]) > 0);
                assert(q.tasks.to_multiset().count(sorted[k]) > 0);
                assert(q.tasks.contains(sorted[k]));
                let j = choose|j: int| 0 <= j < q.tasks.len() && q.tasks[j] == sorted[k];
                assert(in_range(qs, r, j));
            }
        }
        if is_scheduled(qs, x) {
            let (i, k) = choose|i: int, k: int| #[trigger] in_range(qs, i, k) && qs[i].tasks[k].id == x;
            if i != r {
                assert(in_range(qs2, i, k) && qs2[i].tasks[k] == qs[i].tasks[k]);
            } else {
                assert(q.tasks.to_multiset().count(q.tasks[k]) > 0);
                assert(sorted.to_multiset().count(q.tasks[k]) > 0);
                assert(sorted.contains(q.tasks[k]));
                let k2 = choose|k2: int| 0 <= k2 < sorted.len() && sorted[k2] == q.tasks[k];
                assert(in_range(qs2, r, k2));
            }
        }
        if x == tid {
            assert(sorted.to_multiset().count(e) > 0);
            assert(sorted.contains(e));
            let k2 = choose|k2: int| 0 <= k2 < sorted.len() && sorted[k2] == e;
            assert(in_range(qs2, r, k2));
        }
    }
    lemma_scheduled_sums_flip(p, qs, qs2, t, p.tasks.len() as int);
    let u2 = unscheduled_days(p, qs2);
    assert(u2 == u - task.days);
    assert(solution_work(qs2) == solution_work(qs) + task.days);
    assert forall|i: int, k: int| #[trigger] in_range(qs2, i, k) implies entry_end(qs2[i].tasks[k]) + u2 <= usize::MAX by {
        broadcast use vstd::seq_lib::group_to_multiset_ensures;
        if i != r {
            assert(in_range(qs, i, k) && qs[i].tasks[k] == qs2[i].tasks[k]);
        } else if sorted[k] != e {
            assert(sorted.to_multiset().count(sorted[k]) > 0);
            assert(q.tasks.push(e).to_multiset().count(sorted[k]) > 0);
            assert(q.tasks.to_multiset().count(sorted[k]) > 0);
            assert(q.tasks.contains(sorted[k]));
            let j = choose|j: int| 0 <= j < q.tasks.len() && q.tasks[j] == sorted[k];
            assert(in_range(qs, r, j));
        }
    }
}

/// Every entry is for a task of the project.
pub open spec fn entries_in_project(p: ProjectView, qs: Seq<QueueView>) -> bool {
    forall|i: int, k: int| #![trigger qs[i].tasks[k]] in_range(qs, i, k) ==> 0 <= qs[i].tasks[k].id.0 < p.tasks.len()
}

/// No scheduled entry depends on the task `id`.
pub open spec fn no_entry_depends_on(p: ProjectView, qs: Seq<QueueView>, id: TaskId) -> bool {
    forall|i: int, k: int|
        #![trigger qs[i].tasks[k]]
        in_range(qs, i, k) ==> !p.tasks[qs[i].tasks[k].id.0 as int].dependencies.contains(id)
}

/// Where every dependency of an entry is scheduled, no entry depends on a task that is not
/// scheduled.
pub proof fn lemma_unscheduled_has_no_dependents(p: ProjectView, qs: Seq<QueueView>, id: TaskId)
    requires
        deps_respected(p, qs),
        !is_scheduled(qs, id),
    ensures
        no_entry_depends_on(p, qs, id),
{
    assert forall|i: int, k: int| #[trigger] in_range(qs, i, k) implies !p.tasks[qs[i].tasks[k].id.0 as int].dependencies.contains(
        id,
    ) by {
        let deps = p.tasks[qs[i].tasks[k].id.0 as int].dependencies;
        if deps.contains(id) {
            let j = choose|j: int| 0 <= j < deps.len() && deps[j] == id;
            assert(is_scheduled(qs, deps[j]));
        }
    }
}

/// Pushing a task of the project on which no scheduled entry depends (a task not scheduled
/// yet among them) keeps the schedule's rules: no overlap within a queue, and every entry
/// that an entry depends on ended by its start; where every dependency of an entry was
/// scheduled, it still is.
pub proof fn lemma_push_keeps_schedule_rules(p: ProjectView, qs: Seq<QueueView>, rid: ResourceId, t: int)
    requires
        project_wf(p),
        entries_in_project(p, qs),
        queues_packed(qs),
        deps_end_first(p, qs),
        rid.0 < qs.len(),
        crate::project::ends_fit(solution_entries(qs)),
        0 <= t < p.tasks.len(),
        no_entry_depends_on(p, qs, p.tasks[t].id),
        push_task_result(qs, rid, p.tasks[t]) is Ok,
    ensures
        ({
            let (qs2, start) = push_task_result(qs, rid, p.tasks[t])->Ok_0;
            &&& entries_in_project(p, qs2)
            &&& queues_packed(qs2)
            &&& deps_end_first(p, qs2)
            &&& deps_respected(p, qs) ==> deps_respected(p, qs2)
            &&& qs2 == qs.update(
                rid.0 as int,
                QueueView {
                    assignee: qs[rid.0 as int].assignee,
                    tasks: qs[rid.0 as int].tasks.push(entry_for(start, p.tasks[t])),
                },
            )
        }),
{
    let r = rid.0 as int;
    let task = p.tasks[t];
    let tid = TaskId(t as usize);
    assert(task.id == tid);
    let q = qs[r];
    let es = solution_entries(qs);
    crate::project::lemma_push_task_places(qs, rid, task);
    let start = push_task_result(qs, rid, task)->Ok_0.1;
    let e = entry_for(start, task);
    crate::project::lemma_queue_duration_props(q.tasks);
    assert(sorted_by_start(q.tasks.push(e))) by {
        assert forall|a: int, b: int| 0 <= a <= b < q.tasks.push(e).len() implies q.tasks.push(e)[a].start
            <= q.tasks.push(e)[b].start by {
            if b < q.tasks.len() {
                if a < b {
                    assert(in_range(qs, r, a) && in_range(qs, r, b));
                    assert(entry_end(qs[r].tasks[a]) <= qs[r].tasks[b].start);
                }
            } else if a < q.tasks.len() {
                assert(q.tasks.push(e)[b] == e);
                assert(q.tasks.push(e)[a] == q.tasks[a]);
                assert(entry_end(q.tasks[a]) <= e.start);
            }
        }
    }
    lemma_stable_sort_sorted(q.tasks.push(e));
    let nq = QueueView { assignee: q.assignee, tasks: q.tasks.push(e) };
    let qs2 = qs.update(r, nq);
    assert(push_task_result(qs, rid, task)->Ok_0.0 == qs2);
    assert forall|i: int, k: int| #[trigger] in_range(qs2, i, k) implies (if i == r && k == q.tasks.len() {
        qs2[i].tasks[k] == e
    } else {
        in_range(qs, i, k) && qs2[i].tasks[k] == qs[i].tasks[k]
    }) by {}
    assert(entries_in_project(p, qs2)) by {
        assert forall|i: int, k: int| #[trigger] in_range(qs2, i, k) implies 0 <= qs2[i].tasks[k].id.0 < p.tasks.len() by {
            if !(i == r && k == q.tasks.len()) {
                assert(qs[i].tasks[k] == qs2[i].tasks[k]);
            }
        }
    }
    assert(queues_packed(qs2)) by {
        assert forall|i: int, k1: int, k2: int|
            in_range(qs2, i, k1) && in_range(qs2, i, k2) && k1 < k2 implies entry_end(
            #[trigger] qs2[i].tasks[k1],
        ) <= (#[trigger] qs2[i].tasks[k2]).start by {
            if i == r && k2 == q.tasks.len() {
                assert(in_range(qs, r, k1));
                assert(entry_end(q.tasks[k1]) <= queue_duration(q.tasks));
            } else {
                assert(qs[i].tasks[k1] == qs2[i].tasks[k1]);
                assert(qs[i].tasks[k2] == qs2[i].tasks[k2]);
            }
        }
    }
    assert forall|i: int, k: int, j: int, i2: int, k2: int|
        #![trigger qs2[i].tasks[k], p.tasks[qs2[i].tasks[k].id.0 as int].dependencies[j], qs2[i2].tasks[k2]]
        in_range(qs2, i, k) && 0 <= j < p.tasks[qs2[i].tasks[k].id.0 as int].dependencies.len() && in_range(
            qs2,
            i2,
            k2,
        ) && qs2[i2].tasks[k2].id == p.tasks[qs2[i].tasks[k].id.0 as int].dependencies[j] implies entry_end(
        qs2[i2].tasks[k2],
    ) <= qs2[i].tasks[k].start by {
        let d = p.tasks[qs2[i].tasks[k].id.0 as int].dependencies[j];
        if i == r && k == q.tasks.len() {
            assert(is_scheduled(qs, task.dependencies[j]));
            if d == tid {
                lemma_scheduled_iff(qs, tid);
                let (i4, k4) = choose|i4: int, k4: int| #[trigger] in_range(qs, i4, k4) && qs[i4].tasks[k4].id == tid;
                assert(task.dependencies[j] == tid);
                assert(p.tasks[qs[i4].tasks[k4].id.0 as int].dependencies.contains(tid));
            }
            assert(d != tid);
            assert(!(i2 == r && k2 == q.tasks.len()));
            assert(qs[i2].tasks[k2] == qs2[i2].tasks[k2]);
            lemma_entry_in_solution(qs, i2, k2);
            let jj = solution_entries(qs.take(i2)).len() + k2;
            assert(task.dependencies.contains(es[jj].id));
        } else {
            assert(qs[i].tasks[k] == qs2[i].tasks[k]);
            assert(in_range(qs, i, k));
            assert(p.tasks[qs[i].tasks[k].id.0 as int].dependencies[j] == d);
            assert(d != tid);
            assert(!(i2 == r && k2 == q.tasks.len()));
            assert(qs[i2].tasks[k2] == qs2[i2].tasks[k2]);
            assert(in_range(qs, i2, k2));
        }
    }
    if deps_respected(p, qs) {
        assert forall|i: int, k: int, j: int|
            #![trigger qs2[i].tasks[k], p.tasks[qs2[i].tasks[k].id.0 as int].dependencies[j]]
            in_range(qs2, i, k) && 0 <= j < p.tasks[qs2[i].tasks[k].id.0 as int].dependencies.len() implies is_scheduled(
            qs2,
            p.tasks[qs2[i].tasks[k].id.0 as int].dependencies[j],
        ) by {
            let d = p.tasks[qs2[i].tasks[k].id.0 as int].dependencies[j];
            if i == r && k == q.tasks.len() {
                assert(is_scheduled(qs, task.dependencies[j]));
            } else {
                assert(qs[i].tasks[k] == qs2[i].tasks[k]);
                assert(in_range(qs, i, k));
                assert(is_scheduled(qs, d));
            }
            lemma_scheduled_iff(qs, d);
            let (i3, k3) = choose|i3: int, k3: int| #[trigger] in_range(qs, i3, k3) && qs[i3].tasks[k3].id == d;
            assert(in_range(qs2, i3, k3) && qs2[i3].tasks[k3] == qs[i3].tasks[k3]);
            lemma_scheduled_iff(qs2, d);
        }
        assert(deps_respected(p, qs2));
    }
}

} // verus!
