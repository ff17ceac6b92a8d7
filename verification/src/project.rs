use vstd::prelude::*;

verus! {

/// Position of a resource in the project's resource list.
#[derive(Debug, Copy, Clone, PartialEq, Eq, Structural, PartialOrd, Ord, Hash)]
pub struct ResourceId(pub usize);

/// Position of a task in the project's task list.
#[derive(Debug, Copy, Clone, PartialEq, Eq, Structural, PartialOrd, Ord, Hash)]
pub struct TaskId(pub usize);

/// A single worker that tasks can be assigned to.
#[derive(Debug, Eq)]
pub struct Resource {
    pub id: ResourceId,
    pub name: String,
}

impl Clone for Resource {
    fn clone(&self) -> (r: Self)
        ensures
            r == *self,
    {
        Resource { id: self.id, name: self.name.clone() }
    }
}

impl PartialEq for Resource {
    fn eq(&self, other: &Self) -> (r: bool) {
        self.id == other.id
    }
}

impl vstd::std_specs::cmp::PartialEqSpecImpl for Resource {
    open spec fn obeys_eq_spec() -> bool {
        true
    }

    open spec fn eq_spec(&self, other: &Self) -> bool {
        self.id == other.id
    }
}

/// One scheduled piece of work in a resource's queue.
#[derive(Debug)]
pub struct TaskQueueEntry {
    pub start: usize,
    pub days: usize,
    pub id: TaskId,
    pub label: String,
}

impl Clone for TaskQueueEntry {
    fn clone(&self) -> (r: Self)
        ensures
            r == *self,
    {
        TaskQueueEntry { start: self.start, days: self.days, id: self.id, label: self.label.clone() }
    }
}

/// The day after the last day of work of an entry.
pub open spec fn entry_end(e: TaskQueueEntry) -> int {
    e.start + e.days
}

impl TaskQueueEntry {
    pub fn end(&self) -> (r: usize)
        requires
            self.start + self.days <= usize::MAX,
        ensures
            r == entry_end(*self),
    {
        self.start + self.days
    }
}

/// The completion day of a queue: the latest end of its entries, or 0 when it is empty.
pub open spec fn queue_duration(tasks: Seq<TaskQueueEntry>) -> int
    decreases tasks.len(),
{
    if tasks.len() == 0 {
        0
    } else {
        let rest = queue_duration(tasks.drop_last());
        let last = entry_end(tasks.last());
        if rest >= last {
            rest
        } else {
            last
        }
    }
}

/// The completion day of a queue is at least every entry's end, and is 0 or one of them.
pub proof fn lemma_queue_duration_props(tasks: Seq<TaskQueueEntry>)
    ensures
        queue_duration(tasks) >= 0,
        forall|k: int| 0 <= k < tasks.len() ==> entry_end(#[trigger] tasks[k]) <= queue_duration(tasks),
        tasks.len() == 0 ==> queue_duration(tasks) == 0,
        tasks.len() > 0 ==> exists|k: int| 0 <= k < tasks.len() && queue_duration(tasks) == entry_end(#[trigger] tasks[k]),
    decreases tasks.len(),
{
    if tasks.len() > 0 {
        let rest = tasks.drop_last();
        lemma_queue_duration_props(rest);
        assert forall|k: int| 0 <= k < tasks.len() implies entry_end(#[trigger] tasks[k]) <= queue_duration(tasks) by {
            if k < rest.len() {
                assert(rest[k] == tasks[k]);
            }
        }
        if queue_duration(tasks) == entry_end(tasks.last()) {
            assert(tasks[tasks.len() - 1] == tasks.last());
        } else {
            let k = choose|k: int| 0 <= k < rest.len() && queue_duration(rest) == entry_end(#[trigger] rest[k]);
            assert(rest[k] == tasks[k]);
        }
    }
}

/// The total number of days of work in a sequence of entries.
pub open spec fn queue_work(tasks: Seq<TaskQueueEntry>) -> int
    decreases tasks.len(),
{
    if tasks.len() == 0 {
        0
    } else {
        queue_work(tasks.drop_last()) + tasks.last().days
    }
}

/// Inserts `e` after every trailing entry that starts no later than it (one step of a
/// stable insertion sort by start day).
pub open spec fn sorted_insert(s: Seq<TaskQueueEntry>, e: TaskQueueEntry) -> Seq<TaskQueueEntry>
    decreases s.len(),
{
    if s.len() == 0 {
        seq![e]
    } else if s.last().start <= e.start {
        s.push(e)
    } else {
        sorted_insert(s.drop_last(), e).push(s.last())
    }
}

/// The entries ordered by start day, entries with equal start days keeping their order.
pub open spec fn stable_sort_by_start(s: Seq<TaskQueueEntry>) -> Seq<TaskQueueEntry>
    decreases s.len(),
{
    if s.len() == 0 {
        s
    } else {
        sorted_insert(stable_sort_by_start(s.drop_last()), s.last())
    }
}

/// Entries ordered by start day.
pub open spec fn sorted_by_start(s: Seq<TaskQueueEntry>) -> bool {
    forall|i: int, j: int| 0 <= i <= j < s.len() ==> s[i].start <= s[j].start
}

/// The entry that a task becomes when it starts on `start`.
pub open spec fn entry_for(start: usize, task: TaskView) -> TaskQueueEntry {
    TaskQueueEntry { start: start, days: task.days, id: task.id, label: task.name }
}

pub proof fn lemma_queue_work_take_le(s: Seq<TaskQueueEntry>, k: int)
    requires
        0 <= k <= s.len(),
    ensures
        queue_work(s.take(k)) <= queue_work(s),
        queue_work(s.take(k)) >= 0,
    decreases s.len() - k,
{
    if k < s.len() {
        lemma_queue_work_take_le(s, k + 1);
        assert(s.take(k + 1).drop_last() =~= s.take(k));
        lemma_queue_work_nonneg(s.take(k));
    } else {
        assert(s.take(k) =~= s);
        lemma_queue_work_nonneg(s);
    }
}

pub proof fn lemma_queue_work_nonneg(s: Seq<TaskQueueEntry>)
    ensures
        queue_work(s) >= 0,
    decreases s.len(),
{
    if s.len() > 0 {
        lemma_queue_work_nonneg(s.drop_last());
    }
}

/// Inserting into a sequence splits it at the first position after which every entry
/// starts later than the inserted one.
proof fn lemma_sorted_insert_at(s: Seq<TaskQueueEntry>, e: TaskQueueEntry, j: int)
    requires
        0 <= j <= s.len(),
        j == 0 || s[j - 1].start <= e.start,
        forall|k: int| j <= k < s.len() ==> s[k].start > e.start,
    ensures
        sorted_insert(s, e) =~= s.take(j) + seq![e] + s.skip(j),
    decreases s.len(),
{
    if s.len() == 0 {
    } else if s.last().start <= e.start {
        assert(j == s.len());
    } else {
        lemma_sorted_insert_at(s.drop_last(), e, j);
    }
}

/// A sequence already ordered by start day is left as it is.
pub proof fn lemma_stable_sort_sorted(s: Seq<TaskQueueEntry>)
    requires
        sorted_by_start(s),
    ensures
        stable_sort_by_start(s) == s,
    decreases s.len(),
{
    if s.len() > 0 {
        lemma_stable_sort_sorted(s.drop_last());
        assert(s.drop_last().push(s.last()) =~= s);
    }
}

/// Stable insertion sort of entries by start day.
fn sort_entries_by_start(v: &mut Vec<TaskQueueEntry>)
    ensures
        final(v)@ == stable_sort_by_start(old(v)@),
{
    let ghost orig = v@;
    let n: usize = v.len();
    let mut i: usize = 0;
    while i < n
        invariant
            i <= n,
            n == orig.len(),
            v@.len() == n,
            v@.take(i as int) == stable_sort_by_start(orig.take(i as int)),
            v@.skip(i as int) == orig.skip(i as int),
        decreases n - i,
    {
        let ghost prefix = v@.take(i as int);
        assert(v@[i as int] == orig[i as int]) by {
            assert(v@.skip(i as int)[0] == orig.skip(i as int)[0]);
        }
        let x_start: usize = v[i].start;
        let mut j: usize = i;
        while j > 0 && v[j - 1].start > x_start
            invariant
                j <= i < n,
                v@.len() == n,
                v@.take(i as int) == prefix,
                forall|k: int| j <= k < i ==> prefix[k].start > x_start,
            decreases j,
        {
            j = j - 1;
        }
        proof {
            assert(v@ =~= prefix + orig.skip(i as int));
        }
        let x = v.remove(i);
        proof {
            assert(v@ =~= prefix + orig.skip(i + 1));
        }
        v.insert(j, x);
        proof {
            assert(x == orig[i as int]);
            lemma_sorted_insert_at(prefix, x, j as int);
            assert(orig.take(i + 1).drop_last() =~= orig.take(i as int));
            assert(orig.take(i + 1).last() == x);
            assert(v@.take(i + 1) =~= prefix.take(j as int) + seq![x] + prefix.skip(j as int));
            assert(v@.skip(i + 1) =~= orig.skip(i + 1));
        }
        i = i + 1;
    }
    proof {
        assert(v@.take(n as int) =~= v@);
        assert(orig.take(n as int) =~= orig);
    }
}

/// The abstract contents of a task.
pub struct TaskView {
    pub id: TaskId,
    pub name: String,
    pub resource_options: Seq<ResourceId>,
    pub days: usize,
    pub dependencies: Seq<TaskId>,
}

/// A unit of work: how long it takes, who may do it and what must be finished first.
#[derive(Debug)]
pub struct Task {
    pub id: TaskId,
    pub name: String,
    pub resource_options: Vec<ResourceId>,
    pub days: usize,
    pub dependencies: Vec<TaskId>,
}

impl View for Task {
    type V = TaskView;

    open spec fn view(&self) -> TaskView {
        TaskView {
            id: self.id,
            name: self.name,
            resource_options: self.resource_options@,
            days: self.days,
            dependencies: self.dependencies@,
        }
    }
}

impl Clone for Task {
    fn clone(&self) -> (r: Self)
        ensures
            r@ == self@,
    {
        let r = Task {
            id: self.id,
            name: self.name.clone(),
            resource_options: self.resource_options.clone(),
            days: self.days,
            dependencies: self.dependencies.clone(),
        };
        assert(r.resource_options@ =~= self.resource_options@);
        assert(r.dependencies@ =~= self.dependencies@);
        r
    }
}

impl PartialEq for Task {
    fn eq(&self, other: &Self) -> (r: bool) {
        self.id == other.id
    }
}

impl vstd::std_specs::cmp::PartialEqSpecImpl for Task {
    open spec fn obeys_eq_spec() -> bool {
        true
    }

    open spec fn eq_spec(&self, other: &Self) -> bool {
        self.id == other.id
    }
}

/// The abstract contents of a task queue.
#[verifier::ext_equal]
pub struct QueueView {
    pub assignee: Resource,
    pub tasks: Seq<TaskQueueEntry>,
}

/// The work assigned to one resource, in order.
#[derive(Debug)]
pub struct TaskQueue {
    pub assignee: Resource,
    pub tasks: Vec<TaskQueueEntry>,
}

impl View for TaskQueue {
    type V = QueueView;

    open spec fn view(&self) -> QueueView {
        QueueView { assignee: self.assignee, tasks: self.tasks@ }
    }
}

impl Clone for TaskQueue {
    fn clone(&self) -> (r: Self)
        ensures
            r@ == self@,
    {
        let r = TaskQueue { assignee: self.assignee.clone(), tasks: self.tasks.clone() };
        assert(r.tasks@ =~= self.tasks@);
        r
    }
}

impl TaskQueue {
    /// Create a new, empty queue for the assignee.
    pub fn new(assignee: &Resource) -> (r: Self)
        ensures
            r@ == (QueueView { assignee: *assignee, tasks: Seq::empty() }),
    {
        TaskQueue { assignee: assignee.clone(), tasks: Vec::new() }
    }

    /// The number of days after the start of the timeline the last work is complete for this
    /// queue.
    pub fn duration(&self) -> (r: usize)
        requires
            queue_duration(self.tasks@) <= usize::MAX,
        ensures
            r == queue_duration(self.tasks@),
    {
        proof {
            lemma_queue_duration_props(self.tasks@);
        }
        let mut best: usize = 0;
        let mut k: usize = 0;
        while k < self.tasks.len()
            invariant
                k <= self.tasks@.len(),
                best == queue_duration(self.tasks@.take(k as int)),
                queue_duration(self.tasks@) <= usize::MAX,
                forall|j: int| 0 <= j < self.tasks@.len() ==> entry_end(#[trigger] self.tasks@[j]) <= queue_duration(self.tasks@),
            decreases self.tasks@.len() - k,
        {
            proof {
                assert(self.tasks@.take(k + 1).drop_last() =~= self.tasks@.take(k as int));
                assert(self.tasks@.take(k + 1).last() == self.tasks@[k as int]);
                assert(entry_end(self.tasks@[k as int]) <= queue_duration(self.tasks@));
            }
            let end: usize = self.tasks[k].end();
            if end > best {
                best = end;
            }
            k = k + 1;
        }
        proof {
            assert(self.tasks@.take(k as int) =~= self.tasks@);
        }
        best
    }

    /// Returns the amount of work performed in the queue. In a completely packed queue this will
    /// equal the duration.
    pub fn work(&self) -> (r: usize)
        requires
            queue_work(self.tasks@) <= usize::MAX,
        ensures
            r == queue_work(self.tasks@),
    {
        let mut total: usize = 0;
        let mut k: usize = 0;
        while k < self.tasks.len()
            invariant
                k <= self.tasks@.len(),
                total == queue_work(self.tasks@.take(k as int)),
                queue_work(self.tasks@) <= usize::MAX,
            decreases self.tasks@.len() - k,
        {
            proof {
                lemma_queue_work_take_le(self.tasks@, k + 1);
                assert(self.tasks@.take(k + 1).drop_last() =~= self.tasks@.take(k as int));
            }
            total = total + self.tasks[k].days;
            k = k + 1;
        }
        proof {
            assert(self.tasks@.take(k as int) =~= self.tasks@);
        }
        total
    }

    /// Add a new event to the end of the task queue. Does not fill holes.
    pub fn push(&mut self, task: &Task)
        requires
            queue_duration(old(self).tasks@) <= usize::MAX,
        ensures
            final(self)@ == (QueueView {
                assignee: old(self).assignee,
                tasks: old(self).tasks@.push(entry_for(queue_duration(old(self).tasks@) as usize, task@)),
            }),
    {
        let start: usize = self.duration();
        self.tasks.push(TaskQueueEntry { start: start, id: task.id, days: task.days, label: task.name.clone() });
    }

    /// Add a task starting on `start_day`, keeping the entries ordered by start day.
    pub fn insert(&mut self, start_day: usize, task: &Task)
        ensures
            final(self)@ == (QueueView {
                assignee: old(self).assignee,
                tasks: stable_sort_by_start(old(self).tasks@.push(entry_for(start_day, task@))),
            }),
    {
        self.tasks.push(TaskQueueEntry { id: task.id, label: task.name.clone(), start: start_day, days: task.days });
        sort_entries_by_start(&mut self.tasks);
    }
}


/// All entries of all queues, queue by queue.
pub open spec fn solution_entries(qs: Seq<QueueView>) -> Seq<TaskQueueEntry>
    decreases qs.len(),
{
    if qs.len() == 0 {
        Seq::empty()
    } else {
        solution_entries(qs.drop_last()) + qs.last().tasks
    }
}

/// The completion day of the latest queue (0 when there are no queues).
pub open spec fn solution_duration(qs: Seq<QueueView>) -> int
    decreases qs.len(),
{
    if qs.len() == 0 {
        0
    } else {
        let rest = solution_duration(qs.drop_last());
        let last = queue_duration(qs.last().tasks);
        if rest >= last {
            rest
        } else {
            last
        }
    }
}

/// The total days of work over all queues.
pub open spec fn solution_work(qs: Seq<QueueView>) -> int
    decreases qs.len(),
{
    if qs.len() == 0 {
        0
    } else {
        solution_work(qs.drop_last()) + queue_work(qs.last().tasks)
    }
}

/// Every entry's end day can be held in a `usize`.
pub open spec fn ends_fit(es: Seq<TaskQueueEntry>) -> bool {
    forall|k: int| 0 <= k < es.len() ==> entry_end(#[trigger] es[k]) <= usize::MAX
}

/// Some entry of the solution is for task `id`.
pub open spec fn is_scheduled(qs: Seq<QueueView>, id: TaskId) -> bool {
    exists|k: int| 0 <= k < solution_entries(qs).len() && (#[trigger] solution_entries(qs)[k]).id == id
}

/// The latest end day among the entries whose task is one of `deps`, if there is one.
pub open spec fn deps_complete(es: Seq<TaskQueueEntry>, deps: Seq<TaskId>) -> Option<int>
    decreases es.len(),
{
    if es.len() == 0 {
        None
    } else {
        let rest = deps_complete(es.drop_last(), deps);
        let end = entry_end(es.last());
        if deps.contains(es.last().id) {
            match rest {
                Some(m) => Some(if m >= end { m } else { end }),
                None => Some(end),
            }
        } else {
            rest
        }
    }
}

/// The first entry for task `id`, if there is one.
pub open spec fn find_entry(es: Seq<TaskQueueEntry>, id: TaskId) -> Option<TaskQueueEntry>
    decreases es.len(),
{
    if es.len() == 0 {
        None
    } else {
        match find_entry(es.drop_last(), id) {
            Some(e) => Some(e),
            None => if es.last().id == id {
                Some(es.last())
            } else {
                None
            },
        }
    }
}

/// Why a task could not be added to a solution.
#[derive(Debug, Clone, Copy, PartialEq, Eq, Structural)]
pub enum ScheduleError {
    /// The queue at the resource's position belongs to another resource.
    AssigneeMismatch { resource: ResourceId },
    /// The task may not be done by the resource.
    InvalidResourceAssignment { resource: ResourceId, task: TaskId },
    /// A dependency ends after the day the task would start.
    DependencyIncomplete { task: TaskId, dependency: TaskId },
    /// Some dependency of the task is not in the solution yet.
    DependenciesNotScheduled { task: TaskId },
}

/// The day a task starts when pushed onto the queue of `rid`: once the queue is free and
/// every scheduled dependency is complete.
pub open spec fn push_start(qs: Seq<QueueView>, rid: ResourceId, task: TaskView) -> int {
    let qd = queue_duration(qs[rid.0 as int].tasks);
    let dd = match deps_complete(solution_entries(qs), task.dependencies) {
        Some(m) => m,
        None => 0,
    };
    if qd >= dd {
        qd
    } else {
        dd
    }
}

/// What `Solution::push_task` does: the new queues and the start day, or the error.
pub open spec fn push_task_result(qs: Seq<QueueView>, rid: ResourceId, task: TaskView) -> Result<
    (Seq<QueueView>, usize),
    ScheduleError,
> {
    let q = qs[rid.0 as int];
    if q.assignee.id != rid {
        Err(ScheduleError::AssigneeMismatch { resource: rid })
    } else if !task.resource_options.contains(rid) {
        Err(ScheduleError::InvalidResourceAssignment { resource: rid, task: task.id })
    } else if exists|k: int|
        0 <= k < task.dependencies.len() && !is_scheduled(qs, #[trigger] task.dependencies[k]) {
        Err(ScheduleError::DependenciesNotScheduled { task: task.id })
    } else {
        let start = push_start(qs, rid, task) as usize;
        Ok(
            (
                qs.update(
                    rid.0 as int,
                    QueueView {
                        assignee: q.assignee,
                        tasks: stable_sort_by_start(q.tasks.push(entry_for(start, task))),
                    },
                ),
                start,
            ),
        )
    }
}

pub proof fn lemma_entries_split(qs: Seq<QueueView>, i: int)
    requires
        0 <= i < qs.len(),
    ensures
        solution_entries(qs) =~= solution_entries(qs.take(i)) + qs[i].tasks + solution_entries(
            qs.skip(i + 1),
        ),
    decreases qs.len(),
{
    if i == qs.len() - 1 {
        assert(qs.take(i) =~= qs.drop_last());
        assert(qs.skip(i + 1) =~= Seq::<QueueView>::empty());
    } else {
        lemma_entries_split(qs.drop_last(), i);
        assert(qs.drop_last().take(i) =~= qs.take(i));
        assert(qs.skip(i + 1).drop_last() =~= qs.drop_last().skip(i + 1));
        assert(qs.skip(i + 1).last() == qs.last());
    }
}

/// The entry at position `k` of queue `i` is an entry of the solution.
pub proof fn lemma_entry_in_solution(qs: Seq<QueueView>, i: int, k: int)
    requires
        0 <= i < qs.len(),
        0 <= k < qs[i].tasks.len(),
    ensures
        solution_entries(qs).len() == solution_entries(qs.take(i)).len() + qs[i].tasks.len()
            + solution_entries(qs.skip(i + 1)).len(),
        solution_entries(qs)[solution_entries(qs.take(i)).len() + k] == qs[i].tasks[k],
{
    lemma_entries_split(qs, i);
}

pub proof fn lemma_solution_work_take_le(qs: Seq<QueueView>, k: int)
    requires
        0 <= k <= qs.len(),
    ensures
        0 <= solution_work(qs.take(k)) <= solution_work(qs),
    decreases qs.len() - k,
{
    if k < qs.len() {
        lemma_solution_work_take_le(qs, k + 1);
        assert(qs.take(k + 1).drop_last() =~= qs.take(k));
        assert(qs.take(k + 1).last() == qs[k]);
        lemma_queue_work_nonneg(qs[k].tasks);
        lemma_solution_work_nonneg(qs.take(k));
    } else {
        assert(qs.take(k) =~= qs);
        lemma_solution_work_nonneg(qs);
    }
}

pub proof fn lemma_solution_work_nonneg(qs: Seq<QueueView>)
    ensures
        solution_work(qs) >= 0,
    decreases qs.len(),
{
    if qs.len() > 0 {
        lemma_solution_work_nonneg(qs.drop_last());
        lemma_queue_work_nonneg(qs.last().tasks);
    }
}

/// The latest dependency end bounds the end of every scheduled dependency.
pub proof fn lemma_deps_complete_bounds(es: Seq<TaskQueueEntry>, deps: Seq<TaskId>, d: TaskId)
    requires
        deps.contains(d),
        find_entry(es, d) is Some,
    ensures
        deps_complete(es, deps) is Some,
        deps_complete(es, deps)->0 >= entry_end(find_entry(es, d)->0),
    decreases es.len(),
{
    if find_entry(es.drop_last(), d) is Some {
        lemma_deps_complete_bounds(es.drop_last(), deps, d);
    }
}

/// The latest dependency end is the end of some entry.
pub proof fn lemma_deps_complete_fits(es: Seq<TaskQueueEntry>, deps: Seq<TaskId>)
    requires
        ends_fit(es),
    ensures
        deps_complete(es, deps) matches Some(m) ==> 0 <= m <= usize::MAX,
    decreases es.len(),
{
    if es.len() > 0 {
        assert(ends_fit(es.drop_last())) by {
            assert forall|k: int| 0 <= k < es.drop_last().len() implies entry_end(#[trigger] es.drop_last()[k]) <= usize::MAX by {
                assert(es.drop_last()[k] == es[k]);
            }
        }
        lemma_deps_complete_fits(es.drop_last(), deps);
        assert(es[es.len() - 1] == es.last());
    }
}

/// `find_entry` finds exactly the scheduled tasks.
pub proof fn lemma_find_entry(es: Seq<TaskQueueEntry>, id: TaskId)
    ensures
        find_entry(es, id) is Some <==> exists|k: int| 0 <= k < es.len() && (#[trigger] es[k]).id == id,
        find_entry(es, id) matches Some(e) ==> e.id == id && es.contains(e),
    decreases es.len(),
{
    if es.len() > 0 {
        lemma_find_entry(es.drop_last(), id);
        if find_entry(es.drop_last(), id) is Some {
            let k = choose|k: int| 0 <= k < es.drop_last().len() && (#[trigger] es.drop_last()[k]).id == id;
            assert(es[k].id == id);
            let e = find_entry(es.drop_last(), id)->0;
            let j = choose|j: int| 0 <= j < es.drop_last().len() && es.drop_last()[j] == e;
            assert(es[j] == e);
        } else {
            assert forall|k: int| 0 <= k < es.len() - 1 implies (#[trigger] es[k]).id != id by {
                assert(es.drop_last()[k] == es[k]);
            }
            if es.last().id == id {
                assert(es[es.len() - 1] == es.last());
            }
        }
    }
}

fn contains_task_id(v: &Vec<TaskId>, id: TaskId) -> (r: bool)
    ensures
        r == v@.contains(id),
{
    let mut k: usize = 0;
    while k < v.len()
        invariant
            k <= v@.len(),
            forall|j: int| 0 <= j < k ==> v@[j] != id,
        decreases v@.len() - k,
    {
        if v[k] == id {
            return true;
        }
        k = k + 1;
    }
    false
}

fn contains_resource_id(v: &Vec<ResourceId>, id: ResourceId) -> (r: bool)
    ensures
        r == v@.contains(id),
{
    let mut k: usize = 0;
    while k < v.len()
        invariant
            k <= v@.len(),
            forall|j: int| 0 <= j < k ==> v@[j] != id,
        decreases v@.len() - k,
    {
        if v[k] == id {
            return true;
        }
        k = k + 1;
    }
    false
}

fn entries_deps_complete(es: &Vec<TaskQueueEntry>, deps: &Vec<TaskId>) -> (r: Option<usize>)
    requires
        ends_fit(es@),
    ensures
        r is None <==> deps_complete(es@, deps@) is None,
        r matches Some(b) ==> deps_complete(es@, deps@) == Some(b as int),
{
    let mut best: Option<usize> = None;
    let mut k: usize = 0;
    proof {
        lemma_deps_complete_fits(es@, deps@);
    }
    while k < es.len()
        invariant
            k <= es@.len(),
            ends_fit(es@),
            best is None <==> deps_complete(es@.take(k as int), deps@) is None,
            best matches Some(b) ==> deps_complete(es@.take(k as int), deps@) == Some(b as int),
        decreases es@.len() - k,
    {
        proof {
            assert(es@.take(k + 1).drop_last() =~= es@.take(k as int));
            assert(es@.take(k + 1).last() == es@[k as int]);
            assert(entry_end(es@[k as int]) <= usize::MAX);
        }
        let ghost prev = deps_complete(es@.take(k as int), deps@);
        if contains_task_id(deps, es[k].id) {
            let end: usize = es[k].end();
            best = match best {
                Some(m) => Some(if m >= end { m } else { end }),
                None => Some(end),
            };
            assert(deps_complete(es@.take(k + 1), deps@) == match prev {
                Some(m) => Some(if m >= end { m } else { end as int }),
                None => Some(end as int),
            });
        } else {
            assert(deps_complete(es@.take(k + 1), deps@) == prev);
        }
        k = k + 1;
    }
    proof {
        assert(es@.take(k as int) =~= es@);
    }
    best
}

fn entries_find(es: &Vec<TaskQueueEntry>, id: TaskId) -> (r: Option<usize>)
    ensures
        match find_entry(es@, id) {
            Some(e) => r matches Some(k) && k < es@.len() && es@[k as int] == e,
            None => r is None,
        },
{
    let mut k: usize = 0;
    while k < es.len()
        invariant
            k <= es@.len(),
            find_entry(es@.take(k as int), id) is None,
        decreases es@.len() - k,
    {
        proof {
            assert(es@.take(k + 1).drop_last() =~= es@.take(k as int));
            assert(es@.take(k + 1).last() == es@[k as int]);
        }
        if es[k].id == id {
            proof {
                lemma_find_entry_prefix(es@, id, k as int);
            }
            return Some(k);
        }
        k = k + 1;
    }
    proof {
        assert(es@.take(k as int) =~= es@);
    }
    None
}

/// A match found in a prefix is the first match of the whole sequence.
proof fn lemma_find_entry_prefix(es: Seq<TaskQueueEntry>, id: TaskId, k: int)
    requires
        0 <= k < es.len(),
        find_entry(es.take(k + 1), id) == Some(es[k]),
    ensures
        find_entry(es, id) == Some(es[k]),
    decreases es.len(),
{
    if es.len() > k + 1 {
        assert(es.drop_last().take(k + 1) =~= es.take(k + 1));
        lemma_find_entry_prefix(es.drop_last(), id, k);
    } else {
        assert(es.take(k + 1) =~= es);
    }
}

/// An assignment of tasks to the queues of the resources.
#[derive(Debug)]
pub struct Solution {
    pub task_queues: Vec<TaskQueue>,
}

impl View for Solution {
    type V = Seq<QueueView>;

    open spec fn view(&self) -> Seq<QueueView> {
        self.task_queues@.map_values(|q: TaskQueue| q@)
    }
}

impl Clone for Solution {
    fn clone(&self) -> (r: Self)
        ensures
            r@ == self@,
    {
        let r = Solution { task_queues: self.task_queues.clone() };
        assert(r@ =~= self@);
        r
    }
}

impl Solution {
    pub fn new(resources: &[Resource]) -> (r: Self)
        ensures
            r@ == resources@.map_values(|a: Resource| QueueView { assignee: a, tasks: Seq::empty() }),
    {
        let mut task_queues: Vec<TaskQueue> = Vec::with_capacity(resources.len());
        let mut k: usize = 0;
        while k < resources.len()
            invariant
                k <= resources@.len(),
                task_queues@.len() == k,
                forall|j: int| 0 <= j < k ==> (#[trigger] task_queues@[j])@ == (QueueView {
                    assignee: resources@[j],
                    tasks: Seq::empty(),
                }),
            decreases resources@.len() - k,
        {
            task_queues.push(TaskQueue::new(&resources[k]));
            k = k + 1;
        }
        let r = Solution { task_queues };
        assert(r@ =~= resources@.map_values(|a: Resource| QueueView { assignee: a, tasks: Seq::empty() }));
        r
    }

    /// The time between starting work and the last task being complete
    pub fn duration(&self) -> (r: usize)
        requires
            self@.len() > 0,
            forall|i: int| 0 <= i < self@.len() ==> queue_duration(#[trigger] self@[i].tasks) <= usize::MAX,
        ensures
            r == solution_duration(self@),
    {
        let mut best: usize = 0;
        let mut k: usize = 0;
        while k < self.task_queues.len()
            invariant
                k <= self@.len(),
                self@.len() == self.task_queues@.len(),
                forall|i: int| 0 <= i < self@.len() ==> queue_duration(#[trigger] self@[i].tasks) <= usize::MAX,
                best == solution_duration(self@.take(k as int)),
            decreases self@.len() - k,
        {
            proof {
                assert(self@.take(k + 1).drop_last() =~= self@.take(k as int));
                assert(self@[k as int] == self.task_queues@[k as int]@);
                assert(queue_duration(self@[k as int].tasks) <= usize::MAX);
            }
            let d: usize = self.task_queues[k].duration();
            if d > best {
                best = d;
            }
            k = k + 1;
        }
        proof {
            assert(self@.take(k as int) =~= self@);
        }
        best
    }

    /// The number of engineer days worked in this solution
    pub fn work(&self) -> (r: usize)
        requires
            solution_work(self@) <= usize::MAX,
        ensures
            r == solution_work(self@),
    {
        let mut total: usize = 0;
        let mut k: usize = 0;
        while k < self.task_queues.len()
            invariant
                k <= self@.len(),
                self@.len() == self.task_queues@.len(),
                solution_work(self@) <= usize::MAX,
                total == solution_work(self@.take(k as int)),
            decreases self@.len() - k,
        {
            proof {
                assert(self@.take(k + 1).drop_last() =~= self@.take(k as int));
                assert(self@[k as int] == self.task_queues@[k as int]@);
                lemma_solution_work_take_le(self@, k + 1);
                lemma_queue_work_nonneg(self@[k as int].tasks);
            }
            let w: usize = self.task_queues[k].work();
            total = total + w;
            k = k + 1;
        }
        proof {
            assert(self@.take(k as int) =~= self@);
        }
        total
    }

    /// Return the tasks contained in the solution
    pub fn task_entries(&self) -> (r: Vec<TaskQueueEntry>)
        ensures
            r@ == solution_entries(self@),
    {
        let mut r: Vec<TaskQueueEntry> = Vec::new();
        let mut i: usize = 0;
        while i < self.task_queues.len()
            invariant
                i <= self@.len(),
                self@.len() == self.task_queues@.len(),
                r@ == solution_entries(self@.take(i as int)),
            decreases self@.len() - i,
        {
            let queue = &self.task_queues[i];
            let mut k: usize = 0;
            while k < queue.tasks.len()
                invariant
                    k <= queue.tasks@.len(),
                    r@ == solution_entries(self@.take(i as int)) + queue.tasks@.take(k as int),
                decreases queue.tasks@.len() - k,
            {
                r.push(queue.tasks[k].clone());
                proof {
                    assert(queue.tasks@.take(k + 1) =~= queue.tasks@.take(k as int).push(queue.tasks@[k as int]));
                }
                k = k + 1;
            }
            proof {
                assert(self@.take(i + 1).drop_last() =~= self@.take(i as int));
                assert(self@[i as int] == queue@);
                assert(queue.tasks@.take(k as int) =~= queue.tasks@);
            }
            i = i + 1;
        }
        proof {
            assert(self@.take(i as int) =~= self@);
        }
        r
    }

    /// Return the day on which the last dependency of the task is complete.
    pub fn dependencies_complete(&self, task: &Task) -> (r: Option<usize>)
        requires
            ends_fit(solution_entries(self@)),
        ensures
            r is None <==> deps_complete(solution_entries(self@), task.dependencies@) is None,
            r matches Some(b) ==> deps_complete(solution_entries(self@), task.dependencies@) == Some(b as int),
    {
        let entries = self.task_entries();
        entries_deps_complete(&entries, &task.dependencies)
    }

    /// Adds a task to the end of the schedule of the given resource if all task requirements are satisfied.
    /// Returns the start date for the task pushed.
    pub fn push_task(&mut self, resource_id: ResourceId, task: &Task) -> (r: Result<usize, ScheduleError>)
        requires
            resource_id.0 < old(self)@.len(),
            ends_fit(solution_entries(old(self)@)),
        ensures
            match push_task_result(old(self)@, resource_id, task@) {
                Ok((qs, start)) => r == Ok::<usize, ScheduleError>(start) && final(self)@ == qs,
                Err(e) => r == Err::<usize, ScheduleError>(e) && final(self)@ == old(self)@,
            },
    {
        let ghost qs = self@;
        let rid: usize = resource_id.0;
        proof {
            assert(qs[rid as int] == self.task_queues@[rid as int]@);
        }
        if self.task_queues[rid].assignee.id != resource_id {
            return Err(ScheduleError::AssigneeMismatch { resource: resource_id });
        }
        if !contains_resource_id(&task.resource_options, resource_id) {
            return Err(ScheduleError::InvalidResourceAssignment { resource: resource_id, task: task.id });
        }
        let entries = self.task_entries();
        proof {
            let n = qs[rid as int].tasks.len();
            lemma_queue_duration_props(qs[rid as int].tasks);
            if n > 0 {
                let k = choose|k: int| 0 <= k < n && queue_duration(qs[rid as int].tasks) == entry_end(#[trigger] qs[rid as int].tasks[k]);
                lemma_entry_in_solution(qs, rid as int, k);
                assert(solution_entries(qs)[solution_entries(qs.take(rid as int)).len() + k] == qs[rid as int].tasks[k]);
            }
        }
        proof {
            lemma_deps_complete_fits(entries@, task.dependencies@);
        }
        let queue_end: usize = self.task_queues[rid].duration();
        let deps_end: usize = match entries_deps_complete(&entries, &task.dependencies) {
            Some(m) => m,
            None => 0,
        };
        let start: usize = if queue_end >= deps_end { queue_end } else { deps_end };
        let mut k: usize = 0;
        while k < task.dependencies.len()
            invariant
                k <= task.dependencies@.len(),
                entries@ == solution_entries(qs),
                qs == self@,
                ends_fit(entries@),
                start == push_start(qs, resource_id, task@),
                forall|j: int| 0 <= j < k ==> is_scheduled(qs, #[trigger] task.dependencies@[j]),
                rid == resource_id.0,
                rid < qs.len(),
                qs[rid as int].assignee.id == resource_id,
                task@.resource_options.contains(resource_id),
            decreases task.dependencies@.len() - k,
        {
            let dep = task.dependencies[k];
            proof {
                lemma_find_entry(entries@, dep);
            }
            match entries_find(&entries, dep) {
                Some(idx) => {
                    proof {
                        assert(task.dependencies@.contains(dep)) by {
                            assert(task.dependencies@[k as int] == dep);
                        }
                        lemma_deps_complete_bounds(entries@, task.dependencies@, dep);
                    }
                    proof {
                        assert(is_scheduled(qs, task.dependencies@[k as int])) by {
                            assert(entries@[idx as int].id == dep);
                        }
                    }
                    if entries[idx].end() > start {
                        return Err(ScheduleError::DependencyIncomplete { task: task.id, dependency: dep });
                    }
                },
                None => {
                    proof {
                        assert(!is_scheduled(qs, task.dependencies@[k as int]));
                        assert(exists|j: int|
                            0 <= j < task@.dependencies.len() && !is_scheduled(qs, #[trigger] task@.dependencies[j]));
                    }
                    return Err(ScheduleError::DependenciesNotScheduled { task: task.id });
                },
            }
            k = k + 1;
        }
        self.task_queues[rid].insert(start, task);
        proof {
            assert(self@ =~= push_task_result(qs, resource_id, task@)->Ok_0.0);
        }
        Ok(start)
    }
}


impl Solution {
    /// Whether some queue holds an entry for task `id`.
    pub fn has_task(&self, id: TaskId) -> (r: bool)
        ensures
            r == is_scheduled(self@, id),
    {
        let ghost qs = self@;
        let mut i: usize = 0;
        while i < self.task_queues.len()
            invariant
                i <= qs.len(),
                qs == self@,
                qs.len() == self.task_queues@.len(),
                forall|j: int|
                    0 <= j < solution_entries(qs.take(i as int)).len() ==> (#[trigger] solution_entries(
                        qs.take(i as int),
                    )[j]).id != id,
            decreases qs.len() - i,
        {
            let queue = &self.task_queues[i];
            proof {
                assert(qs[i as int] == queue@);
                assert(qs.take(i + 1).drop_last() =~= qs.take(i as int));
            }
            let mut k: usize = 0;
            while k < queue.tasks.len()
                invariant
                    k <= queue.tasks@.len(),
                    i < qs.len(),
                    qs == self@,
                    qs[i as int] == queue@,
                    forall|j: int| 0 <= j < k ==> (#[trigger] queue.tasks@[j]).id != id,
                decreases queue.tasks@.len() - k,
            {
                if queue.tasks[k].id == id {
                    proof {
                        lemma_entry_in_solution(qs, i as int, k as int);
                        let idx = solution_entries(qs.take(i as int)).len() + k;
                        assert(solution_entries(qs)[idx].id == id);
                    }
                    return true;
                }
                k = k + 1;
            }
            proof {
                let prev = solution_entries(qs.take(i as int));
                assert(solution_entries(qs.take(i + 1)) == prev + queue.tasks@);
                assert forall|j: int|
                    0 <= j < solution_entries(qs.take(i + 1)).len() implies (#[trigger] solution_entries(
                        qs.take(i + 1),
                    )[j]).id != id by {
                    if j >= prev.len() {
                        assert(solution_entries(qs.take(i + 1))[j] == queue.tasks@[j - prev.len()]);
                    } else {
                        assert(solution_entries(qs.take(i + 1))[j] == prev[j]);
                    }
                }
            }
            i = i + 1;
        }
        proof {
            assert(qs.take(i as int) =~= qs);
        }
        false
    }
}

/// The abstract contents of a project.
pub struct ProjectView {
    pub resources: Seq<Resource>,
    pub tasks: Seq<TaskView>,
}

/// Resources and tasks sit at the position their id names, and every id a task refers to
/// names an existing resource or task.
pub open spec fn project_wf(p: ProjectView) -> bool {
    &&& p.resources.len() <= usize::MAX
    &&& p.tasks.len() <= usize::MAX
    &&& forall|i: int| 0 <= i < p.resources.len() ==> (#[trigger] p.resources[i]).id == ResourceId(i as usize)
    &&& forall|i: int| 0 <= i < p.tasks.len() ==> (#[trigger] p.tasks[i]).id == TaskId(i as usize)
    &&& forall|i: int| 0 <= i < p.tasks.len() ==> (#[trigger] p.tasks[i]).resource_options.len() > 0
    &&& forall|i: int, k: int|
        0 <= i < p.tasks.len() && 0 <= k < p.tasks[i].resource_options.len() ==> (
        #[trigger] p.tasks[i].resource_options[k]).0 < p.resources.len()
    &&& forall|i: int, k: int|
        0 <= i < p.tasks.len() && 0 <= k < p.tasks[i].dependencies.len() ==> (
        #[trigger] p.tasks[i].dependencies[k]).0 < p.tasks.len()
}

/// The resources that can do work and the tasks to be done.
#[derive(Debug)]
pub struct Project {
    pub(crate) resources: Vec<Resource>,
    pub(crate) tasks: Vec<Task>,
}

impl View for Project {
    type V = ProjectView;

    closed spec fn view(&self) -> ProjectView {
        ProjectView { resources: self.resources@, tasks: self.tasks@.map_values(|t: Task| t@) }
    }
}

impl Project {
    #[verifier::type_invariant]
    spec fn well_formed(self) -> bool {
        project_wf(self@)
    }

    /// A project of the given resources and tasks.
    pub(crate) fn from_parts(resources: Vec<Resource>, tasks: Vec<Task>) -> (r: Self)
        requires
            project_wf(ProjectView { resources: resources@, tasks: tasks@.map_values(|t: Task| t@) }),
        ensures
            r@ == (ProjectView { resources: resources@, tasks: tasks@.map_values(|t: Task| t@) }),
    {
        Project { resources, tasks }
    }

    /// The resources, in order of their ids.
    pub fn resources(&self) -> (r: &Vec<Resource>)
        ensures
            r@ == self@.resources,
            project_wf(self@),
    {
        proof {
            use_type_invariant(self);
        }
        &self.resources
    }

    /// The tasks, in order of their ids.
    pub fn tasks(&self) -> (r: &Vec<Task>)
        ensures
            r@.map_values(|t: Task| t@) == self@.tasks,
            project_wf(self@),
    {
        proof {
            use_type_invariant(self);
        }
        &self.tasks
    }

    pub fn unscheduled_tasks<'a>(&'a self, solution: &'a Solution) -> (r: UnscheduledTasks<'a>)
        ensures
            r.project == self,
            r.solution == solution,
            r.ptr == 0,
    {
        UnscheduledTasks::new(self, solution)
    }

    pub fn get_task(&self, task_id: TaskId) -> (r: &Task)
        requires
            task_id.0 < self@.tasks.len(),
        ensures
            r@ == self@.tasks[task_id.0 as int],
    {
        &self.tasks[task_id.0]
    }
}

/// The position of the first task at or after `from` that the solution does not hold
/// (the number of tasks when there is none).
pub open spec fn next_unscheduled(p: ProjectView, qs: Seq<QueueView>, from: int) -> int
    decreases p.tasks.len() - from,
{
    if from >= p.tasks.len() {
        p.tasks.len() as int
    } else if !is_scheduled(qs, p.tasks[from].id) {
        from
    } else {
        next_unscheduled(p, qs, from + 1)
    }
}

pub proof fn lemma_next_unscheduled(p: ProjectView, qs: Seq<QueueView>, from: int)
    requires
        0 <= from,
    ensures
        from <= next_unscheduled(p, qs, from) <= p.tasks.len() || (from > p.tasks.len()
            && next_unscheduled(p, qs, from) == p.tasks.len()),
        next_unscheduled(p, qs, from) < p.tasks.len() ==> !is_scheduled(
            qs,
            p.tasks[next_unscheduled(p, qs, from)].id,
        ),
        forall|j: int| from <= j < next_unscheduled(p, qs, from) ==> is_scheduled(qs, #[trigger] p.tasks[j].id),
    decreases p.tasks.len() - from,
{
    if from < p.tasks.len() && is_scheduled(qs, p.tasks[from].id) {
        lemma_next_unscheduled(p, qs, from + 1);
    }
}

/// Walks the tasks of a project that a solution does not hold yet, in task order.
#[derive(Copy, Clone, Debug)]
pub struct UnscheduledTasks<'a> {
    pub project: &'a Project,
    pub solution: &'a Solution,
    pub ptr: usize,
}

impl<'a> UnscheduledTasks<'a> {
    fn new(project: &'a Project, solution: &'a Solution) -> (r: Self)
        ensures
            r.project == project,
            r.solution == solution,
            r.ptr == 0,
    {
        UnscheduledTasks { project, solution, ptr: 0 }
    }

    /// The next task that the solution does not hold, if any.
    pub fn next(&mut self) -> (r: Option<&'a Task>)
        ensures
            final(self).project == old(self).project,
            final(self).solution == old(self).solution,
            ({
                let p = old(self).project@;
                let i = next_unscheduled(p, old(self).solution@, old(self).ptr as int);
                if i < p.tasks.len() {
                    r matches Some(t) && t@ == p.tasks[i] && final(self).ptr == i + 1
                } else {
                    r is None && final(self).ptr == if old(self).ptr >= p.tasks.len() {
                        old(self).ptr as int
                    } else {
                        p.tasks.len() as int
                    }
                }
            }),
    {
        let tasks = self.project.tasks();
        let ghost p = self.project@;
        let ghost qs = self.solution@;
        let ghost from = self.ptr as int;
        proof {
            lemma_next_unscheduled(p, qs, from);
        }
        while self.ptr < tasks.len()
            invariant
                tasks@.map_values(|t: Task| t@) == p.tasks,
                self.project == old(self).project,
                self.solution == old(self).solution,
                from == old(self).ptr,
                p == self.project@,
                qs == self.solution@,
                from <= self.ptr,
                self.ptr <= p.tasks.len() || self.ptr == from,
                next_unscheduled(p, qs, self.ptr as int) == next_unscheduled(p, qs, from),
            decreases tasks@.len() - self.ptr,
        {
            let task = &tasks[self.ptr];
            proof {
                assert(task@ == p.tasks[self.ptr as int]);
            }
            let ghost at = self.ptr as int;
            self.ptr = self.ptr + 1;
            if !self.solution.has_task(task.id) {
                assert(next_unscheduled(p, qs, at) == at);
                return Some(task);
            }
            assert(next_unscheduled(p, qs, at) == next_unscheduled(p, qs, at + 1));
        }
        None
    }
}


/// Pushing a task onto a queue makes the queue's completion day and its work both grow by
/// the task's length.
pub proof fn lemma_queue_push_grows(tasks: Seq<TaskQueueEntry>, task: TaskView)
    requires
        0 <= queue_duration(tasks) <= usize::MAX,
    ensures
        queue_duration(tasks.push(entry_for(queue_duration(tasks) as usize, task))) == queue_duration(tasks)
            + task.days,
        queue_work(tasks.push(entry_for(queue_duration(tasks) as usize, task))) == queue_work(tasks) + task.days,
{
    let e = entry_for(queue_duration(tasks) as usize, task);
    assert(tasks.push(e).drop_last() =~= tasks);
}

proof fn lemma_sorted_insert_sorted(s: Seq<TaskQueueEntry>, e: TaskQueueEntry)
    requires
        sorted_by_start(s),
    ensures
        sorted_by_start(sorted_insert(s, e)),
        sorted_insert(s, e).to_multiset() == s.to_multiset().insert(e),
    decreases s.len(),
{
    broadcast use vstd::seq_lib::group_seq_properties;
    if s.len() == 0 {
        assert(seq![e].to_multiset() =~= Seq::<TaskQueueEntry>::empty().to_multiset().insert(e));
    } else if s.last().start <= e.start {
        assert(s.push(e).to_multiset() =~= s.to_multiset().insert(e));
    } else {
        let rest = s.drop_last();
        assert(sorted_by_start(rest));
        lemma_sorted_insert_sorted(rest, e);
        let r = sorted_insert(rest, e);
        assert(s =~= rest.push(s.last()));
        assert forall|i: int, j: int| 0 <= i <= j < r.push(s.last()).len() implies r.push(s.last())[i].start
            <= r.push(s.last())[j].start by {
            if j == r.len() && i < r.len() {
                // every element of r is e or an element of rest, all starting no later than s.last()
                assert(r.to_multiset().count(r[i]) > 0);
                assert(rest.to_multiset().insert(e).count(r[i]) > 0);
                if r[i] != e {
                    assert(rest.to_multiset().count(r[i]) > 0);
                    assert(rest.contains(r[i]));
                    let k = choose|k: int| 0 <= k < rest.len() && rest[k] == r[i];
                    assert(s[k] == rest[k]);
                    assert(s[s.len() - 1] == s.last());
                }
            }
        }
        assert(r.push(s.last()).to_multiset() =~= r.to_multiset().insert(s.last()));
        assert(s.to_multiset() =~= rest.to_multiset().insert(s.last()));
    }
}

/// Sorting by start day orders the entries and keeps exactly the same entries.
pub proof fn lemma_stable_sort_orders(s: Seq<TaskQueueEntry>)
    ensures
        sorted_by_start(stable_sort_by_start(s)),
        stable_sort_by_start(s).to_multiset() == s.to_multiset(),
    decreases s.len(),
{
    broadcast use vstd::seq_lib::group_seq_properties;
    if s.len() > 0 {
        lemma_stable_sort_orders(s.drop_last());
        lemma_sorted_insert_sorted(stable_sort_by_start(s.drop_last()), s.last());
        assert(s =~= s.drop_last().push(s.last()));
        assert(s.to_multiset() =~= s.drop_last().to_multiset().insert(s.last()));
    }
}

/// A successful push schedules the task on the chosen resource, no earlier than the queue
/// is free and than each of its scheduled dependencies ends, and leaves the other queues
/// as they were.
pub proof fn lemma_push_task_places(qs: Seq<QueueView>, rid: ResourceId, task: TaskView)
    requires
        rid.0 < qs.len(),
        ends_fit(solution_entries(qs)),
        push_task_result(qs, rid, task) is Ok,
    ensures
        ({
            let (qs2, start) = push_task_result(qs, rid, task)->Ok_0;
            &&& qs2.len() == qs.len()
            &&& forall|i: int| 0 <= i < qs.len() && i != rid.0 ==> #[trigger] qs2[i] == qs[i]
            &&& qs2[rid.0 as int].assignee == qs[rid.0 as int].assignee
            &&& qs2[rid.0 as int].tasks.to_multiset() == qs[rid.0 as int].tasks.to_multiset().insert(entry_for(start, task))
            &&& is_scheduled(qs2, task.id)
            &&& start >= queue_duration(qs[rid.0 as int].tasks)
            &&& forall|k: int|
                0 <= k < solution_entries(qs).len() && task.dependencies.contains(
                    (#[trigger] solution_entries(qs)[k]).id,
                ) ==> entry_end(solution_entries(qs)[k]) <= start
            &&& forall|k: int|
                0 <= k < task.dependencies.len() ==> is_scheduled(qs, #[trigger] task.dependencies[k])
        }),
{
    broadcast use vstd::seq_lib::group_seq_properties;
    let (qs2, start) = push_task_result(qs, rid, task)->Ok_0;
    let r = rid.0 as int;
    let q = qs[r];
    let e = entry_for(start, task);
    let sorted = stable_sort_by_start(q.tasks.push(e));
    lemma_stable_sort_orders(q.tasks.push(e));
    assert(q.tasks.push(e).to_multiset() =~= q.tasks.to_multiset().insert(e));
    assert(sorted.to_multiset().count(e) > 0);
    assert(sorted.contains(e));
    let k = choose|k: int| 0 <= k < sorted.len() && sorted[k] == e;
    lemma_entry_in_solution(qs2, r, k);
    let j = solution_entries(qs2.take(r)).len() + k;
    assert(solution_entries(qs2)[j].id == task.id);
    let es = solution_entries(qs);
    lemma_deps_complete_fits(es, task.dependencies);
    lemma_queue_duration_props(q.tasks);
    if q.tasks.len() > 0 {
        let k = choose|k: int| 0 <= k < q.tasks.len() && queue_duration(q.tasks) == entry_end(#[trigger] q.tasks[k]);
        lemma_entry_in_solution(qs, r, k);
        assert(solution_entries(qs)[solution_entries(qs.take(r)).len() + k] == q.tasks[k]);
    }
    assert(start as int == push_start(qs, rid, task));
    assert forall|k2: int|
        0 <= k2 < es.len() && task.dependencies.contains((#[trigger] es[k2]).id) implies entry_end(es[k2])
        <= start by {
        lemma_deps_complete_ge_at(es, task.dependencies, k2);
    }
}

/// The latest dependency end is `None` exactly when no entry is for a dependency; otherwise it
/// is the end of an entry for a dependency, and no entry for a dependency ends later.
pub proof fn lemma_deps_complete_latest(es: Seq<TaskQueueEntry>, deps: Seq<TaskId>)
    ensures
        deps_complete(es, deps) is None <==> forall|k: int| 0 <= k < es.len() ==> !deps.contains(
            (#[trigger] es[k]).id,
        ),
        deps_complete(es, deps) matches Some(m) ==> exists|k: int|
            0 <= k < es.len() && deps.contains((#[trigger] es[k]).id) && entry_end(es[k]) == m,
        deps_complete(es, deps) matches Some(m) ==> forall|k: int|
            0 <= k < es.len() && deps.contains((#[trigger] es[k]).id) ==> entry_end(es[k]) <= m,
    decreases es.len(),
{
    if es.len() > 0 {
        let rest = es.drop_last();
        let n = es.len() - 1;
        lemma_deps_complete_latest(rest, deps);
        assert(es[n] == es.last());
        assert forall|k: int| 0 <= k < n implies rest[k] == #[trigger] es[k] by {}
        match deps_complete(rest, deps) {
            Some(m) => {
                let k0 = choose|k: int| 0 <= k < rest.len() && deps.contains((#[trigger] rest[k]).id) && entry_end(rest[k]) == m;
                assert(es[k0] == rest[k0]);
            },
            None => {},
        }
        if deps_complete(es, deps) is None {
            assert forall|k: int| 0 <= k < es.len() implies !deps.contains((#[trigger] es[k]).id) by {
                if k < n {
                    assert(rest[k] == es[k]);
                }
            }
        }
    }
}

/// A successful push starts the task on the earliest day on which both its queue is free and
/// every entry for one of its dependencies has ended: the later of the queue's completion
/// day and the latest end of such an entry.
pub proof fn lemma_push_starts_earliest(qs: Seq<QueueView>, rid: ResourceId, task: TaskView)
    requires
        rid.0 < qs.len(),
        ends_fit(solution_entries(qs)),
        push_task_result(qs, rid, task) is Ok,
    ensures
        ({
            let start = push_task_result(qs, rid, task)->Ok_0.1;
            let es = solution_entries(qs);
            &&& start >= queue_duration(qs[rid.0 as int].tasks)
            &&& forall|k: int|
                0 <= k < es.len() && task.dependencies.contains((#[trigger] es[k]).id) ==> entry_end(es[k])
                    <= start
            &&& (start == queue_duration(qs[rid.0 as int].tasks) || exists|k: int|
                0 <= k < es.len() && task.dependencies.contains((#[trigger] es[k]).id) && entry_end(es[k])
                    == start)
        }),
{
    let es = solution_entries(qs);
    let q = qs[rid.0 as int];
    lemma_push_task_places(qs, rid, task);
    lemma_deps_complete_latest(es, task.dependencies);
    lemma_deps_complete_fits(es, task.dependencies);
    lemma_queue_duration_props(q.tasks);
    if q.tasks.len() > 0 {
        let k = choose|k: int| 0 <= k < q.tasks.len() && queue_duration(q.tasks) == entry_end(#[trigger] q.tasks[k]);
        lemma_entry_in_solution(qs, rid.0 as int, k);
        assert(es[solution_entries(qs.take(rid.0 as int)).len() + k] == q.tasks[k]);
    }
    assert(push_task_result(qs, rid, task)->Ok_0.1 as int == push_start(qs, rid, task));
}

/// Every entry whose task is among `deps` ends no later than the latest dependency end.
pub proof fn lemma_deps_complete_ge_at(es: Seq<TaskQueueEntry>, deps: Seq<TaskId>, j: int)
    requires
        0 <= j < es.len(),
        deps.contains(es[j].id),
    ensures
        deps_complete(es, deps) matches Some(m) && m >= entry_end(es[j]),
    decreases es.len(),
{
    if j < es.len() - 1 {
        assert(es.drop_last()[j] == es[j]);
        lemma_deps_complete_ge_at(es.drop_last(), deps, j);
    }
}

/// The duration of a solution with queues is the largest completion day of its queues.
pub proof fn lemma_solution_duration_max(qs: Seq<QueueView>)
    requires
        qs.len() > 0,
    ensures
        forall|i: int| 0 <= i < qs.len() ==> queue_duration(#[trigger] qs[i].tasks) <= solution_duration(qs),
        exists|i: int| 0 <= i < qs.len() && queue_duration(#[trigger] qs[i].tasks) == solution_duration(qs),
    decreases qs.len(),
{
    if qs.len() == 1 {
        assert(qs.drop_last().len() == 0);
        assert(solution_duration(qs.drop_last()) == 0);
        assert(qs[0] == qs.last());
        assert(queue_duration(qs[0].tasks) == solution_duration(qs));
        assert forall|i: int| 0 <= i < qs.len() implies queue_duration(#[trigger] qs[i].tasks) <= solution_duration(qs) by {
            assert(i == 0);
        }
    } else {
        let rest = qs.drop_last();
        lemma_solution_duration_max(rest);
        assert forall|i: int| 0 <= i < qs.len() implies queue_duration(#[trigger] qs[i].tasks) <= solution_duration(qs) by {
            if i < qs.len() - 1 {
                assert(rest[i] == qs[i]);
            }
        }
        if solution_duration(qs) == queue_duration(qs.last().tasks) {
            assert(qs[qs.len() - 1] == qs.last());
        } else {
            let i = choose|i: int| 0 <= i < rest.len() && queue_duration(#[trigger] rest[i].tasks) == solution_duration(rest);
            assert(rest[i] == qs[i]);
        }
    }
}


proof fn lemma_sorted_insert_work(s: Seq<TaskQueueEntry>, e: TaskQueueEntry)
    ensures
        queue_work(sorted_insert(s, e)) == queue_work(s) + e.days,
    decreases s.len(),
{
    if s.len() == 0 {
        assert(seq![e].drop_last() =~= Seq::<TaskQueueEntry>::empty());
        assert(seq![e].last() == e);
        assert(queue_work(Seq::<TaskQueueEntry>::empty()) == 0);
    } else if s.last().start <= e.start {
        assert(s.push(e).drop_last() =~= s);
        assert(s.push(e).last() == e);
    } else {
        lemma_sorted_insert_work(s.drop_last(), e);
        let r = sorted_insert(s.drop_last(), e);
        assert(r.push(s.last()).drop_last() =~= r);
        assert(r.push(s.last()).last() == s.last());
        assert(sorted_insert(s, e) == r.push(s.last()));
    }
}

/// Sorting by start day keeps the work of a queue.
pub proof fn lemma_stable_sort_work(s: Seq<TaskQueueEntry>)
    ensures
        queue_work(stable_sort_by_start(s)) == queue_work(s),
    decreases s.len(),
{
    if s.len() > 0 {
        lemma_stable_sort_work(s.drop_last());
        lemma_sorted_insert_work(stable_sort_by_start(s.drop_last()), s.last());
    }
}

/// The queue starts on day 0 and each entry starts the day the one before it ends.
pub open spec fn packed_from_start(s: Seq<TaskQueueEntry>) -> bool {
    &&& s.len() > 0 ==> s[0].start == 0
    &&& forall|k: int| 0 < k < s.len() ==> (#[trigger] s[k]).start == entry_end(s[k - 1])
}

/// In a completely packed queue the work equals the duration.
pub proof fn lemma_packed_work_is_duration(s: Seq<TaskQueueEntry>)
    requires
        packed_from_start(s),
    ensures
        queue_work(s) == queue_duration(s),
        s.len() > 0 ==> queue_duration(s) == entry_end(s.last()),
    decreases s.len(),
{
    if s.len() > 0 {
        let rest = s.drop_last();
        assert(packed_from_start(rest)) by {
            assert forall|k: int| 0 < k < rest.len() implies (#[trigger] rest[k]).start == entry_end(rest[k - 1]) by {
                assert(rest[k] == s[k] && rest[k - 1] == s[k - 1]);
            }
        }
        lemma_packed_work_is_duration(rest);
        if rest.len() > 0 {
            assert(s[s.len() - 1].start == entry_end(s[s.len() - 2]));
            assert(rest.last() == s[s.len() - 2]);
            assert(s.last() == s[s.len() - 1]);
        } else {
            assert(s.last() == s[0]);
        }
    }
}


/// Entries that never overlap: each ends no later than every later one starts.
pub open spec fn non_overlapping(s: Seq<TaskQueueEntry>) -> bool {
    forall|a: int, b: int| 0 <= a < b < s.len() ==> entry_end(#[trigger] s[a]) <= (#[trigger] s[b]).start
}

/// In a queue whose entries never overlap, the work is at most the duration.
pub proof fn lemma_work_at_most_duration(s: Seq<TaskQueueEntry>)
    requires
        non_overlapping(s),
    ensures
        queue_work(s) <= queue_duration(s),
    decreases s.len(),
{
    if s.len() > 0 {
        let rest = s.drop_last();
        assert(non_overlapping(rest)) by {
            assert forall|a: int, b: int| 0 <= a < b < rest.len() implies entry_end(#[trigger] rest[a]) <= (
            #[trigger] rest[b]).start by {
                assert(rest[a] == s[a] && rest[b] == s[b]);
            }
        }
        lemma_work_at_most_duration(rest);
        lemma_queue_duration_props(rest);
        if rest.len() > 0 {
            let k = choose|k: int| 0 <= k < rest.len() && queue_duration(rest) == entry_end(#[trigger] rest[k]);
            assert(rest[k] == s[k]);
            assert(entry_end(s[k]) <= s[s.len() - 1].start);
            assert(s[s.len() - 1] == s.last());
        }
    }
}

} // verus!
