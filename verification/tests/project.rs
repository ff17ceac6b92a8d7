use omnischedule::project::{Project, Resource, ResourceId, ScheduleError, Solution, Task, TaskId, TaskQueue};

fn resource(id: usize, name: &str) -> Resource {
    Resource { id: ResourceId(id), name: name.into() }
}

fn task(id: usize, days: usize, options: Vec<usize>, deps: Vec<usize>) -> Task {
    Task {
        id: TaskId(id),
        days,
        name: format!("{}", id),
        resource_options: options.into_iter().map(ResourceId).collect(),
        dependencies: deps.into_iter().map(TaskId).collect(),
    }
}

#[test]
fn test_task_queue() {
    let mut queue = TaskQueue::new(&Resource {
        id: ResourceId(0),
        name: "foo".into(),
    });
    assert_eq!(queue.duration(), 0);
    assert_eq!(queue.work(), 0);
    let task1 = Task {
        id: TaskId(1),
        days: 30,
        name: "1".into(),
        resource_options: vec![],
        dependencies: vec![],
    };
    let task2 = Task {
        id: TaskId(2),
        days: 60,
        name: "2".into(),
        resource_options: vec![],
        dependencies: vec![],
    };
    queue.push(&task1);
    assert_eq!(queue.duration(), 30);
    assert_eq!(queue.work(), 30);
    queue.push(&task2);
    assert_eq!(queue.duration(), 90);
    assert_eq!(queue.work(), 90);
}

#[test]
fn test_solution() {
    let task1 = Task {
        id: TaskId(1),
        days: 30,
        name: "1".into(),
        resource_options: vec![],
        dependencies: vec![],
    };
    let task2 = Task {
        id: TaskId(2),
        days: 60,
        name: "2".into(),
        resource_options: vec![],
        dependencies: vec![],
    };
    let mut solution = Solution::new(&[
        Resource {
            id: ResourceId(0),
            name: "foo".into(),
        },
        Resource {
            id: ResourceId(1),
            name: "bar".into(),
        },
    ]);
    solution.task_queues[0].push(&task1);
    solution.task_queues[1].push(&task2);
    let task3 = Task {
        id: TaskId(2),
        days: 60,
        name: "2".into(),
        resource_options: vec![],
        dependencies: vec![],
    };
    let mut solution2 = solution.clone();
    solution2.task_queues[0].push(&task3);
    assert_eq!(solution2.duration(), 90);
    assert_eq!(solution2.work(), 150);
    assert_eq!(solution.duration(), 60);
    assert_eq!(solution.work(), 90);
}

#[test]
fn entry_end_is_start_plus_days() {
    let mut queue = TaskQueue::new(&resource(0, "a"));
    queue.insert(7, &task(0, 5, vec![0], vec![]));
    assert_eq!(queue.tasks[0].start, 7);
    assert_eq!(queue.tasks[0].end(), 12);
    assert_eq!(queue.tasks[0].label, "0");
}

#[test]
fn insert_orders_entries_by_start_day() {
    let mut queue = TaskQueue::new(&resource(0, "a"));
    queue.insert(20, &task(0, 5, vec![], vec![]));
    queue.insert(3, &task(1, 5, vec![], vec![]));
    queue.insert(20, &task(2, 1, vec![], vec![]));
    queue.insert(10, &task(3, 1, vec![], vec![]));
    let order: Vec<usize> = queue.tasks.iter().map(|e| e.id.0).collect();
    assert_eq!(order, vec![1, 3, 0, 2]);
    let starts: Vec<usize> = queue.tasks.iter().map(|e| e.start).collect();
    assert_eq!(starts, vec![3, 10, 20, 20]);
    // duration is the latest end, not the end of the last entry
    assert_eq!(queue.duration(), 25);
    assert_eq!(queue.work(), 12);
}

#[test]
fn duration_is_latest_end() {
    let mut queue = TaskQueue::new(&resource(0, "a"));
    queue.insert(0, &task(0, 100, vec![], vec![]));
    queue.insert(10, &task(1, 5, vec![], vec![]));
    assert_eq!(queue.duration(), 100);
    assert_eq!(queue.work(), 105);
}

#[test]
fn packed_queue_work_is_duration() {
    let mut queue = TaskQueue::new(&resource(0, "a"));
    for (i, days) in [4usize, 0, 7, 2].iter().enumerate() {
        queue.push(&task(i, *days, vec![], vec![]));
    }
    assert_eq!(queue.work(), 13);
    assert_eq!(queue.duration(), 13);
}

#[test]
fn push_appends_at_queue_end() {
    let mut queue = TaskQueue::new(&resource(0, "a"));
    queue.insert(10, &task(0, 5, vec![], vec![]));
    queue.push(&task(1, 4, vec![], vec![]));
    assert_eq!(queue.tasks[1].start, 15);
    assert_eq!(queue.duration(), 19);
    assert_eq!(queue.work(), 9);
}

#[test]
fn solution_duration_is_latest_queue() {
    let mut solution = Solution::new(&[resource(0, "a"), resource(1, "b"), resource(2, "c")]);
    solution.task_queues[1].push(&task(0, 8, vec![], vec![]));
    solution.task_queues[2].push(&task(1, 3, vec![], vec![]));
    assert_eq!(solution.duration(), 8);
    assert_eq!(solution.work(), 11);
    assert_eq!(solution.task_entries().len(), 2);
    assert_eq!(solution.task_entries()[0].id, TaskId(0));
    assert_eq!(solution.task_entries()[1].id, TaskId(1));
}

#[test]
fn push_task_starts_after_queue_and_dependencies() {
    let mut solution = Solution::new(&[resource(0, "a"), resource(1, "b")]);
    let t0 = task(0, 10, vec![0], vec![]);
    let t1 = task(1, 4, vec![1], vec![]);
    let t2 = task(2, 3, vec![1], vec![0]);
    assert_eq!(solution.push_task(ResourceId(0), &t0), Ok(0));
    assert_eq!(solution.push_task(ResourceId(1), &t1), Ok(0));
    assert_eq!(solution.dependencies_complete(&t2), Some(10));
    // queue b is free on day 4, but the dependency ends on day 10
    assert_eq!(solution.push_task(ResourceId(1), &t2), Ok(10));
    assert_eq!(solution.task_queues[1].tasks[1].start, 10);
    assert_eq!(solution.duration(), 13);
    assert!(solution.has_task(TaskId(2)));
}

#[test]
fn push_task_rejections_leave_solution_unchanged() {
    let mut solution = Solution::new(&[resource(0, "a"), resource(5, "b")]);
    let t0 = task(0, 10, vec![0], vec![]);
    let t1 = task(1, 4, vec![0, 1], vec![7]);
    assert_eq!(
        solution.push_task(ResourceId(1), &t0),
        Err(ScheduleError::AssigneeMismatch { resource: ResourceId(1) })
    );
    let mut fixed = Solution::new(&[resource(0, "a"), resource(1, "b")]);
    assert_eq!(
        fixed.push_task(ResourceId(1), &t0),
        Err(ScheduleError::InvalidResourceAssignment { resource: ResourceId(1), task: TaskId(0) })
    );
    assert_eq!(
        fixed.push_task(ResourceId(0), &t1),
        Err(ScheduleError::DependenciesNotScheduled { task: TaskId(1) })
    );
    assert_eq!(fixed.task_entries().len(), 0);
    assert_eq!(solution.task_entries().len(), 0);
}

#[test]
fn dependencies_complete_without_scheduled_dependencies() {
    let mut solution = Solution::new(&[resource(0, "a")]);
    solution.task_queues[0].push(&task(0, 6, vec![0], vec![]));
    assert_eq!(solution.dependencies_complete(&task(1, 1, vec![0], vec![])), None);
    assert_eq!(solution.dependencies_complete(&task(2, 1, vec![0], vec![3])), None);
    assert_eq!(solution.dependencies_complete(&task(3, 1, vec![0], vec![0])), Some(6));
}

#[test]
fn resource_and_task_equality_compare_ids() {
    assert!(resource(1, "x") == resource(1, "y"));
    assert!(resource(1, "x") != resource(2, "x"));
    assert!(task(1, 1, vec![], vec![]) == task(1, 9, vec![0], vec![]));
    assert!(task(1, 1, vec![], vec![]) != task(2, 1, vec![], vec![]));
}

#[allow(dead_code)]
fn unused(_: Project) {}

#[test]
fn queue_with_gaps_works_less_than_its_duration() {
    let mut queue = TaskQueue::new(&resource(0, "a"));
    queue.insert(0, &task(0, 2, vec![], vec![]));
    queue.insert(5, &task(1, 1, vec![], vec![]));
    queue.insert(6, &task(2, 3, vec![], vec![]));
    assert_eq!(queue.work(), 6);
    assert_eq!(queue.duration(), 9);
    assert!(queue.work() <= queue.duration());
}

#[test]
fn pushing_a_task_nothing_depends_on_again_keeps_the_rules() {
    let mut solution = Solution::new(&[resource(0, "a"), resource(1, "b")]);
    let t0 = task(0, 3, vec![0, 1], vec![]);
    let t1 = task(1, 2, vec![1], vec![0]);
    assert_eq!(solution.push_task(ResourceId(0), &t0), Ok(0));
    assert_eq!(solution.push_task(ResourceId(1), &t1), Ok(3));
    // t1 is scheduled already, and no entry depends on it
    assert_eq!(solution.push_task(ResourceId(1), &t1), Ok(5));
    let queue = &solution.task_queues[1];
    assert_eq!(queue.tasks.len(), 2);
    assert!(queue.tasks[0].end() <= queue.tasks[1].start);
    let dep_end = solution.task_queues[0].tasks[0].end();
    assert!(queue.tasks.iter().all(|e| dep_end <= e.start));
}
