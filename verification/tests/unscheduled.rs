use omnischedule::config::{ProjectConfig, ResourceConfig, SizeConfig, TaskConfig, TaskResourceConfig};
use omnischedule::project::{Project, ResourceId, Solution, TaskId};

fn project(n: usize) -> Project {
    let tasks = (0..n)
        .map(|i| TaskConfig {
            name: format!("t{i}"),
            resource: TaskResourceConfig::default(),
            size: SizeConfig::Days(i + 1),
            dependencies: vec![],
        })
        .collect();
    Project::try_from(ProjectConfig {
        resources: vec![ResourceConfig { name: "r".into(), count: 2 }],
        sizes: vec![],
        tasks,
    })
    .unwrap()
}

#[test]
fn unscheduled_tasks_skip_scheduled_ones() {
    let project = project(4);
    let mut solution = Solution::new(project.resources());
    solution.push_task(ResourceId(0), project.get_task(TaskId(1))).unwrap();
    solution.push_task(ResourceId(1), project.get_task(TaskId(2))).unwrap();
    let mut it = project.unscheduled_tasks(&solution);
    assert_eq!(it.next().map(|t| t.id), Some(TaskId(0)));
    assert_eq!(it.next().map(|t| t.id), Some(TaskId(3)));
    assert!(it.next().is_none());
    assert!(it.next().is_none());
}
