use omnischedule::config::{Dependency, ProjectConfig, ResourceConfig, SizeConfig, TaskConfig, TaskResourceConfig};
use omnischedule::project::{Project, Solution, TaskId};
use omnischedule::solver::{is_sorted, is_sorted_by, ByValue, MiniMax, Score, SolveError, Solver};

fn example_config() -> ProjectConfig {
    let resource = |name: &str| ResourceConfig { name: name.into(), ..ResourceConfig::default() };
    let within = |list: &[&str]| TaskResourceConfig::In(list.iter().map(|s| s.to_string()).collect());
    ProjectConfig {
        resources: vec![resource("10x"), resource("Ops"), resource("Sr"), resource("Mid")],
        sizes: vec![("S".to_string(), 10), ("M".to_string(), 30), ("L".to_string(), 90)],
        tasks: vec![
            TaskConfig {
                name: "Task 1".into(),
                resource: within(&["10x"]),
                size: SizeConfig::Name("S".into()),
                dependencies: vec![Dependency::Name("Task 2".into()), Dependency::Name("Task 3".into())],
            },
            TaskConfig {
                name: "Task 2".into(),
                resource: within(&["Sr", "Mid"]),
                size: SizeConfig::Name("M".into()),
                dependencies: vec![],
            },
            TaskConfig {
                name: "Task 3".into(),
                resource: within(&["Sr", "Mid"]),
                size: SizeConfig::Name("L".into()),
                dependencies: vec![],
            },
        ],
    }
}

#[test]
fn solve_with_minimax() {
    let config = example_config();
    let project = Project::try_from(config).unwrap();
    let solution = MiniMax::new(3).solve(&project).unwrap();
    assert_eq!(project.tasks().len(), 3);
    assert_eq!(solution.task_entries().len(), 3);
    assert_eq!(solution.work(), 130);
    assert_eq!(solution.duration(), 100);
}

#[test]
fn solved_schedule_respects_dependencies_and_resources() {
    let project = Project::try_from(example_config()).unwrap();
    let solution = MiniMax::new(5).solve(&project).unwrap();
    let entries = solution.task_entries();
    for task in project.tasks() {
        let mine: Vec<_> = entries.iter().filter(|e| e.id == task.id).collect();
        assert_eq!(mine.len(), 1);
        for dep in &task.dependencies {
            let d = entries.iter().find(|e| e.id == *dep).unwrap();
            assert!(d.end() <= mine[0].start);
        }
    }
    for (i, queue) in solution.task_queues.iter().enumerate() {
        for entry in &queue.tasks {
            assert!(project.get_task(entry.id).resource_options.iter().any(|r| r.0 == i));
        }
        for pair in queue.tasks.windows(2) {
            assert!(pair[0].end() <= pair[1].start);
        }
    }
    let task1 = entries.iter().find(|e| e.id == TaskId(0)).unwrap();
    assert_eq!(task1.start, 90);
}

#[test]
fn joining_task_after_parallel_tasks_is_scheduled() {
    let tc = |n: &str, d: Vec<Dependency>| TaskConfig {
        name: n.into(),
        resource: TaskResourceConfig::default(),
        size: SizeConfig::Days(1),
        dependencies: d,
    };
    let config = ProjectConfig {
        resources: vec![ResourceConfig { name: "r".into(), count: 4 }],
        sizes: vec![],
        tasks: vec![
            tc("a", vec![]),
            tc("b", vec![]),
            tc("c", vec![]),
            tc("d", vec![]),
            tc("e", (0..4).map(Dependency::Index).collect()),
        ],
    };
    let project = Project::try_from(config).unwrap();
    let solution = MiniMax::new(5).solve(&project).unwrap();
    assert_eq!(solution.task_entries().len(), 5);
    assert_eq!(solution.work(), 5);
    assert_eq!(solution.duration(), 2);
}

#[test]
fn zero_depth_search_cannot_make_progress() {
    let project = Project::try_from(example_config()).unwrap();
    assert_eq!(MiniMax::new(0).solve(&project).unwrap_err(), SolveError::NotAllScheduled { scheduled: 0 });
}

#[test]
fn unsatisfiable_projects_fail() {
    let mut config = example_config();
    config.tasks[1].dependencies = vec![Dependency::Index(1)];
    let project = Project::try_from(config).unwrap();
    assert_eq!(MiniMax::new(3).solve(&project).unwrap_err(), SolveError::AllChildrenFailed);
}

#[test]
fn empty_project_solves_to_empty_schedule() {
    let config = ProjectConfig { resources: vec![], sizes: vec![], tasks: vec![] };
    let project = Project::try_from(config).unwrap();
    let solution = MiniMax::default().solve(&project).unwrap();
    assert_eq!(solution.task_queues.len(), 0);
}

#[test]
fn scores_compare_by_value() {
    // 10 + 10/5 = 12 and 12 + 12/11 > 13 > 12
    let a = Score { work: 10, duration: 5 };
    let b = Score { work: 12, duration: 11 };
    assert!(b.greater_than(&a));
    assert!(!a.greater_than(&b));
    // 6 + 6/3 = 8 = 4 + 4/1
    let c = Score { work: 6, duration: 3 };
    let d = Score { work: 4, duration: 1 };
    assert!(c.same_as(&d));
    assert!(!c.greater_than(&d));
    // 0 / 0 is 0, work over no duration is infinite
    let zero = Score { work: 0, duration: 0 };
    let inf = Score { work: 3, duration: 0 };
    assert!(zero.same_as(&Score { work: 0, duration: 7 }));
    assert!(inf.greater_than(&b));
    assert!(inf.same_as(&Score { work: 1, duration: 0 }));
    assert!(!inf.greater_than(&Score { work: 9, duration: 0 }));
    // large values are still compared exactly
    let big1 = Score { work: usize::MAX, duration: usize::MAX };
    let big2 = Score { work: usize::MAX, duration: usize::MAX - 1 };
    assert!(big2.greater_than(&big1));
}

#[test]
fn solver_score_of_solution() {
    let project = Project::try_from(example_config()).unwrap();
    let solution = MiniMax::new(3).solve(&project).unwrap();
    assert_eq!(MiniMax::new(3).score(&solution), Score { work: 130, duration: 100 });
}

#[test]
fn test_is_sorted() {
    let ordered: Vec<u16> = Vec::from_iter(0..100);
    let unordered = [3, 4, 1, 9, 8];
    assert!(is_sorted(ordered.as_slice(), |i| *i));
    assert!(!is_sorted(unordered.as_slice(), |i| *i));
}

#[test]
fn is_sorted_by_value() {
    let ordered: Vec<u16> = (0..100).collect();
    let unordered: Vec<u16> = vec![3, 4, 1, 9, 8];
    assert!(is_sorted_by(ordered.as_slice(), &ByValue));
    assert!(!is_sorted_by(unordered.as_slice(), &ByValue));
    let empty: [u8; 0] = [];
    assert!(is_sorted_by(&empty, &ByValue));
    assert!(is_sorted_by(&[2u8, 2, 2], &ByValue));
}

#[test]
fn is_sorted_edge_cases() {
    let empty: [u8; 0] = [];
    assert!(is_sorted(&empty, |i| *i));
    assert!(is_sorted(&[5u8], |i| *i));
    assert!(is_sorted(&[2u8, 2, 2], |i| *i));
    assert!(is_sorted(&[3i32, 2, 1], |i| -*i));
}

#[test]
fn round_and_search_of_same_depth_agree() {
    let project = Project::try_from(example_config()).unwrap();
    let root = Solution::new(project.resources());
    let minimax = MiniMax::new(2);
    for depth in 1..4 {
        let (round_best, kept) = minimax.par_minimax(&project, &root, depth).unwrap();
        let (search_value, _) = minimax.inner_minimax(&project, &root, depth);
        let own = minimax.score(&root);
        let expected = if round_best.greater_than(&own) { round_best } else { own };
        assert_eq!(search_value, expected);
        assert!(!kept.is_empty());
        for child in &kept {
            let (child_value, _) = minimax.inner_minimax(&project, child, depth - 1);
            assert!(child_value.same_as(&round_best));
        }
    }
}

#[test]
fn deeper_search_never_scores_lower() {
    let project = Project::try_from(example_config()).unwrap();
    let root = Solution::new(project.resources());
    let minimax = MiniMax::new(2);
    let own = minimax.score(&root);
    let mut last = minimax.inner_minimax(&project, &root, 0).0;
    assert!(!own.greater_than(&last));
    for depth in 1..4 {
        let value = minimax.inner_minimax(&project, &root, depth).0;
        assert!(!last.greater_than(&value));
        last = value;
    }
}
