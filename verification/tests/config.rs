use omnischedule::config::{
    tasks_from_config, ConfigError, Dependency, ProjectConfig, ResourceConfig, SizeConfig, TaskConfig,
    TaskResourceConfig,
};
use omnischedule::project::{Project, ResourceId, TaskId};

fn rc(name: &str, count: usize) -> ResourceConfig {
    ResourceConfig { name: name.into(), count }
}

fn tc(name: &str, resource: TaskResourceConfig, size: SizeConfig, deps: Vec<Dependency>) -> TaskConfig {
    TaskConfig { name: name.into(), resource, size, dependencies: deps }
}

fn names(list: &[&str]) -> Vec<String> {
    list.iter().map(|s| s.to_string()).collect()
}

fn base_config() -> ProjectConfig {
    ProjectConfig {
        resources: vec![rc("dev", 2), rc("ops", 1)],
        sizes: vec![("S".to_string(), 10), ("M".to_string(), 30)],
        tasks: vec![
            tc("a", TaskResourceConfig::In(names(&["dev"])), SizeConfig::Name("S".into()), vec![]),
            tc(
                "b",
                TaskResourceConfig::NotIn(names(&["dev"])),
                SizeConfig::Days(4),
                vec![Dependency::Name("a".into()), Dependency::Index(0)],
            ),
            tc("c", TaskResourceConfig::default(), SizeConfig::Name("M".into()), vec![Dependency::Index(1)]),
        ],
    }
}

#[test]
fn project_from_config_expands_resources_and_resolves_tasks() {
    let project = Project::try_from(base_config()).unwrap();
    let resources = project.resources();
    assert_eq!(resources.len(), 3);
    let rnames: Vec<&str> = resources.iter().map(|r| r.name.as_str()).collect();
    assert_eq!(rnames, vec!["dev", "dev", "ops"]);
    assert_eq!(resources[2].id, ResourceId(2));
    let tasks = project.tasks();
    assert_eq!(tasks.len(), 3);
    assert_eq!(tasks[0].days, 10);
    assert_eq!(tasks[0].resource_options, vec![ResourceId(0), ResourceId(1)]);
    assert_eq!(tasks[1].days, 4);
    assert_eq!(tasks[1].resource_options, vec![ResourceId(2)]);
    assert_eq!(tasks[1].dependencies, vec![TaskId(0), TaskId(0)]);
    assert_eq!(tasks[2].days, 30);
    assert_eq!(tasks[2].resource_options.len(), 3);
    assert_eq!(tasks[2].dependencies, vec![TaskId(1)]);
    assert_eq!(project.get_task(TaskId(2)).name, "c");
}

#[test]
fn tasks_from_config_matches_project() {
    let tasks = tasks_from_config(&base_config()).unwrap();
    assert_eq!(tasks.len(), 3);
    assert_eq!(tasks[1].id, TaskId(1));
}

#[test]
fn unknown_size_is_rejected() {
    let mut config = base_config();
    config.tasks[2].size = SizeConfig::Name("XL".into());
    match Project::try_from(config) {
        Err(ConfigError::InvalidSize { task }) => assert_eq!(task, 2),
        other => panic!("unexpected {:?}", other.map(|_| ())),
    }
}

#[test]
fn unknown_dependencies_are_rejected() {
    let mut config = base_config();
    config.tasks[0].dependencies = vec![Dependency::Index(0), Dependency::Name("zzz".into()), Dependency::Index(9)];
    match Project::try_from(config) {
        Err(ConfigError::InvalidDependency { task, dependency: Dependency::Name(n) }) => {
            assert_eq!(task, 0);
            assert_eq!(n, "zzz");
        },
        other => panic!("unexpected {:?}", other.map(|_| ())),
    }
    let mut config = base_config();
    config.tasks[2].dependencies = vec![Dependency::Index(3)];
    match Project::try_from(config) {
        Err(ConfigError::InvalidDependency { task, dependency: Dependency::Index(i) }) => {
            assert_eq!(task, 2);
            assert_eq!(i, 3);
        },
        other => panic!("unexpected {:?}", other.map(|_| ())),
    }
}

#[test]
fn tasks_without_resources_are_rejected() {
    let mut config = base_config();
    config.tasks[1].resource = TaskResourceConfig::In(names(&["qa"]));
    match Project::try_from(config) {
        Err(ConfigError::NoMatchingResources { task }) => assert_eq!(task, 1),
        other => panic!("unexpected {:?}", other.map(|_| ())),
    }
}

#[test]
fn first_error_wins() {
    let mut config = base_config();
    config.tasks[1].resource = TaskResourceConfig::In(names(&["qa"]));
    config.tasks[2].size = SizeConfig::Name("XL".into());
    match Project::try_from(config) {
        Err(ConfigError::NoMatchingResources { task }) => assert_eq!(task, 1),
        other => panic!("unexpected {:?}", other.map(|_| ())),
    }
}

#[test]
fn add_resource_adds_exactly_count() {
    let mut config = base_config();
    config.add_resource("dev", 3);
    assert_eq!(config.resources.len(), 2);
    assert_eq!(config.resources[0].count, 5);
    assert_eq!(config.resources[1].count, 1);
    config.add_resource("qa", 1);
    assert_eq!(config.resources.len(), 3);
    assert_eq!(config.resources[2].name, "qa");
    assert_eq!(config.resources[2].count, 1);
    let project = Project::try_from(config).unwrap();
    assert_eq!(project.resources().len(), 7);
}

#[test]
fn add_resource_to_single_kind() {
    let mut config = ProjectConfig { resources: vec![rc("a", 1)], sizes: vec![], tasks: vec![] };
    config.add_resource("a", 2);
    let project = Project::try_from(config).unwrap();
    assert_eq!(project.resources().len(), 3);
}

#[test]
fn resource_specifications_parse() {
    let r = ResourceConfig::parse("dev=3").unwrap();
    assert_eq!(r.name, "dev");
    assert_eq!(r.count, 3);
    let r: ResourceConfig = "ops=+12".parse().unwrap();
    assert_eq!(r.name, "ops");
    assert_eq!(r.count, 12);
    let r = ResourceConfig::parse("=0").unwrap();
    assert_eq!(r.name, "");
    assert_eq!(r.count, 0);
    for bad in ["dev", "dev=", "dev=+", "dev=-1", "dev=x", "a=b=2", "dev= 3", "dev=99999999999999999999999999"] {
        assert!(matches!(ResourceConfig::parse(bad), Err(ConfigError::InvalidResourceSpecification)), "{bad}");
    }
}

#[test]
fn resource_config_defaults() {
    let r = ResourceConfig::default();
    assert_eq!(r.name, "");
    assert_eq!(r.count, 1);
    assert!(matches!(TaskResourceConfig::default(), TaskResourceConfig::NotIn(l) if l.is_empty()));
}
