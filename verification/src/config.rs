use vstd::prelude::*;

use crate::project::{project_wf, Project, ProjectView, Resource, ResourceId, Task, TaskId, TaskView};

verus! {

/// A kind of resource and how many of it the project has.
#[derive(Debug)]
pub struct ResourceConfig {
    pub name: String,
    pub count: usize,
}

impl Clone for ResourceConfig {
    fn clone(&self) -> (r: Self)
        ensures
            r == *self,
    {
        ResourceConfig { name: self.name.clone(), count: self.count }
    }
}

impl Default for ResourceConfig {
    fn default() -> (r: Self)
        ensures
            r.name@ == Seq::<char>::empty(),
            r.count == 1,
    {
        ResourceConfig { name: String::new(), count: 1 }
    }
}

/// A reference from one task to another, by name or by position.
#[derive(Debug)]
pub enum Dependency {
    Name(String),
    Index(usize),
}

impl Clone for Dependency {
    fn clone(&self) -> (r: Self)
        ensures
            r == *self,
    {
        match self {
            Dependency::Name(n) => Dependency::Name(n.clone()),
            Dependency::Index(i) => Dependency::Index(*i),
        }
    }
}

/// The size of a task: a named size or a number of days.
#[derive(Debug)]
pub enum SizeConfig {
    Name(String),
    Days(usize),
}

impl Clone for SizeConfig {
    fn clone(&self) -> (r: Self)
        ensures
            r == *self,
    {
        match self {
            SizeConfig::Name(n) => SizeConfig::Name(n.clone()),
            SizeConfig::Days(d) => SizeConfig::Days(*d),
        }
    }
}

/// The first size of the given name, if any.
pub open spec fn size_lookup(sizes: Seq<(String, usize)>, name: Seq<char>) -> Option<usize>
    decreases sizes.len(),
{
    if sizes.len() == 0 {
        None
    } else {
        match size_lookup(sizes.drop_last(), name) {
            Some(d) => Some(d),
            None => if sizes.last().0@ == name {
                Some(sizes.last().1)
            } else {
                None
            },
        }
    }
}

/// The number of days a size stands for, if it is known.
pub open spec fn size_days(size: SizeConfig, sizes: Seq<(String, usize)>) -> Option<usize> {
    match size {
        SizeConfig::Days(d) => Some(d),
        SizeConfig::Name(n) => size_lookup(sizes, n@),
    }
}

impl SizeConfig {
    fn days(&self, size_map: &Vec<(String, usize)>) -> (r: Option<usize>)
        ensures
            r == size_days(*self, size_map@),
    {
        match self {
            SizeConfig::Days(days) => Some(*days),
            SizeConfig::Name(name) => {
                let mut k: usize = 0;
                while k < size_map.len()
                    invariant
                        k <= size_map@.len(),
                        size_days(*self, size_map@) == size_lookup(size_map@, name@),
                        size_lookup(size_map@.take(k as int), name@) is None,
                    decreases size_map@.len() - k,
                {
                    proof {
                        assert(size_map@.take(k + 1).drop_last() =~= size_map@.take(k as int));
                        assert(size_map@.take(k + 1).last() == size_map@[k as int]);
                    }
                    if size_map[k].0 == *name {
                        proof {
                            lemma_size_lookup_prefix(size_map@, name@, k as int);
                        }
                        return Some(size_map[k].1);
                    }
                    k = k + 1;
                }
                proof {
                    assert(size_map@.take(k as int) =~= size_map@);
                }
                None
            },
        }
    }
}

proof fn lemma_size_lookup_prefix(sizes: Seq<(String, usize)>, name: Seq<char>, k: int)
    requires
        0 <= k < sizes.len(),
        size_lookup(sizes.take(k + 1), name) == Some(sizes[k].1),
    ensures
        size_lookup(sizes, name) == Some(sizes[k].1),
    decreases sizes.len(),
{
    if sizes.len() > k + 1 {
        assert(sizes.drop_last().take(k + 1) =~= sizes.take(k + 1));
        lemma_size_lookup_prefix(sizes.drop_last(), name, k);
    } else {
        assert(sizes.take(k + 1) =~= sizes);
    }
}

/// Which resources may do a task: those named in the list, or those not named in it.
#[derive(Debug, Clone)]
pub enum TaskResourceConfig {
    In(Vec<String>),
    NotIn(Vec<String>),
}

impl Default for TaskResourceConfig {
    fn default() -> (r: Self)
        ensures
            r matches TaskResourceConfig::NotIn(l) && l@.len() == 0,
    {
        TaskResourceConfig::NotIn(Vec::new())
    }
}

/// The names in a list of strings.
pub open spec fn name_views(l: Seq<String>) -> Seq<Seq<char>> {
    l.map_values(|s: String| s@)
}

/// Whether a resource of the given name may do a task with this selection.
pub open spec fn selects(sel: TaskResourceConfig, name: Seq<char>) -> bool {
    match sel {
        TaskResourceConfig::In(l) => name_views(l@).contains(name),
        TaskResourceConfig::NotIn(l) => !name_views(l@).contains(name),
    }
}

/// The positions, in order, of the resource names that the selection accepts.
pub open spec fn matching_resources(sel: TaskResourceConfig, names: Seq<Seq<char>>) -> Seq<ResourceId>
    decreases names.len(),
{
    if names.len() == 0 {
        Seq::empty()
    } else {
        let rest = matching_resources(sel, names.drop_last());
        if selects(sel, names.last()) {
            rest.push(ResourceId((names.len() - 1) as usize))
        } else {
            rest
        }
    }
}

/// A task as it is written in the project description.
#[derive(Debug, Clone)]
pub struct TaskConfig {
    pub name: String,
    pub resource: TaskResourceConfig,
    pub size: SizeConfig,
    pub dependencies: Vec<Dependency>,
}

/// The project description: resource kinds, named sizes and tasks.
#[derive(Debug)]
pub struct ProjectConfig {
    pub resources: Vec<ResourceConfig>,
    pub sizes: Vec<(String, usize)>,
    pub tasks: Vec<TaskConfig>,
}

/// Why a project description could not be turned into a project.
#[derive(Debug)]
pub enum ConfigError {
    /// There is no task at the position.
    TaskIndexOutOfBounds { index: usize },
    /// The task's size is neither a number of days nor a known size name.
    InvalidSize { task: usize },
    /// The dependency names no task of the project.
    InvalidDependency { task: usize, dependency: Dependency },
    /// No resource matches the task's resource selection.
    NoMatchingResources { task: usize },
    /// A resource specification is not of the form `<name>=<count>`.
    InvalidResourceSpecification,
}

/// No two sizes share a name: the sizes form a map from names to days.
pub open spec fn size_names_unique(sizes: Seq<(String, usize)>) -> bool {
    forall|i: int, j: int| 0 <= i < j < sizes.len() ==> (#[trigger] sizes[i]).0@ != (#[trigger] sizes[j]).0@
}

/// With unique names, looking a size up finds the one entry of that name, wherever it is.
pub proof fn lemma_size_lookup_is_map(sizes: Seq<(String, usize)>, name: Seq<char>)
    requires
        size_names_unique(sizes),
    ensures
        forall|i: int| 0 <= i < sizes.len() && (#[trigger] sizes[i]).0@ == name ==> size_lookup(sizes, name) == Some(sizes[i].1),
        (forall|i: int| 0 <= i < sizes.len() ==> (#[trigger] sizes[i]).0@ != name) ==> size_lookup(sizes, name) is None,
    decreases sizes.len(),
{
    if sizes.len() > 0 {
        let rest = sizes.drop_last();
        assert(size_names_unique(rest)) by {
            assert forall|i: int, j: int| 0 <= i < j < rest.len() implies (#[trigger] rest[i]).0@ != (#[trigger] rest[j]).0@ by {
                assert(rest[i] == sizes[i] && rest[j] == sizes[j]);
            }
        }
        lemma_size_lookup_is_map(rest, name);
        assert forall|i: int| 0 <= i < sizes.len() && (#[trigger] sizes[i]).0@ == name implies size_lookup(sizes, name)
            == Some(sizes[i].1) by {
            if i < rest.len() {
                assert(rest[i] == sizes[i]);
                assert(sizes[i].0@ != sizes[sizes.len() - 1].0@);
            } else {
                assert forall|k: int| 0 <= k < rest.len() implies (#[trigger] rest[k]).0@ != name by {
                    assert(rest[k] == sizes[k]);
                    assert(sizes[k].0@ != sizes[i].0@);
                }
            }
        }
        if forall|i: int| 0 <= i < sizes.len() ==> (#[trigger] sizes[i]).0@ != name {
            assert forall|k: int| 0 <= k < rest.len() implies (#[trigger] rest[k]).0@ != name by {
                assert(rest[k] == sizes[k]);
            }
            assert(sizes[sizes.len() - 1] == sizes.last());
        }
    }
}

/// One name per resource: each kind's name repeated as many times as its count.
pub open spec fn expand_resources(rs: Seq<ResourceConfig>) -> Seq<Seq<char>>
    decreases rs.len(),
{
    if rs.len() == 0 {
        Seq::empty()
    } else {
        expand_resources(rs.drop_last()) + Seq::new(rs.last().count as nat, |j: int| rs.last().name@)
    }
}

/// `list` holds one resource per expanded name, with its position as id.
pub open spec fn is_resource_list(list: Seq<Resource>, names: Seq<Seq<char>>) -> bool {
    &&& list.len() == names.len()
    &&& forall|i: int| 0 <= i < list.len() ==> (#[trigger] list[i]).id == ResourceId(i as usize) && list[i].name@ == names[i]
}

proof fn lemma_expand_take_len(rs: Seq<ResourceConfig>, k: int)
    requires
        0 <= k <= rs.len(),
    ensures
        expand_resources(rs.take(k)).len() <= expand_resources(rs).len(),
    decreases rs.len() - k,
{
    if k < rs.len() {
        lemma_expand_take_len(rs, k + 1);
        assert(rs.take(k + 1).drop_last() =~= rs.take(k));
    } else {
        assert(rs.take(k) =~= rs);
    }
}

/// The first task of the given name, if any.
pub open spec fn task_position(tasks: Seq<TaskConfig>, name: Seq<char>) -> Option<int>
    decreases tasks.len(),
{
    if tasks.len() == 0 {
        None
    } else {
        match task_position(tasks.drop_last(), name) {
            Some(i) => Some(i),
            None => if tasks.last().name@ == name {
                Some(tasks.len() - 1)
            } else {
                None
            },
        }
    }
}

/// The position of the task a dependency names, if it names one.
pub open spec fn resolve_dependency(tasks: Seq<TaskConfig>, dep: Dependency) -> Option<int> {
    let i = match dep {
        Dependency::Name(n) => task_position(tasks, n@),
        Dependency::Index(i) => Some(i as int),
    };
    match i {
        Some(j) => if j < tasks.len() {
            Some(j)
        } else {
            None
        },
        None => None,
    }
}

/// The first dependency that names no task, if any.
pub open spec fn first_invalid_dependency(tasks: Seq<TaskConfig>, deps: Seq<Dependency>) -> Option<Dependency>
    decreases deps.len(),
{
    if deps.len() == 0 {
        None
    } else {
        match first_invalid_dependency(tasks, deps.drop_last()) {
            Some(d) => Some(d),
            None => if resolve_dependency(tasks, deps.last()) is None {
                Some(deps.last())
            } else {
                None
            },
        }
    }
}

/// The tasks that the dependencies name.
pub open spec fn resolved_dependencies(tasks: Seq<TaskConfig>, deps: Seq<Dependency>) -> Seq<TaskId> {
    deps.map_values(|d: Dependency| TaskId(resolve_dependency(tasks, d)->0 as usize))
}

/// The task built from the description at `index`, or why it cannot be built.
pub open spec fn task_from_config(
    tasks: Seq<TaskConfig>,
    sizes: Seq<(String, usize)>,
    names: Seq<Seq<char>>,
    index: int,
) -> Result<TaskView, ConfigError> {
    if !(0 <= index < tasks.len()) {
        Err(ConfigError::TaskIndexOutOfBounds { index: index as usize })
    } else {
        let tc = tasks[index];
        match size_days(tc.size, sizes) {
            None => Err(ConfigError::InvalidSize { task: index as usize }),
            Some(days) => match first_invalid_dependency(tasks, tc.dependencies@) {
                Some(d) => Err(ConfigError::InvalidDependency { task: index as usize, dependency: d }),
                None => {
                    let options = matching_resources(tc.resource, names);
                    if options.len() == 0 {
                        Err(ConfigError::NoMatchingResources { task: index as usize })
                    } else {
                        Ok(
                            TaskView {
                                id: TaskId(index as usize),
                                name: tc.name,
                                resource_options: options,
                                days: days,
                                dependencies: resolved_dependencies(tasks, tc.dependencies@),
                            },
                        )
                    }
                },
            },
        }
    }
}

/// The first `k` tasks built from the description, or the first error.
pub open spec fn built_tasks(
    tasks: Seq<TaskConfig>,
    sizes: Seq<(String, usize)>,
    names: Seq<Seq<char>>,
    k: int,
) -> Result<Seq<TaskView>, ConfigError>
    decreases k,
{
    if k <= 0 {
        Ok(Seq::empty())
    } else {
        match built_tasks(tasks, sizes, names, k - 1) {
            Err(e) => Err(e),
            Ok(ts) => match task_from_config(tasks, sizes, names, k - 1) {
                Err(e) => Err(e),
                Ok(t) => Ok(ts.push(t)),
            },
        }
    }
}

/// The tasks of a project description, or the first error.
pub open spec fn project_tasks(config: ProjectConfig) -> Result<Seq<TaskView>, ConfigError> {
    built_tasks(
        config.tasks@,
        config.sizes@,
        expand_resources(config.resources@),
        config.tasks@.len() as int,
    )
}

/// The first resource kind of the given name, if any.
pub open spec fn resource_position(rs: Seq<ResourceConfig>, name: Seq<char>) -> Option<int>
    decreases rs.len(),
{
    if rs.len() == 0 {
        None
    } else {
        match resource_position(rs.drop_last(), name) {
            Some(i) => Some(i),
            None => if rs.last().name@ == name {
                Some(rs.len() - 1)
            } else {
                None
            },
        }
    }
}

proof fn lemma_resource_position_prefix(rs: Seq<ResourceConfig>, name: Seq<char>, k: int)
    requires
        0 <= k < rs.len(),
        resource_position(rs.take(k + 1), name) == Some(k),
    ensures
        resource_position(rs, name) == Some(k),
    decreases rs.len(),
{
    if rs.len() > k + 1 {
        assert(rs.drop_last().take(k + 1) =~= rs.take(k + 1));
        lemma_resource_position_prefix(rs.drop_last(), name, k);
    } else {
        assert(rs.take(k + 1) =~= rs);
    }
}

proof fn lemma_resource_position_bounds(rs: Seq<ResourceConfig>, name: Seq<char>)
    ensures
        resource_position(rs, name) matches Some(i) ==> 0 <= i < rs.len() && rs[i].name@ == name,
    decreases rs.len(),
{
    if rs.len() > 0 {
        lemma_resource_position_bounds(rs.drop_last(), name);
    }
}

fn find_resource(rs: &Vec<ResourceConfig>, name: &String) -> (r: Option<usize>)
    ensures
        r is None <==> resource_position(rs@, name@) is None,
        r matches Some(k) ==> resource_position(rs@, name@) == Some(k as int),
{
    let mut k: usize = 0;
    proof {
        lemma_resource_position_bounds(rs@, name@);
    }
    while k < rs.len()
        invariant
            k <= rs@.len(),
            resource_position(rs@.take(k as int), name@) is None,
        decreases rs@.len() - k,
    {
        proof {
            assert(rs@.take(k + 1).drop_last() =~= rs@.take(k as int));
            assert(rs@.take(k + 1).last() == rs@[k as int]);
        }
        if rs[k].name == *name {
            proof {
                lemma_resource_position_prefix(rs@, name@, k as int);
            }
            return Some(k);
        }
        k = k + 1;
    }
    proof {
        assert(rs@.take(k as int) =~= rs@);
    }
    None
}

impl ProjectConfig {
    /// One resource per unit of each resource kind, numbered in order.
    fn resource_list(&self) -> (r: Vec<Resource>)
        requires
            expand_resources(self.resources@).len() <= usize::MAX,
        ensures
            is_resource_list(r@, expand_resources(self.resources@)),
    {
        let ghost rs = self.resources@;
        let mut list: Vec<Resource> = Vec::new();
        let mut k: usize = 0;
        while k < self.resources.len()
            invariant
                k <= rs.len(),
                rs == self.resources@,
                expand_resources(rs).len() <= usize::MAX,
                is_resource_list(list@, expand_resources(rs.take(k as int))),
            decreases rs.len() - k,
        {
            let rc = &self.resources[k];
            let ghost before = expand_resources(rs.take(k as int));
            proof {
                assert(rs.take(k + 1).drop_last() =~= rs.take(k as int));
                assert(rs.take(k + 1).last() == *rc);
                lemma_expand_take_len(rs, k + 1);
            }
            let mut j: usize = 0;
            while j < rc.count
                invariant
                    j <= rc.count,
                    before.len() + rc.count <= usize::MAX,
                    is_resource_list(list@, before + Seq::new(j as nat, |x: int| rc.name@)),
                decreases rc.count - j,
            {
                let id: usize = list.len();
                list.push(Resource { id: ResourceId(id), name: rc.name.clone() });
                proof {
                    assert(before + Seq::new((j + 1) as nat, |x: int| rc.name@) =~= (before + Seq::new(
                        j as nat,
                        |x: int| rc.name@,
                    )).push(rc.name@));
                }
                j = j + 1;
            }
            k = k + 1;
        }
        proof {
            assert(rs.take(k as int) =~= rs);
        }
        list
    }

    /// Add `count` resources named `name`: the first kind of that name grows by `count`, or,
    /// when there is none, a new kind of that name and count is appended.
    pub fn add_resource(&mut self, name: &str, count: usize)
        requires
            resource_position(old(self).resources@, name@) matches Some(i) ==> old(self).resources@[i].count
                + count <= usize::MAX,
        ensures
            final(self).sizes == old(self).sizes,
            final(self).tasks == old(self).tasks,
            match resource_position(old(self).resources@, name@) {
                Some(i) => final(self).resources@ == old(self).resources@.update(
                    i,
                    ResourceConfig { name: old(self).resources@[i].name, count: (old(self).resources@[i].count + count) as usize },
                ),
                None => final(self).resources@.len() == old(self).resources@.len() + 1
                    && final(self).resources@.drop_last() == old(self).resources@
                    && final(self).resources@.last().name@ == name@
                    && final(self).resources@.last().count == count,
            },
            name_total(final(self).resources@, name@) == name_total(old(self).resources@, name@) + count,
            forall|other: Seq<char>| other != name@ ==> #[trigger] name_total(final(self).resources@, other) == name_total(old(self).resources@, other),
    {
        let ghost old_rs = self.resources@;
        proof {
            lemma_resource_position_bounds(self.resources@, name@);
        }
        let resource = ResourceConfig { name: name.to_owned(), count };
        match find_resource(&self.resources, &resource.name) {
            Some(k) => {
                let updated = ResourceConfig {
                    name: self.resources[k].name.clone(),
                    count: self.resources[k].count + resource.count,
                };
                self.resources.set(k, updated);
                proof {
                    assert forall|other: Seq<char>| #![all_triggers] true implies name_total(self.resources@, other) == name_total(old_rs, other)
                        + if other == name@ { count as int } else { 0 } by {
                        lemma_name_total_update(old_rs, k as int, self.resources@[k as int], other);
                    }
                }
            },
            None => {
                self.resources.push(resource);
                proof {
                    assert(self.resources@.drop_last() =~= old_rs);
                    assert forall|other: Seq<char>| #![all_triggers] true implies name_total(self.resources@, other) == name_total(old_rs, other)
                        + if other == name@ { count as int } else { 0 } by {}
                }
            },
        }
    }
}


/// The number of resources named `name` over all kinds.
pub open spec fn name_total(rs: Seq<ResourceConfig>, name: Seq<char>) -> int
    decreases rs.len(),
{
    if rs.len() == 0 {
        0
    } else {
        name_total(rs.drop_last(), name) + if rs.last().name@ == name {
            rs.last().count as int
        } else {
            0
        }
    }
}

proof fn lemma_name_total_update(rs: Seq<ResourceConfig>, k: int, r: ResourceConfig, name: Seq<char>)
    requires
        0 <= k < rs.len(),
        r.name@ == rs[k].name@,
    ensures
        name_total(rs.update(k, r), name) == name_total(rs, name) - (if rs[k].name@ == name {
            rs[k].count as int
        } else {
            0
        }) + (if r.name@ == name {
            r.count as int
        } else {
            0
        }),
    decreases rs.len(),
{
    if k == rs.len() - 1 {
        assert(rs.update(k, r).drop_last() =~= rs.drop_last());
    } else {
        lemma_name_total_update(rs.drop_last(), k, r, name);
        assert(rs.update(k, r).drop_last() =~= rs.drop_last().update(k, r));
    }
}

/// The names of a list of resources.
pub open spec fn resource_names(rl: Seq<Resource>) -> Seq<Seq<char>> {
    rl.map_values(|r: Resource| r.name@)
}

proof fn lemma_first_invalid_prefix(tasks: Seq<TaskConfig>, deps: Seq<Dependency>, k: int)
    requires
        0 <= k < deps.len(),
        first_invalid_dependency(tasks, deps.take(k + 1)) == Some(deps[k]),
    ensures
        first_invalid_dependency(tasks, deps) == Some(deps[k]),
    decreases deps.len(),
{
    if deps.len() > k + 1 {
        assert(deps.drop_last().take(k + 1) =~= deps.take(k + 1));
        lemma_first_invalid_prefix(tasks, deps.drop_last(), k);
    } else {
        assert(deps.take(k + 1) =~= deps);
    }
}

proof fn lemma_valid_dependencies(tasks: Seq<TaskConfig>, deps: Seq<Dependency>)
    requires
        first_invalid_dependency(tasks, deps) is None,
    ensures
        forall|j: int| 0 <= j < deps.len() ==> (#[trigger] resolve_dependency(tasks, deps[j])) is Some,
    decreases deps.len(),
{
    if deps.len() > 0 {
        lemma_valid_dependencies(tasks, deps.drop_last());
        assert forall|j: int| 0 <= j < deps.len() implies (#[trigger] resolve_dependency(tasks, deps[j])) is Some by {
            if j < deps.len() - 1 {
                assert(deps.drop_last()[j] == deps[j]);
            } else {
                assert(deps[j] == deps.last());
            }
        }
    }
}

proof fn lemma_resolve_bounds(tasks: Seq<TaskConfig>, dep: Dependency)
    ensures
        resolve_dependency(tasks, dep) matches Some(x) ==> 0 <= x < tasks.len(),
{
    match dep {
        Dependency::Name(n) => lemma_task_position_bounds(tasks, n@),
        Dependency::Index(i) => {},
    }
}

proof fn lemma_task_position_bounds(tasks: Seq<TaskConfig>, name: Seq<char>)
    ensures
        task_position(tasks, name) matches Some(i) ==> 0 <= i < tasks.len() && tasks[i].name@ == name,
    decreases tasks.len(),
{
    if tasks.len() > 0 {
        lemma_task_position_bounds(tasks.drop_last(), name);
    }
}

proof fn lemma_task_position_prefix(tasks: Seq<TaskConfig>, name: Seq<char>, k: int)
    requires
        0 <= k < tasks.len(),
        task_position(tasks.take(k + 1), name) == Some(k),
    ensures
        task_position(tasks, name) == Some(k),
    decreases tasks.len(),
{
    if tasks.len() > k + 1 {
        assert(tasks.drop_last().take(k + 1) =~= tasks.take(k + 1));
        lemma_task_position_prefix(tasks.drop_last(), name, k);
    } else {
        assert(tasks.take(k + 1) =~= tasks);
    }
}

proof fn lemma_matching_bounds(sel: TaskResourceConfig, names: Seq<Seq<char>>)
    ensures
        forall|j: int|
            0 <= j < matching_resources(sel, names).len() ==> (#[trigger] matching_resources(sel, names)[j]).0
                < names.len(),
    decreases names.len(),
{
    if names.len() > 0 {
        lemma_matching_bounds(sel, names.drop_last());
        let rest = matching_resources(sel, names.drop_last());
        assert forall|j: int|
            0 <= j < matching_resources(sel, names).len() implies (#[trigger] matching_resources(sel, names)[j]).0
                < names.len() by {
            if j < rest.len() {
                assert(matching_resources(sel, names)[j] == rest[j]);
            }
        }
    }
}

/// A task's resource options are exactly the positions of the resources it may use: for a
/// list of names to use, those whose name is in the list; for a list of names to avoid,
/// those whose name is none of the names in the list. They come in order of position.
pub proof fn lemma_matching_resources_exact(sel: TaskResourceConfig, names: Seq<Seq<char>>)
    requires
        names.len() <= usize::MAX,
    ensures
        forall|i: int|
            #![trigger names[i]]
            0 <= i < names.len() ==> (matching_resources(sel, names).contains(ResourceId(i as usize)) <==> match sel {
                TaskResourceConfig::In(l) => exists|j: int| 0 <= j < l@.len() && (#[trigger] l@[j])@ == names[i],
                TaskResourceConfig::NotIn(l) => forall|j: int| 0 <= j < l@.len() ==> (#[trigger] l@[j])@ != names[i],
            }),
        forall|j: int| 0 <= j < matching_resources(sel, names).len() ==> (#[trigger] matching_resources(sel, names)[j]).0 < names.len(),
        forall|a: int, b: int|
            0 <= a < b < matching_resources(sel, names).len() ==> (#[trigger] matching_resources(sel, names)[a]).0
                < (#[trigger] matching_resources(sel, names)[b]).0,
    decreases names.len(),
{
    lemma_matching_bounds(sel, names);
    if names.len() > 0 {
        let rest_names = names.drop_last();
        let n = names.len() - 1;
        lemma_matching_resources_exact(sel, rest_names);
        let rest = matching_resources(sel, rest_names);
        let all = matching_resources(sel, names);
        lemma_matching_bounds(sel, rest_names);
        assert forall|i: int| #![trigger names[i]] 0 <= i < names.len() implies (all.contains(ResourceId(i as usize)) <==> match sel {
            TaskResourceConfig::In(l) => exists|j: int| 0 <= j < l@.len() && (#[trigger] l@[j])@ == names[i],
            TaskResourceConfig::NotIn(l) => forall|j: int| 0 <= j < l@.len() ==> (#[trigger] l@[j])@ != names[i],
        }) by {
            let name = names[i];
            let rule = match sel {
                TaskResourceConfig::In(l) => exists|j: int| 0 <= j < l@.len() && (#[trigger] l@[j])@ == name,
                TaskResourceConfig::NotIn(l) => forall|j: int| 0 <= j < l@.len() ==> (#[trigger] l@[j])@ != name,
            };
            match sel {
                TaskResourceConfig::In(l) => {
                    if name_views(l@).contains(name) {
                        let j = choose|j: int| 0 <= j < name_views(l@).len() && name_views(l@)[j] == name;
                        assert(l@[j]@ == name);
                    }
                    if rule {
                        let j = choose|j: int| 0 <= j < l@.len() && (#[trigger] l@[j])@ == name;
                        assert(name_views(l@)[j] == name);
                    }
                },
                TaskResourceConfig::NotIn(l) => {
                    if name_views(l@).contains(name) {
                        let j = choose|j: int| 0 <= j < name_views(l@).len() && name_views(l@)[j] == name;
                        assert(l@[j]@ == name);
                    }
                    if !rule {
                        let j = choose|j: int| 0 <= j < l@.len() && !((#[trigger] l@[j])@ != name);
                        assert(name_views(l@)[j] == name);
                    }
                },
            }
            assert(selects(sel, name) == rule);
            if i < n {
                assert(rest_names[i] == names[i]);
                if all.contains(ResourceId(i as usize)) {
                    let j = choose|j: int| 0 <= j < all.len() && all[j] == ResourceId(i as usize);
                    if j < rest.len() {
                        assert(rest[j] == all[j]);
                    }
                }
                if rest.contains(ResourceId(i as usize)) {
                    let j = choose|j: int| 0 <= j < rest.len() && rest[j] == ResourceId(i as usize);
                    assert(all[j] == rest[j]);
                }
            } else {
                assert(names.last() == name);
                if selects(sel, name) {
                    assert(all[all.len() - 1] == ResourceId(i as usize));
                } else if all.contains(ResourceId(i as usize)) {
                    let j = choose|j: int| 0 <= j < all.len() && all[j] == ResourceId(i as usize);
                    assert(rest[j] == all[j]);
                }
            }
        }
        assert forall|a: int, b: int|
            0 <= a < b < all.len() implies (#[trigger] all[a]).0 < (#[trigger] all[b]).0 by {
            if b < rest.len() {
                assert(all[a] == rest[a] && all[b] == rest[b]);
            } else {
                assert(all[a] == rest[a]);
            }
        }
    }
}

fn find_task(tasks: &Vec<TaskConfig>, name: &String) -> (r: Option<usize>)
    ensures
        r is None <==> task_position(tasks@, name@) is None,
        r matches Some(k) ==> task_position(tasks@, name@) == Some(k as int),
{
    let mut k: usize = 0;
    proof {
        lemma_task_position_bounds(tasks@, name@);
    }
    while k < tasks.len()
        invariant
            k <= tasks@.len(),
            task_position(tasks@.take(k as int), name@) is None,
        decreases tasks@.len() - k,
    {
        proof {
            assert(tasks@.take(k + 1).drop_last() =~= tasks@.take(k as int));
            assert(tasks@.take(k + 1).last() == tasks@[k as int]);
        }
        if tasks[k].name == *name {
            proof {
                lemma_task_position_prefix(tasks@, name@, k as int);
            }
            return Some(k);
        }
        k = k + 1;
    }
    proof {
        assert(tasks@.take(k as int) =~= tasks@);
    }
    None
}

fn contains_name(list: &Vec<String>, name: &String) -> (r: bool)
    ensures
        r == name_views(list@).contains(name@),
{
    let mut k: usize = 0;
    while k < list.len()
        invariant
            k <= list@.len(),
            forall|j: int| 0 <= j < k ==> list@[j]@ != name@,
        decreases list@.len() - k,
    {
        if list[k] == *name {
            proof {
                assert(name_views(list@)[k as int] == name@);
            }
            return true;
        }
        k = k + 1;
    }
    proof {
        if name_views(list@).contains(name@) {
            let j = choose|j: int| 0 <= j < name_views(list@).len() && name_views(list@)[j] == name@;
            assert(list@[j]@ == name@);
        }
    }
    false
}

fn selection_accepts(sel: &TaskResourceConfig, name: &String) -> (r: bool)
    ensures
        r == selects(*sel, name@),
{
    match sel {
        TaskResourceConfig::In(list) => contains_name(list, name),
        TaskResourceConfig::NotIn(list) => !contains_name(list, name),
    }
}

impl Task {
    /// The task described at `index`, with its resource options taken from `resource_list`.
    fn try_from_project_config(index: usize, config: &ProjectConfig, resource_list: &[Resource]) -> (r: Result<
        Self,
        ConfigError,
    >)
        ensures
            match task_from_config(config.tasks@, config.sizes@, resource_names(resource_list@), index as int) {
                Ok(v) => r matches Ok(t) && t@ == v,
                Err(e) => r matches Err(e2) && e2 == e,
            },
    {
        let ghost names = resource_names(resource_list@);
        if index >= config.tasks.len() {
            return Err(ConfigError::TaskIndexOutOfBounds { index });
        }
        let task_config = &config.tasks[index];
        let days: usize = match task_config.size.days(&config.sizes) {
            Some(d) => d,
            None => {
                return Err(ConfigError::InvalidSize { task: index });
            },
        };
        let ghost deps = task_config.dependencies@;
        let mut dependencies: Vec<TaskId> = Vec::with_capacity(task_config.dependencies.len());
        let mut k: usize = 0;
        while k < task_config.dependencies.len()
            invariant
                k <= deps.len(),
                deps == task_config.dependencies@,
                index < config.tasks@.len(),
                *task_config == config.tasks@[index as int],
                size_days(task_config.size, config.sizes@) == Some(days),
                first_invalid_dependency(config.tasks@, deps.take(k as int)) is None,
                dependencies@ == resolved_dependencies(config.tasks@, deps.take(k as int)),
            decreases deps.len() - k,
        {
            let dep = &task_config.dependencies[k];
            proof {
                assert(deps.take(k + 1).drop_last() =~= deps.take(k as int));
                assert(deps.take(k + 1).last() == *dep);
            }
            let found: Option<usize> = match dep {
                Dependency::Name(name) => {
                    proof {
                        lemma_task_position_bounds(config.tasks@, name@);
                    }
                    find_task(&config.tasks, name)
                },
                Dependency::Index(i) => Some(*i),
            };
            let valid: bool = match found {
                Some(i) => i < config.tasks.len(),
                None => false,
            };
            if !valid {
                proof {
                    assert(resolve_dependency(config.tasks@, *dep) is None);
                    lemma_first_invalid_prefix(config.tasks@, deps, k as int);
                }
                return Err(ConfigError::InvalidDependency { task: index, dependency: dep.clone() });
            }
            let i: usize = match found {
                Some(i) => i,
                None => 0,
            };
            dependencies.push(TaskId(i));
            proof {
                assert(resolve_dependency(config.tasks@, *dep) == Some(i as int));
                assert(dependencies@ =~= resolved_dependencies(config.tasks@, deps.take(k + 1)));
            }
            k = k + 1;
        }
        proof {
            assert(deps.take(k as int) =~= deps);
        }
        let mut resource_options: Vec<ResourceId> = Vec::with_capacity(resource_list.len());
        let mut i: usize = 0;
        while i < resource_list.len()
            invariant
                i <= resource_list@.len(),
                names == resource_names(resource_list@),
                index < config.tasks@.len(),
                *task_config == config.tasks@[index as int],
                size_days(task_config.size, config.sizes@) == Some(days),
                first_invalid_dependency(config.tasks@, deps) is None,
                dependencies@ == resolved_dependencies(config.tasks@, deps),
                deps == task_config.dependencies@,
                resource_options@ == matching_resources(task_config.resource, names.take(i as int)),
            decreases resource_list@.len() - i,
        {
            proof {
                assert(names.take(i + 1).drop_last() =~= names.take(i as int));
                assert(names.take(i + 1).last() == resource_list@[i as int].name@);
            }
            if selection_accepts(&task_config.resource, &resource_list[i].name) {
                resource_options.push(ResourceId(i));
            }
            i = i + 1;
        }
        proof {
            assert(names.take(i as int) =~= names);
        }
        if resource_options.len() == 0 {
            return Err(ConfigError::NoMatchingResources { task: index });
        }
        Ok(
            Task {
                id: TaskId(index),
                name: task_config.name.clone(),
                resource_options,
                days,
                dependencies,
            },
        )
    }
}

proof fn lemma_built_tasks(
    tasks: Seq<TaskConfig>,
    sizes: Seq<(String, usize)>,
    names: Seq<Seq<char>>,
    k: int,
)
    requires
        0 <= k <= tasks.len(),
        built_tasks(tasks, sizes, names, k) is Ok,
    ensures
        built_tasks(tasks, sizes, names, k)->Ok_0.len() == k,
        forall|i: int|
            0 <= i < k ==> (#[trigger] task_from_config(tasks, sizes, names, i)) is Ok
                && built_tasks(tasks, sizes, names, k)->Ok_0[i] == task_from_config(
                tasks,
                sizes,
                names,
                i,
            )->Ok_0,
    decreases k,
{
    if k > 0 {
        lemma_built_tasks(tasks, sizes, names, k - 1);
    }
}

/// The tasks of a project description, or the first task that cannot be built.
pub fn tasks_from_config(config: &ProjectConfig) -> (r: Result<Vec<Task>, ConfigError>)
    requires
        expand_resources(config.resources@).len() <= usize::MAX,
    ensures
        match project_tasks(*config) {
            Ok(ts) => r matches Ok(v) && v@.map_values(|t: Task| t@) == ts,
            Err(e) => r matches Err(e2) && e2 == e,
        },
{
    let resource_list = config.resource_list();
    let ghost names = expand_resources(config.resources@);
    proof {
        assert(resource_names(resource_list@) =~= names);
    }
    let mut tasks: Vec<Task> = Vec::with_capacity(config.tasks.len());
    let mut i: usize = 0;
    while i < config.tasks.len()
        invariant
            i <= config.tasks@.len(),
            resource_names(resource_list@) == names,
            names == expand_resources(config.resources@),
            built_tasks(config.tasks@, config.sizes@, names, i as int) matches Ok(ts) && tasks@.map_values(
                |t: Task| t@,
            ) == ts,
        decreases config.tasks@.len() - i,
    {
        match Task::try_from_project_config(i, config, resource_list.as_slice()) {
            Ok(t) => {
                let ghost before = tasks@.map_values(|t: Task| t@);
                tasks.push(t);
                proof {
                    assert(tasks@.map_values(|t: Task| t@) =~= before.push(t@));
                }
            },
            Err(e) => {
                proof {
                    lemma_tasks_from_config_err(config.tasks@, config.sizes@, names, i as int + 1, config.tasks@.len() as int);
                }
                return Err(e);
            },
        }
        i = i + 1;
    }
    Ok(tasks)
}

/// An error among the first tasks is the error of all tasks.
proof fn lemma_tasks_from_config_err(
    tasks: Seq<TaskConfig>,
    sizes: Seq<(String, usize)>,
    names: Seq<Seq<char>>,
    k: int,
    n: int,
)
    requires
        0 <= k <= n,
        built_tasks(tasks, sizes, names, k) is Err,
    ensures
        built_tasks(tasks, sizes, names, n) == built_tasks(tasks, sizes, names, k),
    decreases n - k,
{
    if n > k {
        lemma_tasks_from_config_err(tasks, sizes, names, k, n - 1);
    }
}

impl Project {
    /// Build a project from its description: one resource per unit of each resource kind,
    /// and one task per task description.
    pub fn try_from(value: ProjectConfig) -> (r: Result<Project, ConfigError>)
        requires
            expand_resources(value.resources@).len() <= usize::MAX,
        ensures
            match project_tasks(value) {
                Ok(ts) => r matches Ok(p) && p@.tasks == ts && is_resource_list(
                    p@.resources,
                    expand_resources(value.resources@),
                ),
                Err(e) => r matches Err(e2) && e2 == e,
            },
            r matches Ok(p) ==> project_wf(p@),
    {
        let tasks = tasks_from_config(&value)?;
        let resources = value.resource_list();
        let n_tasks: usize = tasks.len();
        let n_resources: usize = resources.len();
        let ghost names = expand_resources(value.resources@);
        proof {
            let ts = project_tasks(value)->Ok_0;
            lemma_built_tasks(value.tasks@, value.sizes@, names, value.tasks@.len() as int);
            let pv = ProjectView { resources: resources@, tasks: ts };
            assert(ts.len() == n_tasks);
            assert forall|i: int, k: int|
                0 <= i < ts.len() && 0 <= k < ts[i].resource_options.len() implies (
                #[trigger] ts[i].resource_options[k]).0 < resources@.len() by {
                let tc = value.tasks@[i];
                assert(task_from_config(value.tasks@, value.sizes@, names, i) is Ok);
                lemma_matching_bounds(tc.resource, names);
            }
            assert forall|i: int, k: int|
                0 <= i < ts.len() && 0 <= k < ts[i].dependencies.len() implies (
                #[trigger] ts[i].dependencies[k]).0 < ts.len() by {
                let tc = value.tasks@[i];
                assert(task_from_config(value.tasks@, value.sizes@, names, i) is Ok);
                lemma_valid_dependencies(value.tasks@, tc.dependencies@);
                assert(resolve_dependency(value.tasks@, tc.dependencies@[k]) is Some);
                lemma_resolve_bounds(value.tasks@, tc.dependencies@[k]);
            }
            assert forall|i: int| 0 <= i < ts.len() implies (#[trigger] ts[i]).id == TaskId(i as usize)
                && ts[i].resource_options.len() > 0 by {
                assert(task_from_config(value.tasks@, value.sizes@, names, i) is Ok);
            }
            assert(project_wf(pv));
        }
        Ok(Project::from_parts(resources, tasks))
    }
}


/// The first position of `c` in `s`, if any.
pub open spec fn char_position(s: Seq<char>, c: char) -> Option<int>
    decreases s.len(),
{
    if s.len() == 0 {
        None
    } else {
        match char_position(s.drop_last(), c) {
            Some(i) => Some(i),
            None => if s.last() == c {
                Some(s.len() - 1)
            } else {
                None
            },
        }
    }
}

/// Every character is an ASCII digit.
pub open spec fn all_digits(s: Seq<char>) -> bool {
    forall|i: int| 0 <= i < s.len() ==> '0' <= #[trigger] s[i] <= '9'
}

/// The number that a string of decimal digits writes.
pub open spec fn digits_value(s: Seq<char>) -> int
    decreases s.len(),
{
    if s.len() == 0 {
        0
    } else {
        digits_value(s.drop_last()) * 10 + (s.last() as int - '0' as int)
    }
}

/// The digit that writes `d`, for `d` from 0 to 9.
pub open spec fn digit_char(d: int) -> char {
    ('0' as int + d) as char
}

/// How `n` is written in decimal, with no leading zero.
pub open spec fn decimal(n: nat) -> Seq<char>
    decreases n,
{
    if n < 10 {
        seq![digit_char(n as int)]
    } else {
        decimal(n / 10).push(digit_char((n % 10) as int))
    }
}

/// Writing a digit after a string of digits multiplies its value by ten and adds the digit.
pub proof fn lemma_digits_value_push(s: Seq<char>, c: char)
    requires
        '0' <= c <= '9',
    ensures
        digits_value(s.push(c)) == 10 * digits_value(s) + (c as int - '0' as int),
{
    assert(s.push(c).drop_last() =~= s);
}

/// Digits followed by more digits are worth the first ones times ten to the number of the
/// others, plus the others.
pub proof fn lemma_digits_value_concat(s: Seq<char>, t: Seq<char>)
    ensures
        digits_value(s + t) == digits_value(s) * vstd::arithmetic::power::pow(10, t.len()) + digits_value(t),
    decreases t.len(),
{
    reveal(vstd::arithmetic::power::pow);
    if t.len() == 0 {
        assert(s + t =~= s);
        assert(vstd::arithmetic::power::pow(10, 0) == 1);
    } else {
        let t1 = t.drop_last();
        lemma_digits_value_concat(s, t1);
        assert((s + t).drop_last() =~= s + t1);
        assert((s + t).last() == t.last());
        let p1 = vstd::arithmetic::power::pow(10, t1.len());
        assert(vstd::arithmetic::power::pow(10, t.len()) == 10 * p1);
        let a = digits_value(s);
        let b = digits_value(t1);
        let c = t.last() as int - '0' as int;
        assert((a * p1 + b) * 10 + c == a * (10 * p1) + (b * 10 + c)) by (nonlinear_arith);
    }
}

/// The decimal writing of a number is a non-empty string of digits that reads back as the
/// number.
pub proof fn lemma_decimal_reads_back(n: nat)
    ensures
        decimal(n).len() > 0,
        all_digits(decimal(n)),
        digits_value(decimal(n)) == n,
    decreases n,
{
    if n < 10 {
        let c = digit_char(n as int);
        assert(c as int == '0' as int + n);
        assert(decimal(n) == seq![c]);
        assert(seq![c].drop_last() =~= Seq::<char>::empty());
        assert(seq![c].last() == c);
        assert(digits_value(Seq::<char>::empty()) == 0);
        assert(digits_value(seq![c]) == digits_value(seq![c].drop_last()) * 10 + (c as int - '0' as int));
    } else {
        let m = n / 10;
        let c = digit_char((n % 10) as int);
        assert(c as int == '0' as int + n % 10);
        assert(n == 10 * m + n % 10);
        lemma_decimal_reads_back(m);
        lemma_digits_value_push(decimal(m), c);
        assert(decimal(n) == decimal(m).push(c));
        assert forall|i: int| 0 <= i < decimal(n).len() implies '0' <= #[trigger] decimal(n)[i] <= '9' by {
            if i < decimal(m).len() {
                assert(decimal(n)[i] == decimal(m)[i]);
            }
        }
    }
}

/// No position of a string without `c` holds `c`.
proof fn lemma_char_position_absent(a: Seq<char>, c: char)
    requires
        !a.contains(c),
    ensures
        char_position(a, c) is None,
    decreases a.len(),
{
    if a.len() > 0 {
        assert(!a.drop_last().contains(c)) by {
            if a.drop_last().contains(c) {
                let j = choose|j: int| 0 <= j < a.drop_last().len() && a.drop_last()[j] == c;
                assert(a[j] == c);
            }
        }
        lemma_char_position_absent(a.drop_last(), c);
        assert(a[a.len() - 1] == a.last());
    }
}

/// In a string made of `a`, then `c`, then anything, the first `c` stands right after `a`
/// when `a` holds none.
proof fn lemma_char_position_after(a: Seq<char>, c: char, b: Seq<char>)
    requires
        !a.contains(c),
    ensures
        char_position(a + seq![c] + b, c) == Some(a.len() as int),
    decreases b.len(),
{
    if b.len() == 0 {
        assert((a + seq![c] + b).drop_last() =~= a);
        lemma_char_position_absent(a, c);
    } else {
        lemma_char_position_after(a, c, b.drop_last());
        assert((a + seq![c] + b).drop_last() =~= a + seq![c] + b.drop_last());
    }
}

/// A resource kind written as its name, `=` and its count in decimal reads back as that name
/// and count, for every name without `=` and every count that fits in a `usize`.
pub proof fn lemma_resource_spec_reads_back(name: Seq<char>, n: nat)
    requires
        !name.contains('='),
        n <= usize::MAX,
    ensures
        resource_spec(name + seq!['='] + decimal(n)) == Some((name, n as int)),
{
    let s = name + seq!['='] + decimal(n);
    lemma_char_position_after(name, '=', decimal(n));
    lemma_decimal_reads_back(n);
    assert(s.skip(name.len() + 1int) =~= decimal(n));
    assert(s.take(name.len() as int) =~= name);
    assert('0' <= decimal(n)[0] <= '9');
}

/// A count as written on the command line: an optional `+` and at least one decimal digit,
/// with a value that fits in a `usize`.
pub open spec fn parse_count(s: Seq<char>) -> Option<int> {
    let d = if s.len() > 0 && s[0] == '+' {
        s.drop_first()
    } else {
        s
    };
    if d.len() > 0 && all_digits(d) && digits_value(d) <= usize::MAX {
        Some(digits_value(d))
    } else {
        None
    }
}

/// The name and count of a `<name>=<count>` specification: the name is everything before
/// the first `=`, the count everything after it.
pub open spec fn resource_spec(s: Seq<char>) -> Option<(Seq<char>, int)> {
    match char_position(s, '=') {
        None => None,
        Some(i) => match parse_count(s.skip(i + 1)) {
            None => None,
            Some(c) => Some((s.take(i), c)),
        },
    }
}

proof fn lemma_char_position_prefix(s: Seq<char>, c: char, k: int)
    requires
        0 <= k < s.len(),
        char_position(s.take(k + 1), c) == Some(k),
    ensures
        char_position(s, c) == Some(k),
    decreases s.len(),
{
    if s.len() > k + 1 {
        assert(s.drop_last().take(k + 1) =~= s.take(k + 1));
        lemma_char_position_prefix(s.drop_last(), c, k);
    } else {
        assert(s.take(k + 1) =~= s);
    }
}

proof fn lemma_digits_value_grows(s: Seq<char>, k: int)
    requires
        0 <= k <= s.len(),
        all_digits(s),
    ensures
        0 <= digits_value(s.take(k)) <= digits_value(s),
    decreases s.len() - k,
{
    if k < s.len() {
        lemma_digits_value_grows(s, k + 1);
        assert(s.take(k + 1).drop_last() =~= s.take(k));
        assert(s.take(k + 1).last() == s[k]);
        assert('0' <= s[k] <= '9');
    } else {
        assert(s.take(k) =~= s);
        lemma_digits_value_nonneg(s);
    }
}

proof fn lemma_digits_value_nonneg(s: Seq<char>)
    requires
        all_digits(s),
    ensures
        digits_value(s) >= 0,
    decreases s.len(),
{
    if s.len() > 0 {
        assert(all_digits(s.drop_last())) by {
            assert forall|i: int| 0 <= i < s.drop_last().len() implies '0' <= #[trigger] s.drop_last()[i] <= '9' by {
                assert(s.drop_last()[i] == s[i]);
            }
        }
        lemma_digits_value_nonneg(s.drop_last());
        assert(s[s.len() - 1] == s.last());
    }
}

/// The count written in `s[from..]`, if it is a valid count.
fn parse_count_at(s: &str, from: usize, n: usize) -> (r: Option<usize>)
    requires
        n == s@.len(),
        from <= n,
    ensures
        r is None <==> parse_count(s@.skip(from as int)) is None,
        r matches Some(v) ==> parse_count(s@.skip(from as int)) == Some(v as int),
{
    let ghost t = s@.skip(from as int);
    let mut start: usize = from;
    if from < n && s.get_char(from) == '+' {
        start = from + 1;
    }
    let ghost d = s@.skip(start as int);
    proof {
        if from < n && s@[from as int] == '+' {
            assert(d =~= t.drop_first());
        } else {
            assert(d =~= t);
        }
    }
    assert(parse_count(t) == if d.len() > 0 && all_digits(d) && digits_value(d) <= usize::MAX {
        Some(digits_value(d))
    } else {
        None
    });
    if start >= n {
        return None;
    }
    let mut value: usize = 0;
    let mut k: usize = start;
    while k < n
        invariant
            start <= k <= n,
            start < n,
            t == s@.skip(from as int),
            parse_count(t) == if d.len() > 0 && all_digits(d) && digits_value(d) <= usize::MAX {
                Some(digits_value(d))
            } else {
                None
            },
            n == s@.len(),
            d == s@.skip(start as int),
            all_digits(d.take(k - start)),
            value == digits_value(d.take(k - start)),
        decreases n - k,
    {
        let c: char = s.get_char(k);
        proof {
            assert(d[k - start] == c);
            assert(d.take(k - start + 1).drop_last() =~= d.take(k - start));
            assert(d.take(k - start + 1).last() == c);
        }
        if c < '0' || c > '9' {
            proof {
                assert(!all_digits(d));
            }
            return None;
        }
        let digit: usize = ((c as u32) - ('0' as u32)) as usize;
        if value > (usize::MAX - digit) / 10 {
            proof {
                assert(all_digits(d.take(k - start + 1))) by {
                    assert forall|i: int| 0 <= i < d.take(k - start + 1).len() implies '0' <= #[trigger] d.take(
                        k - start + 1,
                    )[i] <= '9' by {
                        if i < k - start {
                            assert(d.take(k - start + 1)[i] == d.take(k - start)[i]);
                        }
                    }
                }
                if all_digits(d) {
                    lemma_digits_value_grows(d, k - start + 1);
                }
            }
            return None;
        }
        value = value * 10 + digit;
        proof {
            assert(all_digits(d.take(k - start + 1))) by {
                assert forall|i: int| 0 <= i < d.take(k - start + 1).len() implies '0' <= #[trigger] d.take(
                    k - start + 1,
                )[i] <= '9' by {
                    if i < k - start {
                        assert(d.take(k - start + 1)[i] == d.take(k - start)[i]);
                    }
                }
            }
        }
        k = k + 1;
    }
    proof {
        assert(d.take(k - start) =~= d);
    }
    Some(value)
}

impl ResourceConfig {
    /// Read a resource kind from `<name>=<count>`.
    pub fn parse(s: &str) -> (r: Result<ResourceConfig, ConfigError>)
        ensures
            match resource_spec(s@) {
                Some((name, count)) => r matches Ok(rc) && rc.name@ == name && rc.count == count,
                None => r matches Err(ConfigError::InvalidResourceSpecification),
            },
    {
        let n: usize = s.unicode_len();
        let mut i: usize = 0;
        while i < n
            invariant
                i <= n,
                n == s@.len(),
                char_position(s@.take(i as int), '=') is None,
            decreases n - i,
        {
            let c: char = s.get_char(i);
            proof {
                assert(s@.take(i + 1).drop_last() =~= s@.take(i as int));
                assert(s@.take(i + 1).last() == c);
            }
            if c == '=' {
                proof {
                    lemma_char_position_prefix(s@, '=', i as int);
                }
                let name = s.substring_char(0, i).to_owned();
                return match parse_count_at(s, i + 1, n) {
                    Some(count) => Ok(ResourceConfig { name, count }),
                    None => Err(ConfigError::InvalidResourceSpecification),
                };
            }
            i = i + 1;
        }
        proof {
            assert(s@.take(i as int) =~= s@);
        }
        Err(ConfigError::InvalidResourceSpecification)
    }
}

impl std::str::FromStr for ResourceConfig {
    type Err = ConfigError;

    /// From "<name>=<count>"
    fn from_str(s: &str) -> (r: Result<Self, Self::Err>)
        ensures
            match resource_spec(s@) {
                Some((name, count)) => r matches Ok(rc) && rc.name@ == name && rc.count == count,
                None => r matches Err(ConfigError::InvalidResourceSpecification),
            },
    {
        ResourceConfig::parse(s)
    }
}

} // verus!
