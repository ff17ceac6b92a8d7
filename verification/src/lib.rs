//! Scheduling of project tasks onto a pool of resources.
//!
//! `project` holds the data model (resources, tasks, task queues and solutions),
//! `config` turns a project description into a `Project`, `solver` searches for
//! good schedules, `validity` states what makes a schedule valid, `calendar` maps
//! day offsets onto calendar dates, `timeline` draws a queue's blocks on a line of text
//! and `cli` holds the command line options.
pub mod calendar;
pub mod cli;
pub mod config;
pub mod project;
pub mod solver;
pub mod timeline;
pub mod validity;

pub use config::{ProjectConfig, ResourceConfig};
pub use project::{Project, Resource, ResourceId, Solution, Task, TaskId, TaskQueue, TaskQueueEntry};
