//! A store of task records.
//!
//! Every task has a key of its own, under which it is found, replaced and
//! removed, and a date, from which on tasks can be listed. The store keeps
//! its records in memory in the order of their keys; a program that wants
//! them to last hands each change to its durable storage and tells the store
//! with [`TaskStore::commit`] whether the change arrived there.
//!
//! Each operation states what it does over a table, a mathematical map from
//! keys to records ([`model`]). What holds of the operations taken together
//! is proved in [`laws`]. Strings are ordered by their UTF-8 bytes
//! ([`order`]).

pub mod error;
pub mod laws;
pub mod model;
pub mod order;
mod rows;
pub mod store;
pub mod task;

pub use error::StoreError;
pub use store::{
    delete_task, find_task, load_tasks, load_tasks_by_date, save_task, update_task, TaskStore,
};
pub use task::{Task, TaskView};
