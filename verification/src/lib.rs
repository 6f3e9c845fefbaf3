//! A small personal task list: tasks are added with a textual description,
//! listed in a stable positional order, marked complete, removed by their
//! user-visible position, and cleared in bulk once completed.
//!
//! The crate is organised around a store abstraction ([`task_repository::TaskRepository`])
//! whose methods carry full functional contracts over a mathematical model of
//! the stored records, an in-memory store ([`store::MemoryRepository`]) that is
//! proved to meet those contracts, and the command handlers
//! ([`handlers`]) that implement ordinal-to-identifier resolution and the
//! batch semantics of removing and completing several tasks at once.

pub mod commands;
pub mod domain;
pub mod errors;
pub mod handlers;
pub mod laws;
pub mod store;
pub mod task_repository;
