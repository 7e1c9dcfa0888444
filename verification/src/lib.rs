//! A personal task store: named classes hold assignments, each identified
//! by a digest of its due instant and its name.
//!
//! The store is loaded from a decoded file, takes in what generator
//! scripts announce as ghosts, is changed through its operations, and
//! says what is to be written back. Reading and writing files, running
//! scripts and encoding the file formats are left to the caller.

pub mod agenda;
pub mod assignment;
pub mod calendar;
pub mod due;
pub mod laws;
pub mod messages;
pub mod model;
pub mod name_map;
pub mod names;
pub mod order;
pub mod sandbox;
pub mod script;
pub mod text;
pub mod todolist;
pub mod views;

pub use crate::assignment::{derive_uid, Assignment, AssignmentV1, Day, Timestamp};
pub use crate::name_map::NameMap;
pub use crate::sandbox::landlock_restrict;
pub use crate::todolist::{Decoded, StoreError, TodoList, TodoListParsed, TodoListV1, TodoListV2};
