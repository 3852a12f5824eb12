//! A single-user task list: the task model, tag and date rules, sorting, and the operations
//! that filter and rewrite the list, each with a contract proved by Verus.
//!
//! - `text`: tag normalisation, case-insensitive matching and code-point order on strings.
//! - `date`: calendar dates as year, month and day; due-date reading and repeat advancement.
//! - `model`: the task record, its vocabularies and the stored settings.
//! - `ops`: queries and the bulk operations (done, edit, delete, move) with id allocation.
//! - `sort`: the task order under each sort key.
//! - `import`: tasks built from JSON and CSV rows.
//! - `commands`: the changes behind single commands (branches, create, edit, complete, archive).
//! - `branch`, `saved`, `summary`, `layout`: branch names, command aliases, counts and reminders,
//!   and width arithmetic for list views.
//! - `laws`: properties relating several operations.

pub mod branch;
pub mod commands;
pub mod date;
pub mod import;
pub mod laws;
pub mod layout;
pub mod model;
pub mod ops;
pub mod saved;
pub mod sort;
pub mod summary;
pub mod text;
