//! Core planning logic of brick_road: calendar arithmetic on working days,
//! the dependency graph and its topological order, dependency-violation
//! analysis, CSV export/import, document bookkeeping and block editing.

pub mod date;
pub mod model;
pub mod graph;
pub mod analysis;
pub mod calendar;
pub mod text;
pub mod csv;
pub mod document;
pub mod datepicker;
pub mod store;
pub mod plan_csv;
pub mod edits;
pub mod paste;
pub mod rows;
pub mod labels;
pub mod sorting;
pub mod flow;
pub mod layout;
pub mod bands;
pub mod inspector;
pub mod undo;
pub mod clipboard;
pub mod selection;
