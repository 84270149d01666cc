//! A small task-tracker library: sessions of tasks with optional due times,
//! a dual-mode time parser, and an index-or-fuzzy-name task matcher.

pub mod commands;
pub mod date;
pub mod matcher;
pub mod rfc3339;
pub mod store;
pub mod text;
pub mod timeparse;
