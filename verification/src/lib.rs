pub mod cli;
pub mod query;
pub mod strutil;
pub mod tags;
pub mod tasks;
pub mod todos;
