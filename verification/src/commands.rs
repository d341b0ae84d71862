//! Argument records of the command-line interface, grouped as the commands
//! are. Parsing and dispatch live with the caller; the records themselves
//! are plain data.

pub mod availability;
pub mod schedule;
pub mod subjects;
