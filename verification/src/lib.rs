//! Structured inspection of git repositories: the verified core.
pub mod branches;
pub mod calendar;
pub mod log;
pub mod object_id;
pub mod repo;
pub mod stash;
pub mod status;
pub mod tags;
pub mod text;
