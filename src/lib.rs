//! Inventory of local git repositories: parsing of git's output, the
//! repository cache with its merge and ordering rules, remote-URL
//! canonicalization and the guard that prevents cloning a repository twice.
pub mod text;
pub mod url;
pub mod timestamp;
pub mod git_output;
pub mod cache;
pub mod guard;
pub mod walk;
