//! A verified core for a shell-prompt version-control status module.
//!
//! The crate turns a repository's porcelain status listing into categorized
//! counts, renders those counts through a small template language into styled
//! text segments, and memoizes the per-repository probes (branch name, commit
//! hash, status summary) so each external query runs at most once.

pub mod formatter;
pub mod git_status;
pub mod repo;
pub mod status;
