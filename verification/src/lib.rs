//! Verified core of a fleet-maintenance toolkit for Git repositories.
//!
//! The library discovers repository roots from bounded directory scans,
//! parses CODEOWNERS files into ownership tables, computes which top-level
//! directories of a repository are not covered by any ownership pattern,
//! merges owned and unowned paths into one deterministically ordered
//! mapping, and fans work out over many repositories with per-repository
//! failure isolation.  Filesystem walks, subprocess calls and printing live
//! in the surrounding binaries; every decision those binaries act on is
//! made here, under a contract.

pub mod authors;
pub mod cloneops;
pub mod codeowners;
pub mod coverage;
pub mod dates;
pub mod diag;
pub mod github;
pub mod giturl;
pub mod mapping;
pub mod parallel;
pub mod repo;
pub mod report;
pub mod span;
pub mod stale;
pub mod text;
