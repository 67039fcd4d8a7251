//! Library behind a small update-notification tool for a source-based Linux
//! distribution.  The distribution publishes plain-text reports listing, one
//! package per line, the currently packaged version and the newest upstream
//! version.  This crate parses such reports into a deduplicated update map,
//! extracts package names from the local package-query output, filters the
//! all-packages map down to installed packages not already covered by the
//! maintainer's own report, and renders the result as sorted text.
//!
//! Fetching the reports and invoking the package-query command are I/O and
//! live outside this library; everything here is pure computation on text.

pub mod order;
pub mod text;
pub mod installed;
pub mod update_map;
pub mod report;
pub mod reconcile;
