//! Executable-name resolution service: discovers the runnable programs
//! visible on a search path, caches the result, and answers
//! prefix-completion queries against the cached snapshot.
//!
//! The filesystem itself is outside this crate: a front-end lists each
//! search-path directory and hands the raw listing over as plain data
//! ([`scan::ScanDir`]). Everything after that point — which entries count
//! as runnable programs, deduplication across directories, the canonical
//! sort order, and prefix matching — is verified here.

pub mod cache;
pub mod catalog;
pub mod order;
pub mod scan;
