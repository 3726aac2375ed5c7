//! Planning and bookkeeping for mirroring an archived website.
//!
//! The crate turns the records of a web-archive index into a download plan:
//! one job per distinct resource, each pointing at the newest capture of that
//! resource, in a reproducible order. It also holds the rules by which such a
//! plan is carried out: which steps a download takes, when a job may be
//! skipped, how many jobs may run at once and when the run has failed.
//!
//! Nothing here touches the network or the disk. Callers fetch and store;
//! this crate decides.

pub mod api;
pub mod downloader;
pub mod error;
pub mod index;
pub mod laws;
pub mod order;
pub mod paths;
pub mod schedule;
pub mod text;
pub mod weburl;
