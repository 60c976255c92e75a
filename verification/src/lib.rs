//! Core of a concurrent directory-tree crawler: the work-queue protocol with
//! termination detection, per-directory entry classification, statistics and
//! scoring, report rendering, worker-count policy, and configuration parsing.
pub mod clock;
pub mod config;
pub mod engine;
pub mod model;
pub mod policy;
pub mod report;
pub mod stats;
pub mod text;
