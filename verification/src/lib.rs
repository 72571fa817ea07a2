//! Two-way file synchronisation engine: the reconciliation truth table, the
//! plan builder with its safety guards, the apply scheduler, cron evaluation,
//! the job aggregate and the run registry.
pub mod model;
pub mod reconcile;
pub mod keys;
pub mod entries;
pub mod config;
pub mod baseline;
pub mod plan;
pub mod pathutil;
pub mod fmt;
pub mod timeutil;
pub mod text;
pub mod cron;
pub mod scheduler;
pub mod error;
pub mod fsops;
pub mod apply;
pub mod runs;
pub mod settings;
pub mod job;
pub mod store;
pub mod runlog;
pub mod engine;
pub mod ffs_import;
pub mod scan;
pub mod commands;
