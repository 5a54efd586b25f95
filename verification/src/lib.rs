//! The logic of a local Odoo orchestrator: projects hold Odoo servers, servers hold databases,
//! and everything is a supervised local process.
//!
//! This library decides and computes; it performs no input or output of its own. Whoever runs it
//! reads files, runs commands and stores rows, hands the library plain values, and does what the
//! values that come back say.

pub mod api;
pub mod backups;
pub mod codec;
pub mod commands;
pub mod content;
pub mod databases;
pub mod db;
pub mod discovery;
pub mod environment;
pub mod errors;
pub mod events;
pub mod filestore;
pub mod framing;
pub mod freshness;
pub mod git;
pub mod inspect;
pub mod install_order;
pub mod launch;
pub mod logs;
pub mod making;
pub mod manifest;
pub mod model;
pub mod modules;
pub mod odoo;
pub mod odoo_conf;
pub mod odoo_runtime;
pub mod openupgrade;
pub mod order;
pub mod paths;
pub mod pg_admin;
pub mod postgres;
pub mod proxy;
pub mod reconcile;
pub mod records;
pub mod rows;
pub mod servers;
pub mod snapshots;
pub mod text;
pub mod upgrade;
pub mod watch;
