//! A single-user personal finance ledger: the session state machine, the
//! transaction form and the analytics over a snapshot of transactions.

pub mod app;
pub mod catalog;
pub mod config;
pub mod display;
pub mod form;
pub mod handlers;
pub mod models;
pub mod order;
pub mod stats;
pub mod text;
pub mod totals;
