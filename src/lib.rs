//! A runtime for directed graphs of typed workflow nodes: it decides the order in
//! which nodes run, evaluates branches, drives loops and keeps a run-scoped store
//! of variables.
//!
//! `engine` holds the dispatch loop, `nodes`, `branching`, `lists`, `variables`,
//! `scrape` and `http` the node handlers, `store` the variables and substitution,
//! `json` and `number` the values they work on, and `laws` properties of whole runs.

pub mod text;
pub mod number;
pub mod json;
pub mod store;
pub mod graph;
pub mod nodes;
pub mod outside;
pub mod branching;
pub mod lists;
pub mod variables;
pub mod scrape;
pub mod http;
pub mod engine;
pub mod laws;
pub mod server;
pub mod templates;
