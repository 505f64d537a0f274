//! Transactional core of a directory-style identity store.
//!
//! A query server accepts create, search and modify operations, runs an
//! ordered pipeline of consistency plugins over the entries in flight,
//! validates them against a schema and commits a record store and a schema
//! store one after the other.
//!
//! - [`value`], [`entry`], [`modify`], [`filter`], [`event`], [`error`]: the
//!   data that operations speak of.
//! - [`schema`] and [`be`]: the schema store and the record store, each with
//!   read views and one write view at a time.
//! - [`plugins`]: the hooks that run inside write operations, among them the
//!   plugin that keeps sessions consistent.
//! - [`server`]: the query server and its transactions.
//! - [`consistency`] and [`bootstrap`]: what the write operations leave in
//!   the store, and that bringing a store up twice changes nothing.
pub mod be;
pub mod bootstrap;
pub mod consistency;
pub mod constants;
pub mod entry;
pub mod error;
pub mod event;
pub mod filter;
pub mod modify;
pub mod plugins;
pub mod schema;
pub mod server;
pub mod text;
pub mod value;
