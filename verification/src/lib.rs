//! Vote aggregation for dining-hall foods.
//!
//! - `sanitize`: canonical names.
//! - `registry`, `builder`: the append-only registry of foods and locations
//!   and how the menu feed extends it.
//! - `wire`, `snapshot`, `payloads`: the registry and the vote submission as
//!   bytes.
//! - `remote`: the registry as the server holds it, with its tables from
//!   identifier to name, and its reload.
//! - `votes`: the bitmap vote protocol.
//! - `counters`, `store`, `database`: the rules of the shared vote counters,
//!   a store in memory that follows them, and what is handed to the outside
//!   store.
//! - `search`, `config`, `routes`, `error`, `models`: the records of the
//!   search index, the server's settings, answers and errors, and the shape
//!   of the menu feed.
//! - `sanitize_laws`, `registry_laws`, `votes_laws`: what holds of all of
//!   these, proved.

pub mod text;
pub mod sanitize;
pub mod sanitize_laws;
pub mod error;
pub mod votes;
pub mod votes_laws;
pub mod registry;
pub mod models;
pub mod builder;
pub mod registry_laws;
pub mod remote;
pub mod counters;
pub mod store;
pub mod database;
pub mod config;
pub mod routes;
pub mod wire;
pub mod payloads;
pub mod snapshot;
pub mod search;
