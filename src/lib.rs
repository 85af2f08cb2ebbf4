//! Name resolution for containers on user-defined networks: network
//! descriptors are assembled into lookup indices, and DNS queries are
//! answered from them.
pub mod text;
pub mod ip;
pub mod table;
pub mod backend;
pub mod config;
pub mod loader;
pub mod run;
pub mod laws;
pub mod dns;
pub mod query;
pub mod ptr;
