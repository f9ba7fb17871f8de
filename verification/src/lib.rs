//! A knowledge-graph memory service: the graph and its write boundary, the
//! indexing queue, the authorization server in front of it and the
//! configuration that ties them together.
//!
//! Every function here is deterministic over plain values. Clocks, files,
//! sockets and the database belong to the program that links this library.

pub mod args;
pub mod authz;
pub mod changes;
pub mod config;
pub mod config_file;
pub mod consent;
pub mod counters;
pub mod crypto;
pub mod errors;
pub mod exact;
pub mod graph;
pub mod ids;
pub mod index;
pub mod indexer;
pub mod indexer_provider;
pub mod integrity;
pub mod jobs;
pub mod json;
pub mod limits;
pub mod metadata;
pub mod mutation;
pub mod oauth_routes;
pub mod order;
pub mod paths;
pub mod principals;
pub mod rebuild;
pub mod registration;
pub mod repos;
pub mod roles;
pub mod runtime_principals;
pub mod service;
pub mod storage;
pub mod store;
pub mod subscriptions;
pub mod table;
pub mod text;
pub mod token;
pub mod tools;
pub mod types;
pub mod upstream;
pub mod watcher;
