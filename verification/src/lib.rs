//! Control-plane logic for a pool of egress proxy containers.
pub mod api;
pub mod auth;
pub mod clock;
pub mod container;
pub mod docker;
pub mod endpoint;
pub mod errors;
pub mod health;
pub mod ids;
pub mod json;
pub mod keyed;
pub mod laws;
pub mod pool;
pub mod probes;
pub mod registry;
pub mod schemas;
pub mod seqs;
pub mod summary;
pub mod task;
pub mod text;
