//! Metadata mirror for a branch-per-package repository: the description
//! parser, the incremental synchronisation plan and the pieces of the
//! upstream protocol that it computes, each stated and proved.

pub mod aur_fetcher;
pub mod config;
pub mod rpc_server;
pub mod srcinfo_parse;
pub mod syncer;
pub mod text;
pub mod types;
