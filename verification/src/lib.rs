//! Protocol engine for mirroring content-addressed DAGs between two peers.
//!
//! A sending peer walks the DAG below a root content identifier, skipping
//! blocks the receiving peer advertises through a bloom sketch, and frames
//! the remaining blocks into a CAR (content-addressable archive) stream.
//! The receiving peer verifies every block's hash incrementally against the
//! root before storing it, and answers with the subgraph roots it is still
//! missing together with a fresh bloom sketch of what it already has.

pub mod bloom;

pub mod cache;

pub mod car;

pub mod cid;

pub mod cid_set;

pub mod common;

pub mod dag;

pub mod dag_walk;

pub mod error;

pub mod hashing;

pub mod incremental_verification;

pub mod laws;

pub mod messages;

pub mod pull;

pub mod push;

pub mod references;

pub mod store;

pub mod varint;
