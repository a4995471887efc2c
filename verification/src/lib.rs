//! Message model of a partitioned, persistent publish–subscribe broker:
//! the record and command codecs, checksums, request validation, offset
//! bookkeeping, retention, consumer groups and rate limiting, with
//! machine-checked contracts.
//!
//! Producers append messages to partitions of topics, which belong to
//! streams; consumers poll them by offset, by timestamp or from where
//! their group left off. Everything here works on values in memory:
//! reading the clock, files and sockets is left to the caller, who hands
//! in bytes and the time and carries out what the library decides.

pub mod buffer;
pub mod cache;
pub mod checksum;
pub mod commands;
pub mod consumer_group;
pub mod error;
pub mod flush;
pub mod headers;
pub mod http;
pub mod identifier;
pub mod index;
pub mod message;
pub mod partition;
pub mod partitioning;
pub mod producer;
pub mod random_id;
pub mod rate_limiter;
pub mod segment_log;
pub mod sizeable;
pub mod state;
pub mod stream;
pub mod system;
pub mod topic;
pub mod wire;
