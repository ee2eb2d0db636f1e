//! A small Redis-compatible server core: RESP command parsing, reply
//! encoding, an in-memory key/value store with expiry and streams,
//! MULTI/EXEC transactions, RDB dump loading and replication handshake
//! planning. Sockets, files, clocks and the async runtime live in the
//! application crate; everything here is plain computation.
pub mod text;
pub mod numbers;
pub mod resp;
pub mod assoc;
pub mod command_router;
pub mod storage;
pub mod args;
pub mod tcp_request;
pub mod http;
pub mod multi_exec;
pub mod replication;
pub mod rdb;
pub mod transaction;
pub mod executor;
