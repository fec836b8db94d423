//! The core of an in-memory key-value server that speaks a small subset of the
//! Redis wire protocol: an incremental decoder that rebuilds commands from a
//! byte stream cut into chunks of any size, the command model, a store whose
//! values may expire, the handler that carries commands out against the store,
//! and the responses with their wire form.
//!
//! Sockets, tasks and the lock that lets connections share one store are the
//! embedding program's part.

pub mod bytes;
pub mod decimal;
pub mod stream_chunking_service;
pub mod framing;
pub mod new_line_stream_chunking_service;
pub mod resp_command;
pub mod storage;
pub mod clock;
pub mod command_repository;
pub mod query_repository;
pub mod consistency;
pub mod resp_response;
pub mod wire_reader;
pub mod command_handler;
pub mod response_builder;
pub mod connection;
