//! Core of a single-process, event-driven HTTP/1.1 server: byte-level
//! request parsing and response serialization, configuration parsing,
//! request routing, the pure parts of the content handlers, and the
//! per-connection state machine with its descriptor table.
//!
//! All kernel interaction (sockets, readiness polling, files, processes)
//! lives outside this crate; the library computes decisions and byte
//! buffers from plain values.

pub mod config;
pub mod conn;
pub mod dispatch;
pub mod event;
pub mod handler;
pub mod manager;
pub mod num;
pub mod http;
pub mod search;
pub mod text;
