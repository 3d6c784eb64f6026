//! The decision core of a multi-client TCP chat relay.
//!
//! A relay accepts connections, keeps each one in a slot of a growable pool
//! and forwards every chunk of text a client sends to the other connected
//! clients. This crate holds the rules of that service and proves them:
//! which slot a new connection gets, who receives a message, and how one
//! session ends without disturbing the others. Sockets and threads live with
//! the caller, which performs the actions this crate decides on and reports
//! what happened.

pub mod client;
pub mod handler;
pub mod message;
pub mod pool;
pub mod relay;
pub mod server;
