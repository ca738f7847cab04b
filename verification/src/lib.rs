//! A SIP signaling gateway core: parsing of SIP datagrams, the inbound and
//! outbound header-rewriting algorithms, the per-packet dispatcher, and the
//! transaction table that correlates the two network legs of a call.
//!
//! Every function here carries a contract against a mathematical model of
//! the message text and of the table; the laws the gateway is meant to obey
//! are proved in `laws`.

pub mod config;
pub mod handler;
pub mod laws;
pub mod message;
pub mod message_builder;
pub mod processor;
pub mod strutil;
pub mod transaction;
