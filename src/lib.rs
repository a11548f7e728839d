//! A CoAP message engine: message ids and tokens per peer, confirmable retransmission with
//! exponential backoff, acknowledgement matching, and the store of received responses.

pub mod config;
pub mod engine;
pub mod msg;
pub mod option;
pub mod req;
pub mod reserve;
pub mod resp;
pub mod retry;
pub mod time;
