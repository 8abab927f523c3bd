//! Verified core of a collection of small networking exercises: a parallel
//! prime search, a worker pool's task store, a calculator protocol, small
//! HTTP pages and a WebSocket chat.

pub mod calculator;
pub mod client;
pub mod http;
pub mod number;
pub mod primes;
pub mod text;
pub mod websocket;
pub mod workers;
