//! The verified core of `veilid-vc`: a latency harness, a file transfer and a
//! small social node over Veilid's private routes.
//!
//! What the program decides is decided here, on plain values. Sockets, files, the
//! DHT and the terminal stay outside.

pub mod blob;
pub mod bytes;
pub mod clock;
pub mod counting;
pub mod crc;
pub mod foreign;
pub mod incoming;
pub mod keys;
pub mod names;
pub mod node;
pub mod pool;
pub mod proto;
pub mod receipts;
pub mod receiver;
pub mod report;
pub mod roles;
pub mod sender;
pub mod social;
pub mod startup;
pub mod stats;
pub mod text;
pub mod transfer;
pub mod web;
