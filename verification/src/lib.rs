//! Discovery of Axis network devices on a local network: the wire formats,
//! parsers, scoring and bookkeeping of the scanner, with their contracts.

pub mod text;
pub mod ipv4;
pub mod model;
pub mod arp;
pub mod classify;
pub mod discovery;
pub mod probe;
pub mod scan;
pub mod netutil;
pub mod output;
pub mod cli;
pub mod enrich;
