//! Client-side logic of the MikroTik RouterOS API: the length-prefixed word
//! encoding of requests, the decoding of replies into text, the parsing of
//! reply sentences into metric records and their rendering in the Prometheus
//! exposition format.

pub mod config;
pub mod encoding;
pub mod text;
pub mod decoding;
pub mod metrics;
pub mod response;
pub mod formatter;
pub mod teller;
pub mod session;
