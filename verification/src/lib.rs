//! Registration lookups for a list of domain names: which top-level domain a
//! name belongs to, how a batch is ordered and grouped for dispatch, how a
//! WHOIS answer is read, and how the records of a batch are merged.

pub mod text;
pub mod extension;
pub mod order;
pub mod parse;
pub mod group;
pub mod fetch_whois;
pub mod server;
