//! Verified core of a peer-to-peer inference network that pays for generated tokens.
pub mod text;
pub mod amount;
pub mod rounding;
pub mod float64;
pub mod float_laws;
pub mod wide;
pub mod request;
pub mod receipt;
pub mod wire;
pub mod crypto;
pub mod table;
pub mod words;
pub mod ranking;
pub mod clock;
pub mod ledger;
pub mod reputation;
pub mod reputation_laws;
pub mod network_stats;
pub mod routing;
pub mod rate_limit;
pub mod json;
pub mod proxy;
pub mod detector;
pub mod network;
pub mod node;
pub mod gateway;
pub mod dpu;
