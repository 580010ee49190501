//! Extraction of the addresses that take part in the transactions of an EVM chain.
//!
//! A range of blocks is cut into parts and batches ([`plan`]), the batches are asked for at a list of
//! endpoints ([`endpoints`], [`blocks`]), going on to the next endpoint or to single blocks where a
//! request fails ([`failover`], [`fetch`]), the addresses are gathered without repetition
//! ([`unique`]), and each part becomes one compressed file ([`archive`]).
pub mod archive;
pub mod blocks;
pub mod endpoints;
pub mod failover;
pub mod fetch;
pub mod json;
pub mod number;
pub mod plan;
pub mod settings;
pub mod text;
pub mod unique;
