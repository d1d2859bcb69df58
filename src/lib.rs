//! Durable multi-chain log watching: the decisions that turn block headers and
//! logs into per-hook deliveries, and the rules the delivery worker follows.

pub mod types;
pub mod config;
pub mod bloom;
pub mod listener;
pub mod rpc;
pub mod db;
pub mod delivery;
