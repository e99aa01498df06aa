//! Verified decision logic of a dataflow simulator of a memory hierarchy and a dragonfly network.
pub mod topology;
pub mod routing;
pub mod ports;
pub mod router;
pub mod inventory;
pub mod compute;
pub mod transfer;
pub mod text;
pub mod config;
pub mod adapter;
pub mod level;
