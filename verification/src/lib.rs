//! Logic of a GitHub release download accelerator: the proxy pool with its
//! health bookkeeping, download planning, byte-size and checksum formatting,
//! release asset selection for self-upgrades.

pub mod cli;
pub mod clock;
pub mod config;
pub mod download;
pub mod proxy;
pub mod sorting;
pub mod text;
pub mod upgrade;
