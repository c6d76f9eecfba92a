//! Chronos-VFS: a generative virtual file system whose chunks are computed
//! on demand from a base seed, with a single-producer single-consumer
//! command ring feeding a state engine.

pub mod aura_bridge;
pub mod consumer;
pub mod nvm_core;
pub mod server;
pub mod vfs;
pub mod workspace;
