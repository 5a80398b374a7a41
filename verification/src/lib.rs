//! A verified frame-transport core: a RESP-style wire codec with incremental
//! (chunk-tolerant) decoding, the per-connection buffer discipline around it,
//! a model of a bounded worker pool with graceful shutdown, and a single-shot
//! completion/wake primitive.

pub mod codec;
pub mod frame;
pub mod laws;
pub mod pool;
pub mod timer;
pub mod wire;
