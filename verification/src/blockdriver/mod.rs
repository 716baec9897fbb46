//! Block devices: the interface that drivers offer, and layers over it.

pub mod ahci;
pub mod block_cache;
pub mod dma;
pub mod driver;
pub mod laws;
pub mod traits;
