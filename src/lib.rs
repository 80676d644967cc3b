//! Tiling of genomic regions into fixed-length blocks, and a greedy filter
//! that keeps blocks spaced at least a minimum distance apart.
pub mod block;
pub mod error;
pub mod filter;
pub mod region;

pub use block::{block_distance, Block, BlockView, Distance};
pub use error::BlockError;
pub use filter::filter_min_dist;
pub use region::Region;
