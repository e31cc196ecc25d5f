//! Chinese word segmentation by maximum matching with the four MMSEG rules.

pub mod chars;
pub mod chunk;
pub mod dict;
pub mod laws;
pub mod loader;
pub mod rejoin;
pub mod segment;

pub use loader::DictError;
pub use segment::MMSeg;
