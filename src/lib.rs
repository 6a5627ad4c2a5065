pub mod error;
pub mod node;
pub mod octree;
pub mod types;

pub use error::OctreeError;
pub use octree::Octree;
