//! Clustering of binary images: connected pixel clusters, cluster breaking, and the
//! background clusters (holes) that bound the paths of a shape.

pub mod point;
pub mod bound;
pub mod image;
pub mod connect;
pub mod clusters;
pub mod opening;
pub mod scan;
pub mod breaking;
pub mod background;
