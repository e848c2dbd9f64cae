pub mod math;
pub mod model;
pub mod nforce_3d;
pub mod octree;
