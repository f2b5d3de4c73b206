pub mod bvh;
pub mod camera;
pub mod model;
pub mod scene;
