pub mod vector;
pub mod ray;
pub mod bounding_box_3;
pub mod ray_box;

pub use vector::{Point2, Point3, Vector3};
pub use ray::Ray;
pub use bounding_box_3::Bounds3f;
