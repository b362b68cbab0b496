pub mod shape;
pub mod primitive;
pub mod geometric_primitive;
pub mod primitive_info;
pub mod split;
pub mod build_rules;
pub mod build_node;
pub mod linear_node;
pub mod bounding_volume_hierarchy;
pub mod brute_force_aggregate;
pub mod sphere;

pub use shape::Shape;
pub use primitive::Primitive;
pub use geometric_primitive::GeometricPrimitive;
pub use primitive_info::BVHPrimitiveInfo;
pub use bounding_volume_hierarchy::{BVHAccel, SplitMethod};
pub use linear_node::LinearBVHNode;
pub use build_node::BVHBuildNode;
pub use brute_force_aggregate::BruteForceAggregate;
pub use sphere::Sphere;
