pub mod interaction;
pub mod surface_interaction;

pub use interaction::Interaction;
pub use surface_interaction::{ShadingInfo, SurfaceInteraction};
