pub mod medium_interface;

pub use medium_interface::{Medium, MediumInterface};
