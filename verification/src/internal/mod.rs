pub mod block;
pub mod camera;
pub mod id;
pub mod svg;
pub mod workspace;

pub use crate::custom::BlockInput;
pub use block::{Block, InputRememberer};
pub use camera::Camera;
pub use id::ID;
pub use workspace::WorkSpace;
