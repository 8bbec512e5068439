pub mod block;
pub mod block_input;
pub mod camera;
pub mod workspace;

pub use crate::custom_id::ID;
pub use block::{Block, InputRememberer};
pub use block_input::BlockInput;
pub use camera::Camera;
pub use workspace::WorkSpace;
