use vstd::prelude::*;

pub mod constants;
pub mod frame_buffer;
pub mod renderer;
pub mod utils;
pub mod window_state;

pub use frame_buffer::{FrameBuffer, HeadlessBuffer};
pub use renderer::{rgb, RendererCore};
pub use utils::FpsCounter;
