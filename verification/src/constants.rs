use vstd::prelude::*;

verus! {

/// Default background color (opaque black).
pub const BACKGROUND_COLOR: u32 = 0xFF00_0000;

/// Default white color.
pub const WHITE_COLOR: u32 = 0xFFFF_FFFF;

/// Default window width.
pub const DEFAULT_WIDTH: usize = 512;

/// Default window height.
pub const DEFAULT_HEIGHT: usize = 512;

/// Default scale factor.
pub const DEFAULT_SCALE: usize = 1;

/// Frame time for 60 FPS in microseconds.
pub const FRAME_TIME_60FPS_MICROS: u64 = 16_666;

} // verus!
