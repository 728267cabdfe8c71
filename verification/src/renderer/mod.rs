pub mod raster;

pub use raster::{rgb, RendererCore};
