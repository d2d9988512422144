pub mod color;
pub mod dither;
pub mod parameters;
pub mod perceptual;
pub mod quantize;
pub mod ranking;
pub mod threshold;
