pub mod aggregate;
pub mod axis;
pub mod downsample;
pub mod pipeline;
pub mod signal;
