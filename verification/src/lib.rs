//! Verified orchestration, text and geometry logic of the Koharu manga
//! translation pipeline and of its model pre- and post-processing.

pub mod pipeline;
pub mod ml;
pub mod text;
pub mod math;
