//! Tapestry crochet charts: yarn colours, image quantisation, generated
//! patterns, chart rendering, row instructions and yarn estimates.

pub mod color;
pub mod quantize;
pub mod pattern;
pub mod text;
pub mod render;
pub mod tracker;
pub mod layout;
pub mod tally;
pub mod estimate;
pub mod picture;
