//! What the parts of the library are for: laws that tie results to inputs, whatever the way there.

pub mod container;
pub mod generation;
pub mod loading;
pub mod network;
pub mod quantized;
pub mod sampling;
pub mod texts;
pub mod timing;
pub mod tokens;
