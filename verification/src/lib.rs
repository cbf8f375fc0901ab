//! Pixel framebuffer, maze grid and minimap drawing of a small ray-casting
//! maze game, with their contracts.

pub mod framebuffer;
pub mod line;
pub mod drawing;
pub mod maze;
