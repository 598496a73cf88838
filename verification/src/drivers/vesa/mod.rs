//! Drawing on a VESA framebuffer: points, drawables and text.
pub mod text;

pub use crate::drivers::framebuffer::{Drawable, Pixel};
