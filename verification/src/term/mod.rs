//! The framebuffer terminal: pixels, colours and the text cursor.

pub mod fbterm;
pub mod framebuffer;
pub mod framebuffer_color;
