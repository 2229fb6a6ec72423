//! The terminal: keys, widths, and a frame that is exactly the height of the
//! screen.

pub mod frame;
pub mod keys;
pub mod width;

pub use frame::Frame;
pub use keys::{Heard, Key, Keys};
pub use width::{char_width, truncate, truncate_middle, width};
