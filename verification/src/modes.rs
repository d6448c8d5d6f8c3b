//! Editor modes: each reads key presses in its own way.
pub mod vim;

pub use vim::VimMode;
