//! Compact rendering of filesystem paths for shell prompts.
//!
//! Interior directories are shortened to the shortest grapheme-cluster prefix
//! that no sibling directory shares, the last component is kept as it is, and
//! a home-directory prefix is replaced by a `~` form.

pub mod grapheme;
pub mod gct;
pub mod component;
pub mod path;
pub mod home;
pub mod compress;
pub mod passwd;
pub mod cwd;
pub mod color;
pub mod prompt;

pub use color::{Color, Green, Red};
pub use cwd::compressed_cwd;
pub use gct::GraphemeClusterTrie;
