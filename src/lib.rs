//! Depth-bounded, key-filtered rendering of a named tree through named
//! line templates, with absolute node paths resolved against the tree.

pub mod error;
pub mod options;
pub mod path;
pub mod render;
pub mod template;
pub mod tree;

pub use error::{Error, ErrorView};
pub use options::{LayoutConfig, LayoutOptions, DEFAULT_DEPTH};
pub use render::layout;
pub use template::{default_layout_name, resolve_layout, LayoutTemplate};
pub use tree::{Node, NodeView, Tree};
