//! Renders a directory of source files as an interactive file-tree widget:
//! enumeration results are folded into a tree, the tree is rendered as nested
//! list markup, and every file gets a content pane and a click handler.

pub mod order;
pub mod paths;
pub mod ident;
pub mod files;
pub mod tree;
pub mod widget;
pub mod options;
pub mod policy;
pub mod instance;
