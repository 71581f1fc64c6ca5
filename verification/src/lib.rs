//! Display-only sidebar labels for Herdr spaces: the short branch of a
//! workspace, the name of grouped worktree spaces, and the decisions of a
//! refresh, with their contracts proved by Verus.
pub mod formatter;
pub mod herdr;
pub mod json;
pub mod laws;
pub mod refresh;
pub mod runtime;
pub mod text;
pub mod workspace;

pub use text::token_text;
pub use workspace::{current_hint, indented_workspaces, labels, saved_workspaces, text_field, truthy};

use vstd::prelude::*;

verus! {

/// The source under which the plugin reports its metadata to Herdr.
pub const SOURCE: &'static str = "plugin:poislagarde.branch-labels";

} // verus!
