//! Shared helpers of the tools: user directories and template lookup.
pub mod path;
pub mod template;
