//! A normalization and repair engine for machine-generated branching-narrative
//! graphs. The pipeline canonicalizes keys, merges synonymous ending keys,
//! collapses duplicate nodes, breaks cycles, repairs dangling references,
//! clamps per-choice side effects and restricts the cast to a caller-supplied
//! roster, deterministically and without ever rejecting its input.

pub mod api;
pub mod cast;
pub mod dict;
pub mod effects;
pub mod glm;
pub mod endings;
pub mod images;
pub mod lite;
pub mod normalize;
pub mod pipeline;
pub mod prompt;
pub mod sanitize;
pub mod text;
pub mod types;
