//! Discovery and rewriting of utility-class tokens found in string literals
//! of script sources, with a deduplicated registry of the classes seen.
pub mod text;
pub mod classifier;
pub mod context;
pub mod compiler;
pub mod rewriter;
pub mod visitor;
pub mod registry;
pub mod config;
pub mod errors;
pub mod css;
pub mod extractor;
pub mod manifest;
pub mod args;
pub mod pipeline;
pub mod transformer;
