//! Editor intelligence for Hurl files: the analyses behind diagnostics,
//! completion, hover, outline, code lenses, cURL export and run summaries.
use vstd::prelude::*;

pub mod text;
pub mod syntax;
pub mod protocol;
pub mod lsp;
pub mod diagnostics;
pub mod version;
pub mod metadata;
pub mod cli;
pub mod numbers;
pub mod execution;
pub mod code_lens;
pub mod definition;
pub mod hover;
pub mod completion;
pub mod symbols;
pub mod variables;
pub mod curl;
pub mod inlay_hints;
pub mod report;
pub mod store;
pub mod paths;
pub mod openapi;
pub mod profiles;
pub mod runner;

verus! {
} // verus!
