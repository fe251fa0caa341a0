//! Layout documents, a width-aware renderer for them, a JSON adapter that
//! builds documents from JSON values, and an interning cache for syntax-tree
//! leaf tokens.

pub mod document;
pub mod printer;
pub mod json;
pub mod token_cache;
