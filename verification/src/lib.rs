//! Source files to structural facts: symbols, references, lexical scopes and
//! bindings, extracted per language from a tree-sitter syntax tree; and a
//! harness that scores resolved ref→def edges against golden cases.

pub mod error;
pub mod lang;
pub mod symbol;
pub mod graph;
pub mod text;
pub mod extract;
pub mod eval;

pub use error::{CodegraphError, Result};
pub use lang::Language;
pub use symbol::{Descriptor, SymbolId};
pub use graph::{
    Binding, BindingKind, BindingTarget, ByteSpan, CodeGraph, Edge, FfiAbi, FfiExport, FileFacts, Occurrence,
    RefRole, Reference, Scope, ScopeId, ScopeKind, Symbol, SymbolKind,
};
pub use extract::{Extractor, extract_file, extract_path};
