//! The neutral fact schema: symbols, references, lexical scopes and bindings
//! extracted from one file, and the resolved graph a resolver builds from many.

use vstd::prelude::*;
use crate::symbol::SymbolId;

verus! {

/// A half-open byte range `[start, end)` into a file's UTF-8 source.
#[derive(Debug, Clone, Copy, PartialEq, Eq, Structural)]
pub struct ByteSpan {
    pub start: usize,
    pub end: usize,
}

impl ByteSpan {
    /// `b` lies inside the span.
    pub open spec fn spec_contains(self, b: int) -> bool {
        self.start <= b < self.end
    }

    /// Number of bytes covered (zero for an inverted span).
    pub open spec fn spec_len(self) -> int {
        if self.end >= self.start {
            self.end - self.start
        } else {
            0
        }
    }

    /// Whether byte offset `b` lies inside the span.
    pub fn contains(&self, b: usize) -> (r: bool)
        ensures
            r == self.spec_contains(b as int),
    {
        self.start <= b && b < self.end
    }

    /// Number of bytes covered.
    pub fn len(&self) -> (r: usize)
        ensures
            r == self.spec_len(),
    {
        if self.end >= self.start {
            self.end - self.start
        } else {
            0
        }
    }
}

/// What kind of definition a symbol is.
#[derive(Debug, Clone, Copy, PartialEq, Eq, Structural)]
pub enum SymbolKind {
    Function,
    Method,
    Class,
    Struct,
    Enum,
    Interface,
    Trait,
    Impl,
    TypeAlias,
    Const,
    Static,
    Module,
    Other,
}

/// A definition found in a file.
#[derive(Debug, Clone)]
pub struct Symbol {
    pub id: SymbolId,
    pub name: String,
    pub kind: SymbolKind,
    pub file: String,
    /// 1-based line of the definition's first byte.
    pub line: u32,
    pub span: ByteSpan,
    /// The definition's header, cut to one line.
    pub signature: String,
}

/// The relationship a reference expresses.
#[derive(Debug, Clone, Copy, PartialEq, Eq, Hash, Structural)]
pub enum RefRole {
    Call,
    IsImplementation,
    Inherit,
    Import,
    TypeRef,
    Read,
    Write,
}

/// Where a reference occurs.
#[derive(Debug, Clone, PartialEq, Eq)]
pub struct Occurrence {
    pub file: String,
    /// 1-based line.
    pub line: u32,
    /// 0-based byte column.
    pub col: u32,
    /// Byte offset into the source.
    pub byte: usize,
}

impl Occurrence {
    /// A copy of this occurrence.
    pub fn duplicate(&self) -> (r: Occurrence)
        ensures
            r == *self,
    {
        Occurrence { file: self.file.clone(), line: self.line, col: self.col, byte: self.byte }
    }
}

/// Index of a scope in its file's scope vector.
pub type ScopeId = usize;

/// A use of a name.
#[derive(Debug, Clone)]
pub struct Reference {
    pub name: String,
    pub occ: Occurrence,
    pub role: RefRole,
    /// For imports: the SCIP id of the importing module.
    pub source_module: Option<String>,
    /// For imports: the path the name is imported from, as written.
    pub from_path: Option<String>,
    /// For member calls: the receiver as written.
    pub qualifier: Option<String>,
    /// The innermost lexical scope containing the occurrence.
    pub scope: Option<ScopeId>,
}

/// What kind of lexical scope a region is.
#[derive(Debug, Clone, Copy, PartialEq, Eq, Structural)]
pub enum ScopeKind {
    Module,
    Function,
    Block,
    Type,
}

/// One lexical scope; `parent` is `None` only for the file root.
#[derive(Debug, Clone, Copy, PartialEq, Eq, Structural)]
pub struct Scope {
    pub parent: Option<ScopeId>,
    pub span: ByteSpan,
    pub kind: ScopeKind,
}

/// How a name is introduced into a scope.
#[derive(Debug, Clone, Copy, PartialEq, Eq, Structural)]
pub enum BindingKind {
    Definition,
    Param,
    Local,
    Import,
}

/// What a binding denotes.
#[derive(Debug, Clone, PartialEq, Eq)]
pub enum BindingTarget {
    /// A local variable or parameter with no global identity.
    Local,
    /// A global symbol, by SCIP string.
    Symbol(String),
    /// An imported name, with the path it is imported from when known.
    Import(Option<String>),
}

/// A name introduced into a scope at byte offset `intro`.
#[derive(Debug, Clone)]
pub struct Binding {
    pub scope: ScopeId,
    pub name: String,
    pub intro: usize,
    pub kind: BindingKind,
    pub target: BindingTarget,
}

/// The ABI through which a function is exported across a language boundary.
#[derive(Debug, Clone, Copy, PartialEq, Eq, Structural)]
pub enum FfiAbi {
    C,
    Jni,
}

/// A function exported under an ABI name that may differ from its own name.
#[derive(Debug, Clone)]
pub struct FfiExport {
    pub export_name: String,
    pub abi: FfiAbi,
    pub symbol: SymbolId,
}

/// Everything extracted from one file.
#[derive(Debug, Clone)]
pub struct FileFacts {
    pub file: String,
    pub lang: String,
    pub symbols: Vec<Symbol>,
    pub references: Vec<Reference>,
    pub scopes: Vec<Scope>,
    pub bindings: Vec<Binding>,
    pub ffi_exports: Vec<FfiExport>,
}

/// A resolved ref→def edge.
#[derive(Debug, Clone)]
pub struct Edge {
    pub occ: Occurrence,
    pub role: RefRole,
    pub to: SymbolId,
}

/// The resolved graph over many files.
#[derive(Debug, Clone)]
pub struct CodeGraph {
    pub symbols: Vec<Symbol>,
    pub edges: Vec<Edge>,
}

} // verus!
