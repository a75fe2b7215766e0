//! Errors surfaced by extraction.

use vstd::prelude::*;

verus! {

/// Errors that can arise while turning source into structural facts.
#[derive(Debug, Clone)]
pub enum CodegraphError {
    /// The language for an extension/path is not supported.
    UnsupportedLanguage(String),
    /// tree-sitter failed to construct a parser or parse the source.
    Parse { path: String },
    /// A pattern over the syntax tree could not be compiled.
    Query { lang: String, msg: String },
}

impl CodegraphError {
    /// Human-readable rendering of the error.
    pub fn message(&self) -> (r: String)
        ensures
            self matches CodegraphError::UnsupportedLanguage(p) ==> r@
                == "unsupported language for `"@ + p@ + "`"@,
            self matches CodegraphError::Parse { path } ==> r@ == "parse error in `"@ + path@ + "`"@,
            self matches CodegraphError::Query { lang, msg } ==> r@ == "invalid tree-sitter query for `"@ + lang@
                + "`: "@ + msg@,
    {
        match self {
            CodegraphError::UnsupportedLanguage(p) => {
                let s = String::from_str("unsupported language for `");
                let s = s.concat(p.as_str());
                s.concat("`")
            },
            CodegraphError::Parse { path } => {
                let s = String::from_str("parse error in `");
                let s = s.concat(path.as_str());
                s.concat("`")
            },
            CodegraphError::Query { lang, msg } => {
                let s = String::from_str("invalid tree-sitter query for `");
                let s = s.concat(lang.as_str());
                let s = s.concat("`: ");
                s.concat(msg.as_str())
            },
        }
    }
}

/// Convenience alias for fallible operations of this crate.
pub type Result<T> = core::result::Result<T, CodegraphError>;

} // verus!
