//! Extraction: one tree-sitter parse per file, turned into neutral
//! [`FileFacts`](crate::graph::FileFacts) by a per-language walk over the
//! syntax tree.

pub mod ts;
pub mod tree;
pub mod scope;
pub mod support;
pub mod go;
pub mod java;
pub mod hcl;
pub mod rust;
pub mod python;
pub mod solidity;
pub mod kotlin;
pub mod php;
pub mod c;
pub mod ruby;
pub mod shell;
pub mod cpp;
pub mod dart;
pub mod objc;
pub mod powershell;

pub use go::GoExtractor;
pub use java::JavaExtractor;
pub use hcl::HclExtractor;
pub use rust::RustExtractor;
pub use python::PythonExtractor;
pub use solidity::SolidityExtractor;
pub use kotlin::KotlinExtractor;
pub use php::PhpExtractor;
pub use c::CExtractor;
pub use ruby::RubyExtractor;
pub use shell::ShellExtractor;
pub use cpp::CppExtractor;
pub use support::module_symbol;

use vstd::prelude::*;
use vstd::utf8::*;
use crate::error::{CodegraphError, Result};
use crate::graph::FileFacts;
use crate::lang::{Language, lang_name, lang_of_path};
use vstd::string::*;
use ts::{Grammar, grammar_fn, parse_source, ts_node, ts_node_count, ts_parses};
use tree::{SyntaxTree, build_tree, records_form_tree};
use support::facts_wf;

verus! {

/// A per-language source-to-facts extractor.
pub trait Extractor {
    /// The language this extractor handles, as a spec value.
    spec fn spec_lang(&self) -> Language;

    /// The language this extractor handles.
    fn lang(&self) -> (r: Language)
        ensures
            r == self.spec_lang(),
    ;

    /// Parse `source` (the contents of `file`, a project-relative path) and
    /// return its definitions, references, scopes and bindings. The only
    /// failure is a parse error naming `file`.
    fn extract(&self, source: &str, file: &str) -> (r: Result<FileFacts>)
        ensures
            r matches Ok(f) ==> facts_wf(f, file@, source@, self.spec_lang()),
            r matches Err(e) ==> (e matches CodegraphError::Parse { path } && path@ == file@),
    ;
}

/// `t` is a syntax tree of `source` as grammar `g` parses it: well formed,
/// over the source's bytes, its nodes those tree-sitter yields in pre-order,
/// each inside its parent.
pub open spec fn parsed_by(t: SyntaxTree, g: Grammar, source: Seq<char>) -> bool {
    &&& t.wf()
    &&& t.nested()
    &&& t.bytes@ == encode_utf8(source)
    &&& t.size() == ts_node_count(g, source)
    &&& forall|i: int| 0 <= i < t.size() ==> #[trigger] t.nodes@[i]@ == ts_node(g, source, i)
}

/// Whether grammar `g` parses `source` into a syntax tree: tree-sitter
/// yields a tree, and its node records form a tree over the source's bytes.
pub open spec fn parses(g: Grammar, source: Seq<char>) -> bool {
    ts_parses(g, source) && records_form_tree(g, source, encode_utf8(source).len() as int)
}

/// Parse `source` with grammar `g` into a syntax tree over its bytes. A
/// failure of tree-sitter, or node records that do not form a tree over the
/// source, is a parse error naming `file`.
pub fn parse_tree(g: Grammar, source: &str, file: &str) -> (r: Result<SyntaxTree>)
    ensures
        r is Ok <==> parses(g, source@),
        r matches Ok(t) ==> parsed_by(t, g, source@),
        r matches Err(e) ==> (e matches CodegraphError::Parse { path } && path@ == file@),
{
    let gf = grammar_fn(g);
    match parse_source(&gf, source) {
        Some(p) => match build_tree(&p, source) {
            Some(t) => Ok(t),
            None => Err(CodegraphError::Parse { path: file.to_owned() }),
        },
        None => Err(CodegraphError::Parse { path: file.to_owned() }),
    }
}

/// What extraction states of the facts `f` of `source` (the text of `file`)
/// in language `lang`: what that language's walk builds from a syntax tree
/// its grammar parses `source` into (for HCL, the module symbol alone).
pub open spec fn extracted(lang: Language, source: Seq<char>, file: Seq<char>, f: FileFacts) -> bool {
    match lang {
        Language::Go => exists|t: SyntaxTree|
            parsed_by(t, Grammar::Go, source) && #[trigger] go::go_facts_of(t, source, file, f),
        Language::Java => exists|t: SyntaxTree|
            parsed_by(t, Grammar::Java, source) && #[trigger] java::java_facts_of(t, source, file, f),
        Language::Hcl => hcl::hcl_facts_of(source, file, f),
        Language::Rust => exists|t: SyntaxTree|
            parsed_by(t, Grammar::Rust, source) && #[trigger] rust::rust_facts_of(t, source, file, f),
        Language::Python => exists|t: SyntaxTree|
            parsed_by(t, Grammar::Python, source) && #[trigger] python::python_facts_of(t, source, file, f),
        Language::Solidity => exists|t: SyntaxTree|
            parsed_by(t, Grammar::Solidity, source) && #[trigger] solidity::solidity_facts_of(t, source, file, f),
        Language::Kotlin => exists|t: SyntaxTree|
            parsed_by(t, Grammar::Kotlin, source) && #[trigger] kotlin::kotlin_facts_of(t, source, file, f),
        Language::Php => exists|t: SyntaxTree|
            parsed_by(t, Grammar::Php, source) && #[trigger] php::php_facts_of(t, source, file, f),
        Language::C => exists|t: SyntaxTree|
            parsed_by(t, Grammar::C, source) && #[trigger] c::c_facts_of(t, source, file, f),
        Language::Ruby => exists|t: SyntaxTree|
            parsed_by(t, Grammar::Ruby, source) && #[trigger] ruby::ruby_facts_of(t, source, file, f),
        Language::Shell => exists|t: SyntaxTree|
            parsed_by(t, Grammar::Bash, source) && #[trigger] shell::shell_facts_of(t, source, file, f),
        Language::Cpp => exists|t: SyntaxTree|
            parsed_by(t, Grammar::Cpp, source) && #[trigger] cpp::cpp_facts_of(t, source, file, f),
        _ => false,
    }
}

/// The languages this build can extract.
pub open spec fn supported(lang: Language) -> bool {
    lang == Language::Go || lang == Language::Java || lang == Language::Hcl || lang == Language::Rust
        || lang == Language::Python || lang == Language::Solidity
        || lang == Language::Kotlin || lang == Language::Php
        || lang == Language::C || lang == Language::Ruby || lang == Language::Shell
        || lang == Language::Cpp
}

/// The grammar a supported language is parsed with.
pub open spec fn grammar_of(lang: Language) -> Grammar {
    match lang {
        Language::C => Grammar::C,
        Language::Cpp => Grammar::Cpp,
        Language::Go => Grammar::Go,
        Language::Hcl => Grammar::Hcl,
        Language::Java => Grammar::Java,
        Language::Kotlin => Grammar::Kotlin,
        Language::Php => Grammar::Php,
        Language::Python => Grammar::Python,
        Language::Ruby => Grammar::Ruby,
        Language::Rust => Grammar::Rust,
        Language::Solidity => Grammar::Solidity,
        _ => Grammar::Bash,
    }
}

/// Law: no two supported languages are parsed with the same grammar.
pub proof fn law_supported_languages_have_their_own_grammar(a: Language, b: Language)
    requires
        supported(a),
        supported(b),
        a != b,
    ensures
        grammar_of(a) != grammar_of(b),
{
}

/// What extracting `source` (the text of `file`) as language `lang` gives:
/// for a supported language, facts exactly when its grammar parses the
/// source (what that language's walk builds), else a parse error naming
/// the file; for another language, an `UnsupportedLanguage` error naming it.
pub open spec fn extraction(lang: Language, source: Seq<char>, file: Seq<char>, r: Result<FileFacts>) -> bool {
    if supported(lang) {
        &&& (r is Ok <==> parses(grammar_of(lang), source))
        &&& (r matches Ok(f) ==> facts_wf(f, file, source, lang) && extracted(lang, source, file, f))
        &&& (r matches Err(e) ==> (e matches CodegraphError::Parse { path } && path@ == file))
    } else {
        r matches Err(CodegraphError::UnsupportedLanguage(m)) && m@ == lang_name(lang) + " (grammar feature disabled)"@
    }
}

/// Extract facts from a single file, dispatching on its language. A language
/// without a bundled grammar is an `UnsupportedLanguage` error naming it.
pub fn extract_file(lang: Language, source: &str, file: &str) -> (r: Result<FileFacts>)
    ensures
        extraction(lang, source@, file@, r),
{
    match lang {
        Language::Go => GoExtractor.extract(source, file),
        Language::Java => JavaExtractor.extract(source, file),
        Language::Hcl => HclExtractor.extract(source, file),
        Language::Rust => RustExtractor.extract(source, file),
        Language::Python => PythonExtractor.extract(source, file),
        Language::Solidity => SolidityExtractor.extract(source, file),
        Language::Kotlin => KotlinExtractor.extract(source, file),
        Language::Php => PhpExtractor.extract(source, file),
        Language::C => CExtractor.extract(source, file),
        Language::Ruby => RubyExtractor.extract(source, file),
        Language::Shell => ShellExtractor.extract(source, file),
        Language::Cpp => CppExtractor.extract(source, file),
        _ => {
            let m = String::from_str(lang.as_str());
            Err(CodegraphError::UnsupportedLanguage(m.concat(" (grammar feature disabled)")))
        },
    }
}

/// Extract facts from a file, inferring the language from its extension. A
/// path without a known extension is an `UnsupportedLanguage` error naming
/// the path.
pub fn extract_path(file: &str, source: &str) -> (r: Result<FileFacts>)
    ensures
        lang_of_path(file@) is None ==> (r matches Err(CodegraphError::UnsupportedLanguage(m)) && m@ == file@),
        lang_of_path(file@) matches Some(l) ==> extraction(l, source@, file@, r),
{
    match Language::from_path(file) {
        Some(l) => extract_file(l, source, file),
        None => Err(CodegraphError::UnsupportedLanguage(file.to_owned())),
    }
}

} // verus!
