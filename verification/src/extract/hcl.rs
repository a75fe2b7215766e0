//! HCL / Terraform: a file stands for its module symbol alone (named after
//! the file's stem); blocks are not extracted and no references, scopes or
//! bindings are recorded.

use vstd::prelude::*;
use vstd::utf8::*;
use crate::error::Result;
use crate::graph::{FileFacts, SymbolKind};
use crate::lang::Language;
use super::Extractor;
use super::tree::SyntaxTree;
use super::ts::Grammar;
use super::support::{facts_wf, file_stem, module_symbol, module_symbol_spec};

verus! {

/// Extracts HCL / Terraform files.
pub struct HclExtractor;

/// The facts `r` of an HCL file `source`, the text of `file`: its module
/// symbol (named after the file's stem) and nothing else.
pub open spec fn hcl_facts_of(source: Seq<char>, file: Seq<char>, r: FileFacts) -> bool {
    &&& r.symbols@.len() == 1
    &&& r.symbols@[0].kind == SymbolKind::Module
    &&& r.symbols@[0].name@ == file_stem(file)
    &&& module_symbol_spec(r.symbols@[0], Language::Hcl, Seq::empty(), file, encode_utf8(source).len() as int)
    &&& r.ffi_exports@.len() == 0
    &&& r.references@.len() == 0
    &&& r.scopes@.len() == 0
    &&& r.bindings@.len() == 0
}

/// The facts of an HCL file: its module symbol only.
pub fn hcl_facts(source: &str, file: &str) -> (r: FileFacts)
    ensures
        facts_wf(r, file@, source@, Language::Hcl),
        hcl_facts_of(source@, file@, r),
{
    let ns: Vec<String> = Vec::new();
    let len = source.as_bytes().len();
    let m = module_symbol(Language::Hcl, &ns, file, len);
    assert(crate::text::views(ns@) =~= Seq::<Seq<char>>::empty());
    FileFacts {
        file: file.to_owned(),
        lang: Language::Hcl.as_str().to_owned(),
        symbols: vec![m],
        references: Vec::new(),
        scopes: Vec::new(),
        bindings: Vec::new(),
        ffi_exports: Vec::new(),
    }
}

impl Extractor for HclExtractor {
    open spec fn spec_lang(&self) -> Language {
        Language::Hcl
    }

    fn lang(&self) -> (r: Language) {
        Language::Hcl
    }

    fn extract(&self, source: &str, file: &str) -> (r: Result<FileFacts>)
        ensures
            r is Ok <==> super::parses(Grammar::Hcl, source@),
            r matches Ok(f) ==> super::extracted(Language::Hcl, source@, file@, f),
    {
        let _t: SyntaxTree = super::parse_tree(Grammar::Hcl, source, file)?;
        let res: Result<FileFacts> = Ok(hcl_facts(source, file));
        assert(hcl_facts_of(source@, file@, res->Ok_0));
        res
    }
}

} // verus!
