use code2graph::extract::{RubyExtractor, ShellExtractor, GoExtractor, JavaExtractor};
use code2graph::extract::{extract_file, extract_path};
use code2graph::{CodegraphError, Extractor, Language, ScopeKind, SymbolKind};

#[test]
fn ruby_nested_definitions_scip() {
    let src = "\nmodule Auth\n  class Session\n    MAX = 3\n    def validate(token)\n      check(token)\n    end\n    def self.create\n    end\n  end\nend\n\nTOP = 1\ndef helper\nend\n";
    let facts = RubyExtractor.extract(src, "lib/auth/session.rb").unwrap();
    let by_name = |n: &str| facts.symbols.iter().find(|s| s.name == n).cloned();
    assert_eq!(by_name("Auth").unwrap().kind, SymbolKind::Module);
    assert_eq!(by_name("Auth").unwrap().id.to_scip_string(), "codegraph . . . auth/session/Auth#");
    assert_eq!(by_name("Session").unwrap().id.to_scip_string(), "codegraph . . . auth/session/Auth#Session#");
    assert_eq!(by_name("MAX").unwrap().id.to_scip_string(), "codegraph . . . auth/session/Auth#Session#MAX.");
    assert_eq!(by_name("validate").unwrap().id.to_scip_string(), "codegraph . . . auth/session/Auth#Session#validate().");
    assert_eq!(by_name("create").unwrap().id.to_scip_string(), "codegraph . . . auth/session/Auth#Session#create().");
    assert_eq!(by_name("TOP").unwrap().id.to_scip_string(), "codegraph . . . auth/session/TOP.");
    assert_eq!(by_name("helper").unwrap().id.to_scip_string(), "codegraph . . . auth/session/helper().");
    assert_eq!(facts.lang, "ruby");
}

#[test]
fn shell_function_styles_scip() {
    let src = "validate() { return 0; }\nfunction deploy { echo done; }\nfunction run() { validate; }\n";
    let facts = ShellExtractor.extract(src, "scripts/deploy.sh").unwrap();
    let by_name = |n: &str| facts.symbols.iter().find(|s| s.name == n).cloned();
    let v = by_name("validate").unwrap();
    assert_eq!(v.kind, SymbolKind::Function);
    assert_eq!(v.id.to_scip_string(), "codegraph . . . deploy/validate().");
    assert!(by_name("deploy").is_some());
    assert!(by_name("run").is_some());
    assert_eq!(facts.lang, "shell");
}

#[test]
fn unknown_extension_is_unsupported_naming_the_path() {
    match extract_path("notes/readme.txt", "hello") {
        Err(CodegraphError::UnsupportedLanguage(m)) => assert_eq!(m, "notes/readme.txt"),
        other => panic!("unexpected {other:?}"),
    }
    match extract_path("Makefile", "all:") {
        Err(CodegraphError::UnsupportedLanguage(m)) => assert_eq!(m, "Makefile"),
        other => panic!("unexpected {other:?}"),
    }
}

#[test]
fn language_without_grammar_is_reported() {
    match extract_file(Language::Dart, "void main() {}", "lib/a.dart") {
        Err(CodegraphError::UnsupportedLanguage(m)) => assert_eq!(m, "dart (grammar feature disabled)"),
        other => panic!("unexpected {other:?}"),
    }
}

#[test]
fn every_reference_lies_in_its_innermost_scope() {
    let src = "package main\n\nfunc Outer() {\n\tif true {\n\t\tInner()\n\t}\n}\n";
    let facts = GoExtractor.extract(src, "src/app/main.go").unwrap();
    assert_eq!(facts.scopes[0].kind, ScopeKind::Module);
    assert_eq!(facts.scopes[0].span.end, src.len());
    for r in &facts.references {
        let id = r.scope.expect("every reference has a scope");
        let s = &facts.scopes[id];
        assert!(s.span.start <= r.occ.byte && r.occ.byte < s.span.end);
        for (j, other) in facts.scopes.iter().enumerate() {
            if other.span.start <= r.occ.byte && r.occ.byte < other.span.end {
                assert!(other.span.end - other.span.start >= s.span.end - s.span.start || j <= id);
            }
        }
    }
}

#[test]
fn module_symbol_closes_the_symbol_list() {
    let facts = JavaExtractor.extract("package a.b;\npublic class C {}\n", "src/a/b/C.java").unwrap();
    let last = facts.symbols.last().unwrap();
    assert_eq!(last.kind, SymbolKind::Module);
    assert_eq!(last.name, "b");
    assert_eq!(last.id.to_scip_string(), "codegraph . . . a/b/");
    assert_eq!(last.span.start, 0);
}

#[test]
fn jni_native_method_calls_its_mangled_export() {
    let src = "package com.ex;\npublic class Lib {\n    public native int sum(int a);\n}\n";
    let facts = JavaExtractor.extract(src, "src/com/ex/Lib.java").unwrap();
    assert!(facts.references.iter().any(|r| r.name == "Java_com_ex_Lib_sum"));
}

#[test]
fn c_jni_functions_are_exported_under_their_names() {
    let src = "int Java_com_ex_Lib_sum(int a) { return a; }\nint plain(void) { return 0; }\n";
    let facts = code2graph::extract::CExtractor.extract(src, "src/native/lib.c").unwrap();
    assert_eq!(facts.ffi_exports.len(), 1);
    assert_eq!(facts.ffi_exports[0].export_name, "Java_com_ex_Lib_sum");
    assert_eq!(facts.ffi_exports[0].abi, code2graph::FfiAbi::Jni);
    assert_eq!(facts.ffi_exports[0].symbol.to_scip_string(), "codegraph . . . native/lib/Java_com_ex_Lib_sum().");
}

#[test]
fn error_messages_name_the_offending_input() {
    assert_eq!(
        CodegraphError::UnsupportedLanguage("notes.txt".to_string()).message(),
        "unsupported language for `notes.txt`"
    );
    assert_eq!(CodegraphError::Parse { path: "src/a.rs".to_string() }.message(), "parse error in `src/a.rs`");
    assert_eq!(
        CodegraphError::Query { lang: "go".to_string(), msg: "bad pattern".to_string() }.message(),
        "invalid tree-sitter query for `go`: bad pattern"
    );
}
