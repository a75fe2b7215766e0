use code2graph::{BindingKind, Extractor, RefRole, ScopeId, ScopeKind, SymbolKind};
use code2graph::extract::GoExtractor;

#[test]
fn extracts_exported_defs() {
    let src = r#"
package auth

func Validate(tok string) bool { return true }
type Config struct { Timeout int }
type Reader interface { Read() error }
const Max = 3
func helper() {}
"#;
    let facts = GoExtractor.extract(src, "src/auth/session.go").unwrap();
    let by_name = |n: &str| facts.symbols.iter().find(|s| s.name == n).cloned();

    let vt = by_name("Validate").unwrap();
    assert_eq!(
        vt.id.to_scip_string(),
        "codegraph . . . auth/session/Validate()."
    );
    assert_eq!(vt.kind, SymbolKind::Function);

    assert_eq!(by_name("Config").unwrap().kind, SymbolKind::Struct);
    assert_eq!(by_name("Reader").unwrap().kind, SymbolKind::Interface);
    assert_eq!(by_name("Max").unwrap().kind, SymbolKind::Const);

    // unexported — must not appear
    assert!(by_name("helper").is_none());

    assert_eq!(facts.lang, "go");
}

#[test]
fn extracts_method_declaration() {
    let src = r#"
package run

type Server struct{}

func (s *Server) Start() { }
"#;
    let facts = GoExtractor.extract(src, "src/run.go").unwrap();
    let start = facts.symbols.iter().find(|s| s.name == "Start").unwrap();
    assert_eq!(start.kind, SymbolKind::Method);
    assert_eq!(start.id.to_scip_string(), "codegraph . . . run/Start().");
}

#[test]
fn go_extracts_call_references() {
    let src = r#"
package main

func main() {
Validate("t")
obj.Close()
}
"#;
    let facts = GoExtractor.extract(src, "src/main.go").unwrap();
    let names: Vec<&str> = facts.references.iter().map(|r| r.name.as_str()).collect();
    assert!(names.contains(&"Validate"));
    assert!(names.contains(&"Close"));
}

#[test]
fn import_single_stdlib() {
    let src = "package main\nimport \"fmt\"\n";
    let facts = GoExtractor.extract(src, "src/main.go").unwrap();
    let imports: Vec<&str> = facts
        .references
        .iter()
        .filter(|r| r.role == RefRole::Import)
        .map(|r| r.name.as_str())
        .collect();
    assert_eq!(imports, vec!["fmt"]);
}

#[test]
fn import_deep_path_leaf() {
    let src = "package main\nimport \"github.com/x/y/pkg\"\n";
    let facts = GoExtractor.extract(src, "src/main.go").unwrap();
    let imports: Vec<&str> = facts
        .references
        .iter()
        .filter(|r| r.role == RefRole::Import)
        .map(|r| r.name.as_str())
        .collect();
    assert_eq!(imports, vec!["pkg"]);
}

#[test]
fn import_grouped() {
    let src = "package main\nimport (\n  \"os\"\n  \"io/ioutil\"\n)\n";
    let facts = GoExtractor.extract(src, "src/main.go").unwrap();
    let mut imports: Vec<&str> = facts
        .references
        .iter()
        .filter(|r| r.role == RefRole::Import)
        .map(|r| r.name.as_str())
        .collect();
    imports.sort_unstable();
    assert_eq!(imports, vec!["ioutil", "os"]);
}

#[test]
fn import_aliased_emits_leaf_not_alias() {
    let src = "package main\nimport f \"fmt\"\n";
    let facts = GoExtractor.extract(src, "src/main.go").unwrap();
    let imports: Vec<&str> = facts
        .references
        .iter()
        .filter(|r| r.role == RefRole::Import)
        .map(|r| r.name.as_str())
        .collect();
    // The package leaf "fmt" must be emitted; the alias "f" must not appear
    // as an Import reference.
    assert_eq!(imports, vec!["fmt"]);
    let aliases: Vec<&str> = facts
        .references
        .iter()
        .filter(|r| r.role == RefRole::Import && r.name == "f")
        .map(|r| r.name.as_str())
        .collect();
    assert!(
        aliases.is_empty(),
        "alias 'f' should not appear as an Import ref"
    );
}

// ── Tier-B scope / binding tests ─────────────────────────────────────────

#[test]
fn func_params_emit_param_bindings() {
    // `func f(a int, b int) {}` → two Param bindings in a Function scope.
    let src = "package p\nfunc f(a int, b int) {}\n";
    let facts = GoExtractor.extract(src, "src/p.go").unwrap();

    let fn_scope_id = facts
        .scopes
        .iter()
        .position(|s| s.kind == ScopeKind::Function)
        .expect("expected a Function scope");

    let mut param_names: Vec<(&str, ScopeId)> = facts
        .bindings
        .iter()
        .filter(|b| b.kind == BindingKind::Param)
        .map(|b| (b.name.as_str(), b.scope))
        .collect();
    param_names.sort_by_key(|(n, _)| *n);

    assert_eq!(
        param_names,
        vec![("a", fn_scope_id), ("b", fn_scope_id)],
        "expected Param bindings for a and b, got {param_names:?}"
    );
}

#[test]
fn method_receiver_emits_param_binding() {
    // `func (s *Server) Start() {}` → Param binding for `s`.
    let src = "package p\ntype Server struct{}\nfunc (s *Server) Start() {}\n";
    let facts = GoExtractor.extract(src, "src/p.go").unwrap();

    let s_binding = facts
        .bindings
        .iter()
        .find(|b| b.kind == BindingKind::Param && b.name == "s")
        .expect("expected a Param binding named 's'");
    assert_eq!(
        facts.scopes[s_binding.scope].kind,
        ScopeKind::Function,
        "receiver binding 's' should be in a Function scope"
    );
}

#[test]
fn short_var_decl_emits_local() {
    // `func f() { x := 1 }` → Local binding for `x`.
    let src = "package p\nfunc f() { x := 1 }\n";
    let facts = GoExtractor.extract(src, "src/p.go").unwrap();

    let x = facts
        .bindings
        .iter()
        .find(|b| b.kind == BindingKind::Local && b.name == "x")
        .expect("expected a Local binding for 'x'");
    assert_eq!(
        facts.scopes[x.scope].kind,
        ScopeKind::Function,
        "x should be in a Function scope"
    );
}

#[test]
fn multi_name_short_var_emits_two_locals() {
    // `func f() { a, b := 1, 2 }` → two Local bindings.
    let src = "package p\nfunc f() { a, b := 1, 2 }\n";
    let facts = GoExtractor.extract(src, "src/p.go").unwrap();

    let locals: Vec<&str> = facts
        .bindings
        .iter()
        .filter(|b| b.kind == BindingKind::Local)
        .map(|b| b.name.as_str())
        .collect();
    assert!(
        locals.contains(&"a"),
        "expected Local for 'a', got {locals:?}"
    );
    assert!(
        locals.contains(&"b"),
        "expected Local for 'b', got {locals:?}"
    );
}

#[test]
fn blank_identifier_skipped() {
    // `func f() { _, b := g() }` → Local `b` only; no binding for `_`.
    let src = "package p\nfunc g() (int, int) { return 0, 0 }\nfunc f() { _, b := g() }\n";
    let facts = GoExtractor.extract(src, "src/p.go").unwrap();

    assert!(
        !facts
            .bindings
            .iter()
            .any(|b| b.kind == BindingKind::Local && b.name == "_"),
        "blank '_' must not produce a Local binding"
    );
    assert!(
        facts
            .bindings
            .iter()
            .any(|b| b.kind == BindingKind::Local && b.name == "b"),
        "expected Local binding for 'b'"
    );
}

#[test]
fn var_spec_inside_func_emits_local() {
    // `func f() { var x int }` → Local binding for `x`.
    let src = "package p\nfunc f() { var x int }\n";
    let facts = GoExtractor.extract(src, "src/p.go").unwrap();

    let x = facts
        .bindings
        .iter()
        .find(|b| b.kind == BindingKind::Local && b.name == "x")
        .expect("expected a Local binding for 'x'");
    assert_eq!(
        facts.scopes[x.scope].kind,
        ScopeKind::Function,
        "var inside func should bind in a Function scope"
    );
}

#[test]
fn for_range_vars_emit_locals() {
    // `func f() { for i, v := range xs { _ = i; _ = v } }` → Locals `i`, `v`.
    let src = "package p\nfunc f() { var xs []int\nfor i, v := range xs { _ = i; _ = v } }\n";
    let facts = GoExtractor.extract(src, "src/p.go").unwrap();

    let locals: Vec<&str> = facts
        .bindings
        .iter()
        .filter(|b| b.kind == BindingKind::Local)
        .map(|b| b.name.as_str())
        .collect();
    assert!(
        locals.contains(&"i"),
        "expected Local for 'i', got {locals:?}"
    );
    assert!(
        locals.contains(&"v"),
        "expected Local for 'v', got {locals:?}"
    );
}

#[test]
fn top_level_var_is_not_local_but_is_definition() {
    // `var Config int` at package level → Definition binding only, no Local.
    let src = "package p\nvar Config int\n";
    let facts = GoExtractor.extract(src, "src/p.go").unwrap();

    assert!(
        !facts
            .bindings
            .iter()
            .any(|b| b.kind == BindingKind::Local && b.name == "Config"),
        "top-level var must NOT be a Local binding"
    );
    assert!(
        facts
            .bindings
            .iter()
            .any(|b| b.kind == BindingKind::Definition && b.name == "Config"),
        "top-level var must have a Definition binding"
    );
}

#[test]
fn nested_block_produces_block_scope_and_ref_attaches_to_it() {
    // A single function with a bare inner block containing a call:
    //   func f() { { helper() } }
    // Expected scopes: Module(0) → Function(1) → Block(2).
    // The `helper` call ref must attribute to the Block scope.
    let src = "package p\nfunc f() { { helper() } }\n";
    let facts = GoExtractor.extract(src, "src/p.go").unwrap();

    assert_eq!(
        facts.scopes[0].kind,
        ScopeKind::Module,
        "scopes[0] must be Module"
    );

    let fn_scope_id = facts
        .scopes
        .iter()
        .position(|s| s.kind == ScopeKind::Function)
        .expect("expected a Function scope");
    let block_scope_id = facts
        .scopes
        .iter()
        .position(|s| s.kind == ScopeKind::Block)
        .expect("expected a Block scope");

    // Block's parent must be the Function scope.
    assert_eq!(
        facts.scopes[block_scope_id].parent,
        Some(fn_scope_id),
        "Block scope parent should be the Function scope"
    );

    // `helper` call ref must be in the Block scope (innermost).
    let h_ref = facts
        .references
        .iter()
        .find(|r| r.role == RefRole::Call && r.name == "helper")
        .expect("expected a Call ref for 'helper'");
    assert_eq!(
        h_ref.scope,
        Some(block_scope_id),
        "helper() call should be in the Block scope ({}), got {:?}",
        block_scope_id,
        h_ref.scope
    );
}

#[test]
fn top_level_func_emits_definition_binding() {
    // `func Helper() {}` → Definition binding named "Helper".
    let src = "package p\nfunc Helper() {}\n";
    let facts = GoExtractor.extract(src, "src/p.go").unwrap();

    let b = facts
        .bindings
        .iter()
        .find(|b| b.kind == BindingKind::Definition && b.name == "Helper")
        .expect("expected a Definition binding for 'Helper'");
    assert_eq!(b.scope, 0, "top-level def must bind in scope 0");
}
