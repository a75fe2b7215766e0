use code2graph::{BindingKind, BindingTarget, Extractor, Language, RefRole, ScopeId, ScopeKind, SymbolKind};
use code2graph::extract::RustExtractor;
use code2graph::extract::rust::{collect_scopes, rust_namespaces};
use code2graph::extract::parse_tree;
use code2graph::extract::ts::Grammar;

#[test]
fn extracts_defs_with_scip_ids() {
    let src = r#"
pub fn validate_token(tok: &str) -> bool { helper() }
fn private_helper() {}
pub struct Config { pub value: u32 }
"#;
    let facts = RustExtractor.extract(src, "src/auth/session.rs").unwrap();
    let names: Vec<&str> = facts.symbols.iter().map(|s| s.name.as_str()).collect();
    assert!(names.contains(&"validate_token"));
    assert!(names.contains(&"Config"));
    assert!(!names.contains(&"private_helper")); // not `pub`

    let vt = facts
        .symbols
        .iter()
        .find(|s| s.name == "validate_token")
        .unwrap();
    assert_eq!(
        vt.id.to_scip_string(),
        "codegraph . . . auth/session/validate_token()."
    );
    assert_eq!(vt.kind, SymbolKind::Function);
}

#[test]
fn rust_extracts_call_references() {
    let src = "pub fn main() { validate_token(\"t\"); helper(); }";
    let facts = RustExtractor.extract(src, "src/main.rs").unwrap();
    let names: Vec<&str> = facts.references.iter().map(|r| r.name.as_str()).collect();
    assert!(names.contains(&"validate_token"));
    assert!(names.contains(&"helper"));
}

#[test]
fn trait_impl_emits_inherit_ref_and_inherent_impl_does_not() {
    // Trait impl → one Inherit ref named "Display".
    let src_trait_impl = r#"
use std::fmt;
pub struct Point;
impl fmt::Display for Point {
fn fmt(&self, f: &mut fmt::Formatter<'_>) -> fmt::Result { Ok(()) }
}
"#;
    let facts = RustExtractor
        .extract(src_trait_impl, "src/point.rs")
        .unwrap();
    let inherit_names: Vec<&str> = facts
        .references
        .iter()
        .filter(|r| r.role == RefRole::IsImplementation)
        .map(|r| r.name.as_str())
        .collect();
    assert!(
        inherit_names.contains(&"Display"),
        "expected 'Display' in {inherit_names:?}"
    );

    // Inherent impl → no Inherit ref.
    let src_inherent = "pub struct Point; impl Point { pub fn new() -> Self { Point } }";
    let facts2 = RustExtractor.extract(src_inherent, "src/point.rs").unwrap();
    let inherit2: Vec<&str> = facts2
        .references
        .iter()
        .filter(|r| r.role == RefRole::IsImplementation)
        .map(|r| r.name.as_str())
        .collect();
    assert!(
        inherit2.is_empty(),
        "expected no Inherit refs, got {inherit2:?}"
    );
}

#[test]
fn supertrait_bounds_emit_inherit_refs() {
    let src = "pub trait Foo: Bar + Baz {}";
    let facts = RustExtractor.extract(src, "src/lib.rs").unwrap();
    let inherit_names: Vec<&str> = facts
        .references
        .iter()
        .filter(|r| r.role == RefRole::IsImplementation)
        .map(|r| r.name.as_str())
        .collect();
    assert!(
        inherit_names.contains(&"Bar"),
        "expected 'Bar' in {inherit_names:?}"
    );
    assert!(
        inherit_names.contains(&"Baz"),
        "expected 'Baz' in {inherit_names:?}"
    );
}

#[test]
fn scoped_trait_path_emits_leaf_name() {
    // `impl std::fmt::Display for Point {}` → leaf name "Display"
    let src = r#"
pub struct Point;
impl std::fmt::Display for Point {
fn fmt(&self, f: &mut std::fmt::Formatter<'_>) -> std::fmt::Result { Ok(()) }
}
"#;
    let facts = RustExtractor.extract(src, "src/point.rs").unwrap();
    let inherit_names: Vec<&str> = facts
        .references
        .iter()
        .filter(|r| r.role == RefRole::IsImplementation)
        .map(|r| r.name.as_str())
        .collect();
    assert!(
        inherit_names.contains(&"Display"),
        "expected 'Display' in {inherit_names:?}"
    );
}

// ── Import reference tests ────────────────────────────────────────────────

#[test]
fn import_scoped_identifier_emits_leaf() {
    // `use a::b::Config;` → one Import ref `Config`
    let src = "use a::b::Config;";
    let facts = RustExtractor.extract(src, "src/lib.rs").unwrap();
    let import_names: Vec<&str> = facts
        .references
        .iter()
        .filter(|r| r.role == RefRole::Import)
        .map(|r| r.name.as_str())
        .collect();
    assert_eq!(
        import_names,
        vec!["Config"],
        "expected ['Config'], got {import_names:?}"
    );
}

#[test]
fn import_use_list_emits_all_leaves() {
    // `use std::collections::{HashMap, HashSet};` → Import refs `HashMap` and `HashSet`
    let src = "use std::collections::{HashMap, HashSet};";
    let facts = RustExtractor.extract(src, "src/lib.rs").unwrap();
    let mut import_names: Vec<&str> = facts
        .references
        .iter()
        .filter(|r| r.role == RefRole::Import)
        .map(|r| r.name.as_str())
        .collect();
    import_names.sort_unstable();
    assert_eq!(
        import_names,
        vec!["HashMap", "HashSet"],
        "expected ['HashMap', 'HashSet'], got {import_names:?}"
    );
}

#[test]
fn import_use_as_clause_emits_real_leaf_not_alias() {
    // `use a::b as c;` → Import ref `b` (not `c`)
    let src = "use a::b as c;";
    let facts = RustExtractor.extract(src, "src/lib.rs").unwrap();
    let import_names: Vec<&str> = facts
        .references
        .iter()
        .filter(|r| r.role == RefRole::Import)
        .map(|r| r.name.as_str())
        .collect();
    assert_eq!(
        import_names,
        vec!["b"],
        "expected ['b'], got {import_names:?}"
    );
}

#[test]
fn import_wildcard_emits_nothing() {
    // `use a::*;` → NO Import refs
    let src = "use a::*;";
    let facts = RustExtractor.extract(src, "src/lib.rs").unwrap();
    let import_names: Vec<&str> = facts
        .references
        .iter()
        .filter(|r| r.role == RefRole::Import)
        .map(|r| r.name.as_str())
        .collect();
    assert!(
        import_names.is_empty(),
        "expected no Import refs, got {import_names:?}"
    );
}

#[test]
fn import_simple_scoped_path_emits_leaf() {
    // `use std::io::Result;` → Import ref `Result`
    let src = "use std::io::Result;";
    let facts = RustExtractor.extract(src, "src/lib.rs").unwrap();
    let import_names: Vec<&str> = facts
        .references
        .iter()
        .filter(|r| r.role == RefRole::Import)
        .map(|r| r.name.as_str())
        .collect();
    assert_eq!(
        import_names,
        vec!["Result"],
        "expected ['Result'], got {import_names:?}"
    );
}

#[test]
fn rust_import_refs_carry_source_module() {
    // `use std::io::Result;` in src/net/client.rs → Import ref carries
    // the module SCIP id of net/client.
    let src = "use std::io::Result;";
    let file = "src/net/client.rs";
    let facts = RustExtractor.extract(src, file).unwrap();

    let namespaces = rust_namespaces(file);
    let expected_module_id =
        code2graph::extract::module_symbol(Language::Rust, &namespaces, file, src.len())
            .id
            .to_scip_string();

    let import_refs: Vec<_> = facts
        .references
        .iter()
        .filter(|r| r.role == RefRole::Import)
        .collect();
    assert!(!import_refs.is_empty(), "expected at least one Import ref");
    for r in &import_refs {
        assert_eq!(
            r.source_module,
            Some(expected_module_id.clone()),
            "Import ref '{}' should carry source_module = {:?}",
            r.name,
            expected_module_id
        );
    }
}

// --- from_path tests ---

#[test]
fn import_scoped_identifier_carries_from_path() {
    // `use std::io::Result;` → from_path == "std::io"
    let src = "use std::io::Result;";
    let facts = RustExtractor.extract(src, "src/lib.rs").unwrap();
    let r = facts
        .references
        .iter()
        .find(|r| r.role == RefRole::Import && r.name == "Result")
        .expect("expected Import ref for 'Result'");
    assert_eq!(
        r.from_path,
        Some("std::io".to_owned()),
        "from_path should be 'std::io', got {:?}",
        r.from_path
    );
}

#[test]
fn import_use_list_leaves_carry_prefix_as_from_path() {
    // `use std::collections::{HashMap, BTreeMap};`
    // Both leaf refs must have from_path == "std::collections".
    let src = "use std::collections::{HashMap, BTreeMap};";
    let facts = RustExtractor.extract(src, "src/lib.rs").unwrap();
    let import_refs: Vec<_> = facts
        .references
        .iter()
        .filter(|r| r.role == RefRole::Import)
        .collect();
    assert_eq!(
        import_refs.len(),
        2,
        "expected 2 Import refs, got {:?}",
        import_refs.iter().map(|r| &r.name).collect::<Vec<_>>()
    );
    for r in &import_refs {
        assert_eq!(
            r.from_path,
            Some("std::collections".to_owned()),
            "from_path for '{}' should be 'std::collections', got {:?}",
            r.name,
            r.from_path
        );
    }
}

// ── Scope tree tests ──────────────────────────────────────────────────────

#[test]
fn scope_fn_with_call_has_function_scope_and_ref_attaches_to_it() {
    // A function containing a call: assert root Module scope (index 0) and a
    // Function scope; the call reference's scope should be Some(fn_scope_id),
    // not Some(0) (the root).
    let src = "pub fn greet() { helper(); }";
    let facts = RustExtractor.extract(src, "src/lib.rs").unwrap();

    // scopes[0] must be the file-root Module.
    assert!(!facts.scopes.is_empty(), "scopes must not be empty");
    assert_eq!(
        facts.scopes[0].kind,
        ScopeKind::Module,
        "scopes[0] must be Module"
    );
    assert_eq!(facts.scopes[0].parent, None, "root scope has no parent");

    // There must be at least one Function scope.
    let fn_scope_pos = facts
        .scopes
        .iter()
        .position(|s| s.kind == ScopeKind::Function)
        .expect("expected a Function scope");

    // The call reference to `helper` must be attributed to the Function scope,
    // not the root.
    let helper_ref = facts
        .references
        .iter()
        .find(|r| r.role == RefRole::Call && r.name == "helper")
        .expect("expected a Call ref for 'helper'");
    assert_eq!(
        helper_ref.scope,
        Some(fn_scope_pos),
        "helper call should be attributed to the Function scope ({}), got {:?}",
        fn_scope_pos,
        helper_ref.scope
    );
}

#[test]
fn nested_block_scope_parent_chains_correctly() {
    // A function whose body contains an inner bare `{ }` block:
    //   fn outer() { { inner_call(); } }
    // Scopes expected: root Module (0), Function (1), Block (2).
    // A ref inside the block must attribute to the Block scope,
    // and the Block scope's parent must be the Function scope.
    let src = "fn outer() { { inner_call(); } }";
    let facts = RustExtractor.extract(src, "src/lib.rs").unwrap();

    let fn_scope_id = facts
        .scopes
        .iter()
        .position(|s| s.kind == ScopeKind::Function)
        .expect("expected a Function scope");
    let block_scope_id = facts
        .scopes
        .iter()
        .position(|s| s.kind == ScopeKind::Block)
        .expect("expected a Block scope");

    // Block's parent must be the Function scope.
    assert_eq!(
        facts.scopes[block_scope_id].parent,
        Some(fn_scope_id),
        "Block scope parent should be the Function scope"
    );

    // The call ref inside the block must attribute to the Block scope (innermost).
    let inner_ref = facts
        .references
        .iter()
        .find(|r| r.role == RefRole::Call && r.name == "inner_call")
        .expect("expected a Call ref for 'inner_call'");
    assert_eq!(
        inner_ref.scope,
        Some(block_scope_id),
        "inner_call should attribute to the Block scope ({}), got {:?}",
        block_scope_id,
        inner_ref.scope
    );
}

#[test]
fn empty_source_produces_exactly_one_root_scope() {
    // Empty source → collect_scopes returns exactly one scope (the file root),
    // does not panic.
    let tree = parse_tree(Grammar::Rust, "", "src/lib.rs").unwrap();

    let scopes = collect_scopes(&tree, 0);
    assert_eq!(
        scopes.len(),
        1,
        "empty source should produce exactly one scope"
    );
    assert_eq!(scopes[0].kind, ScopeKind::Module);
    assert_eq!(scopes[0].parent, None);
}

// ── Binding tests ─────────────────────────────────────────────────────────

#[test]
fn fn_params_emit_param_bindings() {
    // `fn f(a: u32, b: u32) { }` → two Param bindings named `a` and `b`,
    // both attributed to the Function scope, both targeting Local.
    let src = "fn f(a: u32, b: u32) { }";
    let facts = RustExtractor.extract(src, "src/lib.rs").unwrap();

    let fn_scope_id = facts
        .scopes
        .iter()
        .position(|s| s.kind == ScopeKind::Function)
        .expect("expected a Function scope");

    let mut param_names: Vec<(&str, ScopeId)> = facts
        .bindings
        .iter()
        .filter(|b| b.kind == BindingKind::Param)
        .map(|b| (b.name.as_str(), b.scope))
        .collect();
    param_names.sort_by_key(|(n, _)| *n);

    assert_eq!(
        param_names,
        vec![("a", fn_scope_id), ("b", fn_scope_id)],
        "expected Param bindings for a and b in the Function scope, got {param_names:?}"
    );
    for b in facts
        .bindings
        .iter()
        .filter(|b| b.kind == BindingKind::Param)
    {
        assert_eq!(
            b.target,
            BindingTarget::Local,
            "param binding target must be Local"
        );
    }
}

#[test]
fn self_parameter_emits_param_binding() {
    // `impl S { fn m(&self) {} }` → a Param binding named `"self"`.
    let src = "pub struct S; impl S { fn m(&self) {} }";
    let facts = RustExtractor.extract(src, "src/lib.rs").unwrap();

    let self_binding = facts
        .bindings
        .iter()
        .find(|b| b.kind == BindingKind::Param && b.name == "self")
        .expect("expected a Param binding named 'self'");
    assert_eq!(self_binding.target, BindingTarget::Local);
    // The scope must be a Function scope.
    assert_eq!(
        facts.scopes[self_binding.scope].kind,
        ScopeKind::Function,
        "self binding should be in a Function scope"
    );
}

#[test]
fn let_binding_emits_local_binding() {
    // `fn f() { let x = 1; }` → a Local binding for `x` in the Function scope.
    let src = "fn f() { let x = 1; }";
    let facts = RustExtractor.extract(src, "src/lib.rs").unwrap();

    let fn_scope_id = facts
        .scopes
        .iter()
        .position(|s| s.kind == ScopeKind::Function)
        .expect("expected a Function scope");

    let x_binding = facts
        .bindings
        .iter()
        .find(|b| b.kind == BindingKind::Local && b.name == "x")
        .expect("expected a Local binding for 'x'");

    assert_eq!(
        x_binding.scope, fn_scope_id,
        "x should be in the Function scope"
    );
    assert_eq!(x_binding.target, BindingTarget::Local);

    // intro must equal the start byte of the `x` identifier in the source.
    let expected_intro = src.find('x').expect("'x' not in src");
    assert_eq!(
        x_binding.intro, expected_intro,
        "intro should point at the 'x' token"
    );
}

#[test]
fn shadowing_produces_two_local_bindings_with_different_intros() {
    // `fn f() { let x = 1; let x = 2; }` → two Local bindings both named
    // `x` with DIFFERENT intro offsets (the neutral fact enabling later
    // shadowing resolution).
    let src = "fn f() { let x = 1; let x = 2; }";
    let facts = RustExtractor.extract(src, "src/lib.rs").unwrap();

    let x_bindings: Vec<_> = facts
        .bindings
        .iter()
        .filter(|b| b.kind == BindingKind::Local && b.name == "x")
        .collect();

    assert_eq!(
        x_bindings.len(),
        2,
        "expected exactly two Local bindings for 'x', got {}",
        x_bindings.len()
    );
    assert_ne!(
        x_bindings[0].intro, x_bindings[1].intro,
        "shadowed bindings must have different intro offsets"
    );
}

#[test]
fn nested_block_let_binding_attributes_to_inner_block_scope() {
    // `fn f() { { let y = 1; } }` → the `y` Local binding's scope is the
    // inner Block scope, not the Function scope.
    let src = "fn f() { { let y = 1; } }";
    let facts = RustExtractor.extract(src, "src/lib.rs").unwrap();

    let block_scope_id = facts
        .scopes
        .iter()
        .position(|s| s.kind == ScopeKind::Block)
        .expect("expected a Block scope");

    let y_binding = facts
        .bindings
        .iter()
        .find(|b| b.kind == BindingKind::Local && b.name == "y")
        .expect("expected a Local binding for 'y'");

    assert_eq!(
        y_binding.scope, block_scope_id,
        "y should be attributed to the inner Block scope ({}), got {}",
        block_scope_id, y_binding.scope
    );
}

#[test]
fn impl_block_with_method_nests_type_then_function_scope() {
    // `impl Foo { fn bar() { call(); } }`
    // Expected nesting: root Module (0) → Type (impl body) → Function (method)
    // A call inside the method attributes to the Function scope (innermost).
    let src = "pub struct Foo; impl Foo { pub fn bar(&self) { call(); } }";
    let facts = RustExtractor.extract(src, "src/lib.rs").unwrap();

    let type_scope_id = facts
        .scopes
        .iter()
        .position(|s| s.kind == ScopeKind::Type)
        .expect("expected a Type scope for the impl body");
    let fn_scope_id = facts
        .scopes
        .iter()
        .position(|s| s.kind == ScopeKind::Function)
        .expect("expected a Function scope for the method");

    // Type scope's parent must be the root (0).
    assert_eq!(
        facts.scopes[type_scope_id].parent,
        Some(0),
        "impl body Type scope parent should be root (0)"
    );
    // Function scope's parent must be the Type scope.
    assert_eq!(
        facts.scopes[fn_scope_id].parent,
        Some(type_scope_id),
        "method Function scope parent should be the Type scope"
    );

    // The call ref must attribute to the Function scope (innermost).
    let call_ref = facts
        .references
        .iter()
        .find(|r| r.role == RefRole::Call && r.name == "call")
        .expect("expected a Call ref for 'call'");
    assert_eq!(
        call_ref.scope,
        Some(fn_scope_id),
        "call() should attribute to the Function scope ({}), got {:?}",
        fn_scope_id,
        call_ref.scope
    );
}

#[test]
fn rust_scopes_lie_inside_their_parents() {
    let src = "mod m {\n    impl S {\n        fn f(&self) {\n            let c = |x: u32| { x + 1 };\n            { let y = 2; }\n        }\n    }\n}\n";
    let facts = RustExtractor.extract(src, "src/m.rs").unwrap();
    assert!(facts.scopes.len() >= 5);
    assert_eq!(facts.scopes[0].span.start, 0);
    assert_eq!(facts.scopes[0].span.end, src.len());
    for (i, sc) in facts.scopes.iter().enumerate().skip(1) {
        let p = sc.parent.expect("every scope but the root has a parent");
        assert!(p < i);
        let ps = facts.scopes[p].span;
        assert!(ps.start <= sc.span.start && sc.span.end <= ps.end, "scope {i} lies inside scope {p}");
    }
}

#[test]
fn rust_empty_source_has_only_the_root_scope() {
    let facts = RustExtractor.extract("", "src/empty.rs").unwrap();
    assert_eq!(facts.scopes.len(), 1);
    assert_eq!(facts.scopes[0].kind, ScopeKind::Module);
    assert_eq!(facts.scopes[0].parent, None);
    assert_eq!(facts.scopes[0].span.start, 0);
    assert_eq!(facts.scopes[0].span.end, 0);
}
