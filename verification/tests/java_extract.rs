use code2graph::{BindingKind, Extractor, Language, RefRole, ScopeId, ScopeKind, SymbolKind};
use code2graph::extract::JavaExtractor;

#[test]
fn extracts_public_class_and_method() {
    let src = r#"package com.example.auth;
public class SessionManager {
public boolean validate(String token) { return true; }
private void secret() {}
int packagePrivate;
}
class Helper {}
"#;
    let facts = JavaExtractor
        .extract(src, "src/com/example/auth/SessionManager.java")
        .unwrap();

    let by_name = |n: &str| facts.symbols.iter().find(|s| s.name == n).cloned();

    let sm = by_name("SessionManager").unwrap();
    assert_eq!(sm.kind, SymbolKind::Class);
    assert_eq!(
        sm.id.to_scip_string(),
        "codegraph . . . com/example/auth/SessionManager#"
    );

    let validate = by_name("validate").unwrap();
    assert_eq!(validate.kind, SymbolKind::Method);
    assert_eq!(
        validate.id.to_scip_string(),
        "codegraph . . . com/example/auth/SessionManager#validate()."
    );

    // private method — must not appear
    assert!(by_name("secret").is_none());
    // package-private field — must not appear
    assert!(by_name("packagePrivate").is_none());
    // non-public type — must not appear
    assert!(by_name("Helper").is_none());

    assert_eq!(facts.lang, "java");
}

#[test]
fn interface_members_are_public() {
    let src = r#"package io.svc;
public interface Reader {
int read();
void close();
}
"#;
    let facts = JavaExtractor
        .extract(src, "src/io/svc/Reader.java")
        .unwrap();

    let by_name = |n: &str| facts.symbols.iter().find(|s| s.name == n).cloned();

    let reader = by_name("Reader").unwrap();
    assert_eq!(reader.kind, SymbolKind::Interface);
    assert_eq!(reader.id.to_scip_string(), "codegraph . . . io/svc/Reader#");

    // Both methods must be emitted even though they carry no `public` modifier.
    let read = by_name("read").unwrap();
    assert_eq!(read.kind, SymbolKind::Method);
    assert_eq!(
        read.id.to_scip_string(),
        "codegraph . . . io/svc/Reader#read()."
    );

    let close = by_name("close").unwrap();
    assert_eq!(close.kind, SymbolKind::Method);
    assert_eq!(
        close.id.to_scip_string(),
        "codegraph . . . io/svc/Reader#close()."
    );
}

#[test]
fn java_extracts_call_references() {
    let src = r#"package com.example;
public class Client {
public void run() {
    validate("t");
    new Server();
}
}
"#;
    let facts = JavaExtractor
        .extract(src, "src/com/example/Client.java")
        .unwrap();

    let names: Vec<&str> = facts.references.iter().map(|r| r.name.as_str()).collect();
    assert!(
        names.contains(&"validate"),
        "expected 'validate' in {names:?}"
    );
    assert!(names.contains(&"Server"), "expected 'Server' in {names:?}");
}

#[test]
fn extracts_class_inheritance_references() {
    let src = "package p; public class Foo extends Bar implements Baz {}";
    let facts = JavaExtractor.extract(src, "src/p/Foo.java").unwrap();

    let inherit_names: Vec<&str> = facts
        .references
        .iter()
        .filter(|r| r.role == RefRole::IsImplementation)
        .map(|r| r.name.as_str())
        .collect();
    assert!(
        inherit_names.contains(&"Bar"),
        "expected 'Bar' in {inherit_names:?}"
    );
    assert!(
        inherit_names.contains(&"Baz"),
        "expected 'Baz' in {inherit_names:?}"
    );
}

#[test]
fn java_extracts_interface_extends_reference() {
    let src = "package p; public interface I extends J {}";
    let facts = JavaExtractor.extract(src, "src/p/I.java").unwrap();

    let inherit_names: Vec<&str> = facts
        .references
        .iter()
        .filter(|r| r.role == RefRole::IsImplementation)
        .map(|r| r.name.as_str())
        .collect();
    assert!(
        inherit_names.contains(&"J"),
        "expected 'J' in {inherit_names:?}"
    );
}

#[test]
fn extracts_named_import_reference() {
    let src = "import com.example.Service;\nclass A {}";
    let facts = JavaExtractor.extract(src, "src/A.java").unwrap();

    let import_names: Vec<&str> = facts
        .references
        .iter()
        .filter(|r| r.role == RefRole::Import)
        .map(|r| r.name.as_str())
        .collect();
    assert!(
        import_names.contains(&"Service"),
        "expected 'Service' in {import_names:?}"
    );
    assert_eq!(
        import_names.len(),
        1,
        "unexpected extra imports: {import_names:?}"
    );
}

#[test]
fn extracts_static_import_reference() {
    let src = "import static com.x.Util.helper;\nclass A {}";
    let facts = JavaExtractor.extract(src, "src/A.java").unwrap();

    let import_names: Vec<&str> = facts
        .references
        .iter()
        .filter(|r| r.role == RefRole::Import)
        .map(|r| r.name.as_str())
        .collect();
    assert!(
        import_names.contains(&"helper"),
        "expected 'helper' in {import_names:?}"
    );
    assert_eq!(
        import_names.len(),
        1,
        "unexpected extra imports: {import_names:?}"
    );
}

#[test]
fn wildcard_import_emits_no_reference() {
    let src = "import com.x.*;\nclass A {}";
    let facts = JavaExtractor.extract(src, "src/A.java").unwrap();

    let import_refs: Vec<&str> = facts
        .references
        .iter()
        .filter(|r| r.role == RefRole::Import)
        .map(|r| r.name.as_str())
        .collect();
    assert!(
        import_refs.is_empty(),
        "expected no import refs but got: {import_refs:?}"
    );
}

#[test]
fn java_import_refs_carry_source_module() {
    // `import com.example.Service;` in a file without a package declaration
    // → Import ref carries the SCIP module id derived from the file path.
    let src = "import com.example.Service;\nclass A {}";
    let file = "src/com/example/A.java";
    let facts = JavaExtractor.extract(src, file).unwrap();

    // Replicate the namespace derivation used by the extractor (no package
    // declaration → path-derived fallback in java_namespaces).
    let p = file.strip_suffix(".java").unwrap_or(file);
    let p = p.strip_prefix("src/").unwrap_or(p);
    let namespaces: Vec<String> = p
        .split('/')
        .filter(|s| !s.is_empty())
        .map(str::to_owned)
        .collect();
    let expected_module_id =
        code2graph::extract::module_symbol(Language::Java, &namespaces, file, src.len())
            .id
            .to_scip_string();

    let import_refs: Vec<_> = facts
        .references
        .iter()
        .filter(|r| r.role == RefRole::Import)
        .collect();
    assert!(!import_refs.is_empty(), "expected at least one Import ref");
    for r in &import_refs {
        assert_eq!(
            r.source_module,
            Some(expected_module_id.clone()),
            "Import ref '{}' should carry source_module = {:?}",
            r.name,
            expected_module_id
        );
    }
}

// --- from_path tests ---

#[test]
fn named_import_carries_from_path() {
    // `import com.example.Service;` → from_path == "com.example"
    let src = "import com.example.Service;\nclass A {}";
    let facts = JavaExtractor.extract(src, "src/A.java").unwrap();
    let r = facts
        .references
        .iter()
        .find(|r| r.role == RefRole::Import && r.name == "Service")
        .expect("expected Import ref for 'Service'");
    assert_eq!(
        r.from_path,
        Some("com.example".to_owned()),
        "from_path should be 'com.example', got {:?}",
        r.from_path
    );
}

// ── Tier-B scope / binding tests ─────────────────────────────────────────

#[test]
fn method_params_emit_param_bindings() {
    // `public void f(int a, String b){}` → two Param bindings in a Function scope.
    let src = "package p;\npublic class C { public void f(int a, String b){} }";
    let facts = JavaExtractor.extract(src, "src/p/C.java").unwrap();

    let fn_scope_id = facts
        .scopes
        .iter()
        .position(|s| s.kind == ScopeKind::Function)
        .expect("expected a Function scope");

    let mut param_names: Vec<(&str, ScopeId)> = facts
        .bindings
        .iter()
        .filter(|b| b.kind == BindingKind::Param)
        .map(|b| (b.name.as_str(), b.scope))
        .collect();
    param_names.sort_by_key(|(n, _)| *n);

    assert_eq!(
        param_names,
        vec![("a", fn_scope_id), ("b", fn_scope_id)],
        "expected Param bindings for a and b, got {param_names:?}"
    );
}

#[test]
fn constructor_param_emits_param_binding() {
    // `public C(int x){}` → Param `x` in a Function scope.
    let src = "package p;\npublic class C { public C(int x){} }";
    let facts = JavaExtractor.extract(src, "src/p/C.java").unwrap();

    let x = facts
        .bindings
        .iter()
        .find(|b| b.kind == BindingKind::Param && b.name == "x")
        .expect("expected Param binding for 'x'");
    assert_eq!(
        facts.scopes[x.scope].kind,
        ScopeKind::Function,
        "constructor param 'x' should be in a Function scope"
    );
}

#[test]
fn local_var_inside_method_emits_local() {
    // `int x = 1;` inside a method → Local `x`.
    let src = "package p;\npublic class C { public void f() { int x = 1; } }";
    let facts = JavaExtractor.extract(src, "src/p/C.java").unwrap();

    let x = facts
        .bindings
        .iter()
        .find(|b| b.kind == BindingKind::Local && b.name == "x")
        .expect("expected Local binding for 'x'");
    assert_ne!(x.scope, 0, "local 'x' must not be in scope 0");
}

#[test]
fn multi_declarator_emits_two_locals() {
    // `int a, b;` inside a method → Locals `a` and `b`.
    let src = "package p;\npublic class C { public void f() { int a = 1, b = 2; } }";
    let facts = JavaExtractor.extract(src, "src/p/C.java").unwrap();

    let locals: Vec<&str> = facts
        .bindings
        .iter()
        .filter(|b| b.kind == BindingKind::Local)
        .map(|b| b.name.as_str())
        .collect();
    assert!(
        locals.contains(&"a"),
        "expected Local for 'a', got {locals:?}"
    );
    assert!(
        locals.contains(&"b"),
        "expected Local for 'b', got {locals:?}"
    );
}

#[test]
fn enhanced_for_loop_var_emits_local() {
    // `for (int x : xs) {}` → Local `x`.
    let src = "package p;\npublic class C { public void f(int[] xs) { for (int x : xs) {} } }";
    let facts = JavaExtractor.extract(src, "src/p/C.java").unwrap();

    let x = facts
        .bindings
        .iter()
        .find(|b| b.kind == BindingKind::Local && b.name == "x")
        .expect("expected Local binding for 'x'");
    assert_ne!(x.scope, 0, "enhanced-for 'x' must not be in scope 0");
}

#[test]
fn class_field_is_definition_not_local() {
    // `public int count;` at class level → Definition binding, NOT Local.
    let src = "package p;\npublic class C { public int count; }";
    let facts = JavaExtractor.extract(src, "src/p/C.java").unwrap();

    assert!(
        !facts
            .bindings
            .iter()
            .any(|b| b.kind == BindingKind::Local && b.name == "count"),
        "class field 'count' must NOT be a Local binding"
    );
    // The Definition binding for `count` comes from definition_bindings.
    let def = facts
        .bindings
        .iter()
        .find(|b| b.kind == BindingKind::Definition && b.name == "count")
        .expect("expected a Definition binding for 'count'");
    assert_eq!(
        def.scope, 0,
        "Definition binding for 'count' must be at scope 0"
    );
}

#[test]
fn nesting_produces_correct_scope_hierarchy() {
    // `public class C { public void f() {} }` → Module → Type → Function.
    let src = "package p;\npublic class C { public void f() {} }";
    let facts = JavaExtractor.extract(src, "src/p/C.java").unwrap();

    assert_eq!(
        facts.scopes[0].kind,
        ScopeKind::Module,
        "scopes[0] must be Module"
    );

    let type_scopes: Vec<ScopeId> = facts
        .scopes
        .iter()
        .enumerate()
        .filter(|(_, s)| s.kind == ScopeKind::Type)
        .map(|(i, _)| i)
        .collect();
    assert_eq!(type_scopes.len(), 1, "expected exactly one Type scope");

    let type_scope_id = type_scopes[0];
    assert_eq!(
        facts.scopes[type_scope_id].parent,
        Some(0),
        "Type scope parent must be Module (0)"
    );

    let fn_scopes: Vec<ScopeId> = facts
        .scopes
        .iter()
        .enumerate()
        .filter(|(_, s)| s.kind == ScopeKind::Function)
        .map(|(i, _)| i)
        .collect();
    assert_eq!(fn_scopes.len(), 1, "expected exactly one Function scope");

    let fn_scope_id = fn_scopes[0];
    assert_eq!(
        facts.scopes[fn_scope_id].parent,
        Some(type_scope_id),
        "Function scope parent must be the Type scope"
    );
}

#[test]
fn catch_param_emits_param_binding() {
    // `catch (Exception e) {}` → Param `e`.
    let src = r#"package p;
public class C {
public void f() {
    try {} catch (Exception e) {}
}
}"#;
    let facts = JavaExtractor.extract(src, "src/p/C.java").unwrap();

    let e = facts
        .bindings
        .iter()
        .find(|b| b.kind == BindingKind::Param && b.name == "e")
        .expect("expected Param binding for 'e'");
    assert_ne!(e.scope, 0, "catch param 'e' must not be in scope 0");
}

#[test]
fn lambda_inferred_params_emit_param_bindings() {
    // `(a, b) -> a + b` → Params `a` and `b`.
    let src = r#"package p;
public class C {
public void f() {
    java.util.function.BiFunction<Integer,Integer,Integer> fn = (a, b) -> a + b;
}
}"#;
    let facts = JavaExtractor.extract(src, "src/p/C.java").unwrap();

    let params: Vec<&str> = facts
        .bindings
        .iter()
        .filter(|b| b.kind == BindingKind::Param)
        .map(|b| b.name.as_str())
        .collect();
    assert!(params.contains(&"a"), "expected Param 'a', got {params:?}");
    assert!(params.contains(&"b"), "expected Param 'b', got {params:?}");
    for p in facts
        .bindings
        .iter()
        .filter(|b| b.kind == BindingKind::Param)
    {
        assert_ne!(
            p.scope, 0,
            "lambda param '{}' must not be in scope 0",
            p.name
        );
    }
}

#[test]
fn varargs_param_emits_param_binding() {
    // `public void f(int... xs){}` → Param `xs`.
    let src = "package p;\npublic class C { public void f(int... xs){} }";
    let facts = JavaExtractor.extract(src, "src/p/C.java").unwrap();

    let xs = facts
        .bindings
        .iter()
        .find(|b| b.kind == BindingKind::Param && b.name == "xs")
        .expect("expected Param binding for 'xs'");
    assert_ne!(xs.scope, 0, "varargs param 'xs' must not be in scope 0");
}

#[test]
fn import_binding_emits_import_kind() {
    // `import com.example.Service;` → an Import binding named `Service`.
    let src = "import com.example.Service;\nclass A {}";
    let facts = JavaExtractor.extract(src, "src/A.java").unwrap();

    let svc = facts
        .bindings
        .iter()
        .find(|b| b.kind == BindingKind::Import && b.name == "Service")
        .expect("expected Import binding for 'Service'");
    // Import bindings land in the module scope.
    assert_eq!(
        svc.scope, 0,
        "Import binding 'Service' should be in scope 0"
    );
}

#[test]
fn same_file_call_ref_has_non_zero_scope() {
    // Calc.java-style test: `add` is defined in the class and called from `doubleAdd`.
    // The call ref for `add` should be attached to a non-zero scope.
    let src = r#"package com.example;
public class Calc {
public int add(int a, int b) {
    return a + b;
}
public int doubleAdd(int x) {
    return add(x, x);
}
}"#;
    let facts = JavaExtractor
        .extract(src, "src/com/example/Calc.java")
        .unwrap();

    // There must be a Definition binding for `add`.
    assert!(
        facts
            .bindings
            .iter()
            .any(|b| b.kind == BindingKind::Definition && b.name == "add"),
        "expected a Definition binding for 'add'"
    );

    // The `add` Call ref must have a non-None, non-zero scope.
    let add_ref = facts
        .references
        .iter()
        .find(|r| r.role == RefRole::Call && r.name == "add")
        .expect("expected a Call ref for 'add'");
    let scope_id = add_ref
        .scope
        .expect("add() Call ref must have a scope attached");
    assert_ne!(
        scope_id, 0,
        "add() Call ref scope must not be the module root"
    );
}
