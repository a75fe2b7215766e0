use code2graph::{BindingKind, Extractor, Language, RefRole, ScopeKind, SymbolKind};
use code2graph::extract::PythonExtractor;
use code2graph::extract::python::python_namespaces;

#[test]
fn extracts_defs_with_dotted_module() {
    let src = "\
def validate_token(tok):
return helper()

class Config:
pass

async def fetch_data():
pass

MAX_RETRIES = 3
";
    let facts = PythonExtractor.extract(src, "src/auth/jwt.py").unwrap();
    let by_name = |n: &str| facts.symbols.iter().find(|s| s.name == n).cloned();

    let vt = by_name("validate_token").unwrap();
    assert_eq!(
        vt.id.to_scip_string(),
        "codegraph . . . auth/jwt/validate_token()."
    );
    assert_eq!(vt.kind, SymbolKind::Function);

    assert_eq!(by_name("Config").unwrap().kind, SymbolKind::Class);
    assert!(by_name("fetch_data").is_some());
    assert_eq!(by_name("MAX_RETRIES").unwrap().kind, SymbolKind::Const);
}

#[test]
fn init_collapses_to_package() {
    let facts = PythonExtractor
        .extract("def helper(): pass", "src/auth/__init__.py")
        .unwrap();
    assert_eq!(
        facts.symbols[0].id.to_scip_string(),
        "codegraph . . . auth/helper()."
    );
}

#[test]
fn emits_function_scope_and_bindings() {
    let src = "def run(arg):\n    local = 1\n    helper(arg)\n";
    let facts = PythonExtractor.extract(src, "src/main.py").unwrap();
    // Module root scope + one function scope.
    assert_eq!(facts.scopes.len(), 2, "expected module + function scope");
    assert_eq!(facts.scopes[0].kind, ScopeKind::Module);
    assert_eq!(facts.scopes[1].kind, ScopeKind::Function);

    let has = |name: &str, kind: BindingKind| {
        facts
            .bindings
            .iter()
            .any(|b| b.name == name && b.kind == kind)
    };
    assert!(has("arg", BindingKind::Param), "param binding missing");
    assert!(has("local", BindingKind::Local), "local binding missing");
    assert!(has("run", BindingKind::Definition), "def binding missing");
}

#[test]
fn class_body_opens_no_scope_legb() {
    // Python's LEGB skips the class scope for nested defs, so a class body
    // adds no scope: the method's enclosing scope is the module.
    let src = "class Foo:\n    def method(self):\n        pass\n";
    let facts = PythonExtractor.extract(src, "src/m.py").unwrap();
    let fn_scopes: Vec<_> = facts
        .scopes
        .iter()
        .filter(|s| s.kind == ScopeKind::Function)
        .collect();
    assert_eq!(fn_scopes.len(), 1, "only the method opens a scope");
    assert!(
        !facts.scopes.iter().any(|s| s.kind == ScopeKind::Type),
        "class body must not open a Type scope in Python"
    );
    assert_eq!(
        fn_scopes[0].parent,
        Some(0),
        "method's enclosing scope is the module (class skipped)"
    );
}

#[test]
fn python_extracts_call_references() {
    let facts = PythonExtractor
        .extract(
            "def main():\n    validate_token('t')\n    helper()\n",
            "src/main.py",
        )
        .unwrap();
    let names: Vec<&str> = facts.references.iter().map(|r| r.name.as_str()).collect();
    assert!(names.contains(&"validate_token"));
    assert!(names.contains(&"helper"));
}

#[test]
fn extracts_single_base_class_inherit_reference() {
    let src = "class Sub(Base):\n    pass\n";
    let facts = PythonExtractor.extract(src, "src/mod.py").unwrap();
    let inherit_names: Vec<&str> = facts
        .references
        .iter()
        .filter(|r| r.role == RefRole::IsImplementation)
        .map(|r| r.name.as_str())
        .collect();
    assert_eq!(
        inherit_names,
        vec!["Base"],
        "expected ['Base'] in {inherit_names:?}"
    );
}

#[test]
fn extracts_multiple_base_classes_inherit_references() {
    let src = "class Multi(A, B):\n    pass\n";
    let facts = PythonExtractor.extract(src, "src/mod.py").unwrap();
    let inherit_names: Vec<&str> = facts
        .references
        .iter()
        .filter(|r| r.role == RefRole::IsImplementation)
        .map(|r| r.name.as_str())
        .collect();
    assert!(
        inherit_names.contains(&"A"),
        "expected 'A' in {inherit_names:?}"
    );
    assert!(
        inherit_names.contains(&"B"),
        "expected 'B' in {inherit_names:?}"
    );
}

#[test]
fn extracts_dotted_base_class_leaf_segment() {
    let src = "class Dotted(mod.Base):\n    pass\n";
    let facts = PythonExtractor.extract(src, "src/mod.py").unwrap();
    let inherit_names: Vec<&str> = facts
        .references
        .iter()
        .filter(|r| r.role == RefRole::IsImplementation)
        .map(|r| r.name.as_str())
        .collect();
    assert_eq!(
        inherit_names,
        vec!["Base"],
        "expected ['Base'] in {inherit_names:?}"
    );
}

// --- import extraction tests ---

#[test]
fn import_from_statement_emits_leaf_name() {
    let src = "from pkg.models import Config\n";
    let facts = PythonExtractor.extract(src, "src/app.py").unwrap();
    let import_names: Vec<&str> = facts
        .references
        .iter()
        .filter(|r| r.role == RefRole::Import)
        .map(|r| r.name.as_str())
        .collect();
    assert_eq!(
        import_names,
        vec!["Config"],
        "expected ['Config'] in {import_names:?}"
    );
}

#[test]
fn import_statement_emits_module_leaf() {
    // `import os` → leaf "os"; `import foo.bar` → leaf "bar"
    let src = "import os\nimport foo.bar\n";
    let facts = PythonExtractor.extract(src, "src/mod.py").unwrap();
    let import_names: Vec<&str> = facts
        .references
        .iter()
        .filter(|r| r.role == RefRole::Import)
        .map(|r| r.name.as_str())
        .collect();
    assert!(
        import_names.contains(&"os"),
        "expected 'os' in {import_names:?}"
    );
    assert!(
        import_names.contains(&"bar"),
        "expected 'bar' in {import_names:?}"
    );
}

#[test]
fn import_from_statement_multiple_names() {
    let src = "from x import A, B\n";
    let facts = PythonExtractor.extract(src, "src/mod.py").unwrap();
    let import_names: Vec<&str> = facts
        .references
        .iter()
        .filter(|r| r.role == RefRole::Import)
        .map(|r| r.name.as_str())
        .collect();
    assert!(
        import_names.contains(&"A"),
        "expected 'A' in {import_names:?}"
    );
    assert!(
        import_names.contains(&"B"),
        "expected 'B' in {import_names:?}"
    );
}

#[test]
fn import_alias_emits_real_name_not_alias() {
    // `from pkg import Thing as T` → ref "Thing", not "T"
    let src = "from pkg import Thing as T\n";
    let facts = PythonExtractor.extract(src, "src/mod.py").unwrap();
    let import_names: Vec<&str> = facts
        .references
        .iter()
        .filter(|r| r.role == RefRole::Import)
        .map(|r| r.name.as_str())
        .collect();
    assert!(
        import_names.contains(&"Thing"),
        "expected 'Thing' in {import_names:?}"
    );
    assert!(
        !import_names.contains(&"T"),
        "alias 'T' must NOT appear in {import_names:?}"
    );
}

#[test]
fn wildcard_import_emits_nothing() {
    let src = "from x import *\n";
    let facts = PythonExtractor.extract(src, "src/mod.py").unwrap();
    let import_refs: Vec<&str> = facts
        .references
        .iter()
        .filter(|r| r.role == RefRole::Import)
        .map(|r| r.name.as_str())
        .collect();
    assert!(
        import_refs.is_empty(),
        "expected no Import refs for wildcard, got {import_refs:?}"
    );
}

#[test]
fn python_import_refs_carry_source_module() {
    // The import refs for `from pkg.models import Config` should all have
    // `source_module == Some(<module scip id of src/app.py>)`.
    let src = "from pkg.models import Config\n";
    let file = "src/app.py";
    let facts = PythonExtractor.extract(src, file).unwrap();

    // Compute expected module id the same way the extractor does.
    let namespaces = python_namespaces(file);
    let expected_module_id =
        code2graph::extract::module_symbol(Language::Python, &namespaces, file, src.len())
            .id
            .to_scip_string();

    let import_refs: Vec<_> = facts
        .references
        .iter()
        .filter(|r| r.role == RefRole::Import)
        .collect();
    assert!(!import_refs.is_empty(), "expected at least one Import ref");
    for r in &import_refs {
        assert_eq!(
            r.source_module,
            Some(expected_module_id.clone()),
            "Import ref '{}' should carry source_module = {:?}",
            r.name,
            expected_module_id
        );
    }
}

#[test]
fn call_refs_have_no_source_module() {
    let src = "def main():\n    helper()\n";
    let facts = PythonExtractor.extract(src, "src/main.py").unwrap();
    let call_refs: Vec<_> = facts
        .references
        .iter()
        .filter(|r| r.role == RefRole::Call)
        .collect();
    assert!(!call_refs.is_empty(), "expected at least one Call ref");
    for r in &call_refs {
        assert_eq!(
            r.source_module, None,
            "Call ref '{}' must have source_module = None",
            r.name
        );
    }
}

// --- from_path tests ---

#[test]
fn import_from_statement_carries_from_path() {
    // `from pkg.models import Config` → from_path == "pkg.models"
    let src = "from pkg.models import Config\n";
    let facts = PythonExtractor.extract(src, "src/app.py").unwrap();
    let r = facts
        .references
        .iter()
        .find(|r| r.role == RefRole::Import && r.name == "Config")
        .expect("expected Import ref for 'Config'");
    assert_eq!(
        r.from_path,
        Some("pkg.models".to_owned()),
        "from_path should be 'pkg.models', got {:?}",
        r.from_path
    );
}

#[test]
fn plain_import_statement_carries_from_path() {
    // `import os` → from_path == "os"; `import foo.bar` → from_path == "foo.bar"
    let src = "import os\nimport foo.bar\n";
    let facts = PythonExtractor.extract(src, "src/mod.py").unwrap();

    let os_ref = facts
        .references
        .iter()
        .find(|r| r.role == RefRole::Import && r.name == "os")
        .expect("expected Import ref for 'os'");
    assert_eq!(
        os_ref.from_path,
        Some("os".to_owned()),
        "from_path for 'import os' should be 'os', got {:?}",
        os_ref.from_path
    );

    let bar_ref = facts
        .references
        .iter()
        .find(|r| r.role == RefRole::Import && r.name == "bar")
        .expect("expected Import ref for 'bar'");
    assert_eq!(
        bar_ref.from_path,
        Some("foo.bar".to_owned()),
        "from_path for 'import foo.bar' should be 'foo.bar', got {:?}",
        bar_ref.from_path
    );
}
