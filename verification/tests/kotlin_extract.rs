use code2graph::{Extractor, FileFacts, RefRole, Symbol, SymbolKind};
use code2graph::extract::KotlinExtractor;

fn extract(src: &str, path: &str) -> FileFacts {
    KotlinExtractor.extract(src, path).unwrap()
}

fn by_name(facts: &FileFacts, name: &str) -> Option<Symbol> {
    facts.symbols.iter().find(|s| s.name == name).cloned()
}

// Test 1: class with public fun + private fun; visibility gate
#[test]
fn class_visibility_gate() {
    let src = r#"package com.ex
class Session {
fun open() {}
private fun secret() {}
}
"#;
    let facts = extract(src, "src/com/ex/Session.kt");

    let session = by_name(&facts, "Session").unwrap();
    assert_eq!(session.kind, SymbolKind::Class);
    assert_eq!(
        session.id.to_scip_string(),
        "codegraph . . . com/ex/Session#"
    );

    let open = by_name(&facts, "open").unwrap();
    assert_eq!(open.kind, SymbolKind::Method);
    assert_eq!(
        open.id.to_scip_string(),
        "codegraph . . . com/ex/Session#open()."
    );

    // private method must NOT be emitted
    assert!(by_name(&facts, "secret").is_none());
}

// Test 2: interface → SymbolKind::Interface
#[test]
fn interface_kind() {
    let src = r#"package com.ex
interface Readable {
fun read(): String
}
"#;
    let facts = extract(src, "src/com/ex/Readable.kt");

    let readable = by_name(&facts, "Readable").unwrap();
    assert_eq!(readable.kind, SymbolKind::Interface);
    assert_eq!(
        readable.id.to_scip_string(),
        "codegraph . . . com/ex/Readable#"
    );
}

// Test 3: enum class with entries → Enum + Const
#[test]
fn enum_class_with_entries() {
    let src = r#"package com.ex
enum class Direction {
NORTH,
SOUTH,
EAST,
WEST
}
"#;
    let facts = extract(src, "src/com/ex/Direction.kt");

    let dir = by_name(&facts, "Direction").unwrap();
    assert_eq!(dir.kind, SymbolKind::Enum);
    assert_eq!(dir.id.to_scip_string(), "codegraph . . . com/ex/Direction#");

    for entry in &["NORTH", "SOUTH", "EAST", "WEST"] {
        let sym = by_name(&facts, entry).unwrap();
        assert_eq!(sym.kind, SymbolKind::Const);
        assert_eq!(
            sym.id.to_scip_string(),
            format!("codegraph . . . com/ex/Direction#{entry}.")
        );
    }
}

// Test 4: object declaration → SymbolKind::Class (singleton)
#[test]
fn object_singleton() {
    let src = r#"package com.ex
object Registry {
fun register() {}
}
"#;
    let facts = extract(src, "src/com/ex/Registry.kt");

    let reg = by_name(&facts, "Registry").unwrap();
    assert_eq!(reg.kind, SymbolKind::Class);
    assert_eq!(reg.id.to_scip_string(), "codegraph . . . com/ex/Registry#");

    let register = by_name(&facts, "register").unwrap();
    assert_eq!(register.kind, SymbolKind::Method);
    assert_eq!(
        register.id.to_scip_string(),
        "codegraph . . . com/ex/Registry#register()."
    );
}

// Test 5: val → Const, var → Static
#[test]
fn val_and_var_properties() {
    let src = r#"package com.ex
class Config {
val maxRetries: Int = 3
var timeout: Long = 5000
}
"#;
    let facts = extract(src, "src/com/ex/Config.kt");

    let max = by_name(&facts, "maxRetries").unwrap();
    assert_eq!(max.kind, SymbolKind::Const);
    assert_eq!(
        max.id.to_scip_string(),
        "codegraph . . . com/ex/Config#maxRetries."
    );

    let timeout = by_name(&facts, "timeout").unwrap();
    assert_eq!(timeout.kind, SymbolKind::Static);
    assert_eq!(
        timeout.id.to_scip_string(),
        "codegraph . . . com/ex/Config#timeout."
    );
}

// Test 6: top-level fun → SymbolKind::Function under namespace
#[test]
fn top_level_function() {
    let src = r#"package com.ex
fun greet(name: String): String {
return "Hello $name"
}
"#;
    let facts = extract(src, "src/com/ex/Greeting.kt");

    let greet = by_name(&facts, "greet").unwrap();
    assert_eq!(greet.kind, SymbolKind::Function);
    assert_eq!(greet.id.to_scip_string(), "codegraph . . . com/ex/greet().");
}

// Test 7: typealias → SymbolKind::TypeAlias (name from `type` field)
#[test]
fn type_alias() {
    let src = r#"package com.ex
typealias StringList = List<String>
"#;
    let facts = extract(src, "src/com/ex/Aliases.kt");

    let alias = by_name(&facts, "StringList").unwrap();
    assert_eq!(alias.kind, SymbolKind::TypeAlias);
    assert_eq!(
        alias.id.to_scip_string(),
        "codegraph . . . com/ex/StringList#"
    );
}

// Test 8: call references captured (free call + member call)
#[test]
fn kotlin_call_references_captured() {
    let src = r#"package com.ex
fun main() {
foo()
val x = SomeClass()
x.bar()
}
"#;
    let facts = extract(src, "src/com/ex/Main.kt");
    let names: Vec<&str> = facts.references.iter().map(|r| r.name.as_str()).collect();
    assert!(names.contains(&"foo"), "expected 'foo' in {names:?}");
    assert!(names.contains(&"bar"), "expected 'bar' in {names:?}");
}

#[test]
fn kotlin_lang_tag() {
    let facts = extract("fun foo() {}", "src/Foo.kt");
    assert_eq!(facts.lang, "kotlin");
}

// Test 10: class with superclass call + interface → both Inherit refs
#[test]
fn class_inherits_base_and_interface() {
    let src = "class Sub : Base(), Iface { }";
    let facts = extract(src, "src/Sub.kt");
    let inherit_names: Vec<&str> = facts
        .references
        .iter()
        .filter(|r| r.role == RefRole::IsImplementation)
        .map(|r| r.name.as_str())
        .collect();
    assert!(
        inherit_names.contains(&"Base"),
        "expected 'Base' in {inherit_names:?}"
    );
    assert!(
        inherit_names.contains(&"Iface"),
        "expected 'Iface' in {inherit_names:?}"
    );
}

// Test 11: dotted parent name → leaf only
#[test]
fn class_inherits_dotted_name_simplified() {
    let src = "class C : com.x.Base() { }";
    let facts = extract(src, "src/C.kt");
    let inherit_names: Vec<&str> = facts
        .references
        .iter()
        .filter(|r| r.role == RefRole::IsImplementation)
        .map(|r| r.name.as_str())
        .collect();
    assert!(
        inherit_names.contains(&"Base"),
        "expected 'Base' in {inherit_names:?}"
    );
}

// Test 12: object declaration inherits interface → Inherit ref
#[test]
fn object_inherits_service() {
    let src = "object O : Service { }";
    let facts = extract(src, "src/O.kt");
    let inherit_names: Vec<&str> = facts
        .references
        .iter()
        .filter(|r| r.role == RefRole::IsImplementation)
        .map(|r| r.name.as_str())
        .collect();
    assert!(
        inherit_names.contains(&"Service"),
        "expected 'Service' in {inherit_names:?}"
    );
}

// Test 13: qualified import → Import ref with leaf name only
#[test]
fn import_qualified_emits_leaf() {
    let src = "import com.example.Service\nclass C";
    let facts = extract(src, "src/C.kt");
    let import_names: Vec<&str> = facts
        .references
        .iter()
        .filter(|r| r.role == RefRole::Import)
        .map(|r| r.name.as_str())
        .collect();
    assert_eq!(
        import_names,
        vec!["Service"],
        "expected exactly ['Service'], got {import_names:?}"
    );
}

// Test 14: simple (unqualified) import → Import ref
#[test]
fn import_simple_emits_name() {
    let src = "import Foo\nclass C";
    let facts = extract(src, "src/C.kt");
    let import_names: Vec<&str> = facts
        .references
        .iter()
        .filter(|r| r.role == RefRole::Import)
        .map(|r| r.name.as_str())
        .collect();
    assert_eq!(
        import_names,
        vec!["Foo"],
        "expected exactly ['Foo'], got {import_names:?}"
    );
}

// Test 15: wildcard import → NO Import refs
#[test]
fn import_wildcard_skipped() {
    let src = "import com.example.*\nclass C";
    let facts = extract(src, "src/C.kt");
    let import_refs: Vec<&str> = facts
        .references
        .iter()
        .filter(|r| r.role == RefRole::Import)
        .map(|r| r.name.as_str())
        .collect();
    assert!(
        import_refs.is_empty(),
        "expected no Import refs for wildcard, got {import_refs:?}"
    );
}
