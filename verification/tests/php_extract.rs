use code2graph::{Extractor, RefRole, SymbolKind};
use code2graph::extract::PhpExtractor;

#[test]
fn extracts_namespaced_defs() {
    let src = r#"<?php
namespace App\Auth;

function format_id($x) { return helper($x); }

class Session {
const MAX = 3;
public $token;
private $secret;
public function validate($t) { return $this->check($t); }
private function internal() {}
}

interface Reader {
function read();
}
"#;
    let facts = PhpExtractor.extract(src, "src/app/Session.php").unwrap();

    let by_name = |n: &str| facts.symbols.iter().find(|s| s.name == n).cloned();

    // Top-level function.
    let format_id = by_name("format_id").unwrap();
    assert_eq!(format_id.kind, SymbolKind::Function);
    assert_eq!(
        format_id.id.to_scip_string(),
        "codegraph . . . App/Auth/format_id()."
    );

    // Class symbol.
    let session = by_name("Session").unwrap();
    assert_eq!(session.kind, SymbolKind::Class);
    assert_eq!(
        session.id.to_scip_string(),
        "codegraph . . . App/Auth/Session#"
    );

    // Class constant.
    let max = by_name("MAX").unwrap();
    assert_eq!(max.kind, SymbolKind::Const);
    assert_eq!(
        max.id.to_scip_string(),
        "codegraph . . . App/Auth/Session#MAX."
    );

    // Public property.
    let token = by_name("token").unwrap();
    assert_eq!(token.kind, SymbolKind::Static);
    assert_eq!(
        token.id.to_scip_string(),
        "codegraph . . . App/Auth/Session#token."
    );

    // Private property must not appear.
    assert!(by_name("secret").is_none());

    // Public method.
    let validate = by_name("validate").unwrap();
    assert_eq!(validate.kind, SymbolKind::Method);
    assert_eq!(
        validate.id.to_scip_string(),
        "codegraph . . . App/Auth/Session#validate()."
    );

    // Private method must not appear.
    assert!(by_name("internal").is_none());

    // Interface symbol.
    let reader = by_name("Reader").unwrap();
    assert_eq!(reader.kind, SymbolKind::Interface);
    assert_eq!(
        reader.id.to_scip_string(),
        "codegraph . . . App/Auth/Reader#"
    );

    // Interface method — implicitly public, no `public` modifier.
    let read = by_name("read").unwrap();
    assert_eq!(read.kind, SymbolKind::Method);
    assert_eq!(
        read.id.to_scip_string(),
        "codegraph . . . App/Auth/Reader#read()."
    );

    assert_eq!(facts.lang, "php");
}

#[test]
fn path_fallback_without_namespace() {
    let src = r#"<?php
function format_date($d) {}
"#;
    let facts = PhpExtractor.extract(src, "src/helpers.php").unwrap();
    let by_name = |n: &str| facts.symbols.iter().find(|s| s.name == n).cloned();

    let format_date = by_name("format_date").unwrap();
    assert_eq!(format_date.kind, SymbolKind::Function);
    assert_eq!(
        format_date.id.to_scip_string(),
        "codegraph . . . helpers/format_date()."
    );
}

#[test]
fn extracts_class_extends_and_implements() {
    let src = "<?php\nclass Foo extends Bar implements Baz {}";
    let facts = PhpExtractor.extract(src, "src/Foo.php").unwrap();

    let inherit_names: Vec<&str> = facts
        .references
        .iter()
        .filter(|r| r.role == RefRole::IsImplementation)
        .map(|r| r.name.as_str())
        .collect();
    assert!(
        inherit_names.contains(&"Bar"),
        "expected 'Bar' in {inherit_names:?}"
    );
    assert!(
        inherit_names.contains(&"Baz"),
        "expected 'Baz' in {inherit_names:?}"
    );
}

#[test]
fn php_extracts_interface_extends_reference() {
    let src = "<?php\ninterface I extends J {}";
    let facts = PhpExtractor.extract(src, "src/I.php").unwrap();

    let inherit_names: Vec<&str> = facts
        .references
        .iter()
        .filter(|r| r.role == RefRole::IsImplementation)
        .map(|r| r.name.as_str())
        .collect();
    assert!(
        inherit_names.contains(&"J"),
        "expected 'J' in {inherit_names:?}"
    );
}

#[test]
fn strips_namespace_from_parent_name() {
    let src = r"<?php
class C extends \App\Base {}";
    let facts = PhpExtractor.extract(src, "src/C.php").unwrap();

    let inherit_names: Vec<&str> = facts
        .references
        .iter()
        .filter(|r| r.role == RefRole::IsImplementation)
        .map(|r| r.name.as_str())
        .collect();
    assert!(
        inherit_names.contains(&"Base"),
        "expected 'Base' (leaf of \\App\\Base) in {inherit_names:?}"
    );
}

#[test]
fn import_simple_use_statement() {
    let src = "<?php\nuse App\\Models\\User;";
    let facts = PhpExtractor.extract(src, "src/Foo.php").unwrap();

    let import_names: Vec<&str> = facts
        .references
        .iter()
        .filter(|r| r.role == RefRole::Import)
        .map(|r| r.name.as_str())
        .collect();
    assert!(
        import_names.contains(&"User"),
        "expected 'User' in {import_names:?}"
    );
    assert_eq!(import_names.len(), 1);
}

#[test]
fn import_aliased_use_statement_uses_real_name() {
    let src = "<?php\nuse App\\Models\\User as U;";
    let facts = PhpExtractor.extract(src, "src/Foo.php").unwrap();

    let import_names: Vec<&str> = facts
        .references
        .iter()
        .filter(|r| r.role == RefRole::Import)
        .map(|r| r.name.as_str())
        .collect();
    assert!(
        import_names.contains(&"User"),
        "expected 'User' (real name, not alias) in {import_names:?}"
    );
    // Alias 'U' must not appear as an import reference.
    assert!(
        !import_names.contains(&"U"),
        "alias 'U' must not appear in {import_names:?}"
    );
    assert_eq!(import_names.len(), 1);
}

#[test]
fn import_grouped_use_statement() {
    let src = "<?php\nuse App\\Models\\{User, Post};";
    let facts = PhpExtractor.extract(src, "src/Foo.php").unwrap();

    let import_names: Vec<&str> = facts
        .references
        .iter()
        .filter(|r| r.role == RefRole::Import)
        .map(|r| r.name.as_str())
        .collect();
    assert!(
        import_names.contains(&"User"),
        "expected 'User' in {import_names:?}"
    );
    assert!(
        import_names.contains(&"Post"),
        "expected 'Post' in {import_names:?}"
    );
    assert_eq!(import_names.len(), 2);
}

#[test]
fn php_extracts_call_references() {
    let src = r#"<?php
function run() {
validate("t");
$obj->process($data);
}
"#;
    let facts = PhpExtractor.extract(src, "src/main.php").unwrap();
    let names: Vec<&str> = facts.references.iter().map(|r| r.name.as_str()).collect();
    assert!(
        names.contains(&"validate"),
        "expected 'validate' in {names:?}"
    );
    assert!(
        names.contains(&"process"),
        "expected 'process' in {names:?}"
    );
}
