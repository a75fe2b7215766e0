use code2graph::{Extractor, SymbolKind};
use code2graph::extract::{HclExtractor, extract_path};


#[test]
fn hcl_stub_parses_and_emits_module_symbol() {
    let src = r#"resource "aws_instance" "web" {}"#;
    let facts = HclExtractor.extract(src, "infra/main.tf").unwrap();

    assert_eq!(facts.lang, "hcl");
    assert!(
        !facts.symbols.is_empty(),
        "expected at least the module symbol, got {:?}",
        facts.symbols
    );
    let mod_sym = facts
        .symbols
        .iter()
        .find(|s| s.kind == SymbolKind::Module)
        .expect("expected a Module symbol");
    assert!(
        mod_sym.id.to_scip_string().contains("main"),
        "module symbol SCIP string should contain the file stem 'main'; got: {}",
        mod_sym.id.to_scip_string()
    );
    assert!(
        facts.references.is_empty(),
        "stub should emit no references"
    );
}

#[test]
fn dispatch_routes_tf_extension() {
    let src = r#"resource "aws_instance" "web" {}"#;
    let facts = extract_path("infra/main.tf", src).unwrap();
    assert_eq!(facts.lang, "hcl");
}

#[test]
fn dispatch_routes_hcl_extension() {
    let src = r#"variable "region" { default = "us-east-1" }"#;
    let facts = extract_path("infra/vars.hcl", src).unwrap();
    assert_eq!(facts.lang, "hcl");
}

#[test]
fn dispatch_routes_tfvars_extension() {
    let src = r#"region = "us-east-1""#;
    let facts = extract_path("infra/prod.tfvars", src).unwrap();
    assert_eq!(facts.lang, "hcl");
}

#[test]
fn empty_hcl_does_not_panic_and_returns_module_symbol() {
    let facts = HclExtractor.extract("", "infra/empty.tf").unwrap();
    assert!(
        facts.symbols.iter().any(|s| s.kind == SymbolKind::Module),
        "empty HCL should still produce the module symbol"
    );
    assert!(facts.references.is_empty(), "stub emits no references");
}
