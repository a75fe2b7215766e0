use code2graph::{Extractor, SymbolKind};
use code2graph::extract::ShellExtractor;

#[test]
fn shell_extracts_call_references() {
    let src = "function main { validate; deploy arg1; }\n";
    let facts = ShellExtractor.extract(src, "scripts/main.sh").unwrap();
    let names: Vec<&str> = facts.references.iter().map(|r| r.name.as_str()).collect();
    assert!(names.contains(&"validate"));
    assert!(names.contains(&"deploy"));
}

// SCIP ids are written in the `codegraph . . . ` form (scheme, then the empty
// manager, package name and version, each shown as `.`); the expected id
// below uses it.
#[test]
fn extracts_functions() {
    let src = "validate() { return 0; }\nfunction deploy { echo done; }\nfunction run() { validate; }\n";
    let facts = ShellExtractor.extract(src, "scripts/deploy.sh").unwrap();
    let by_name = |n: &str| facts.symbols.iter().find(|s| s.name == n).cloned();

    let validate = by_name("validate").unwrap();
    assert_eq!(validate.kind, SymbolKind::Function);
    assert_eq!(validate.id.to_scip_string(), "codegraph . . . deploy/validate().");

    assert!(by_name("deploy").is_some());
    assert!(by_name("run").is_some());
    assert_eq!(facts.lang, "shell");
}
