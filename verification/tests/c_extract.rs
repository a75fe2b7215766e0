use code2graph::{Extractor, SymbolKind};
use code2graph::extract::CExtractor;

#[test]
fn extracts_defs_and_skips_static() {
    let src = r#"
#define MAX_LEN 256
int authenticate(const char *tok) { return validate(tok); }
static int helper(void) { return 0; }
struct Session { int id; };
enum Status { OK, FAIL };
typedef struct Session SessionRef;
int global_count;
static int private_count;
"#;
    let facts = CExtractor.extract(src, "src/auth/token.c").unwrap();
    let by_name = |n: &str| facts.symbols.iter().find(|s| s.name == n).cloned();

    // authenticate: exported function
    let auth = by_name("authenticate").unwrap();
    assert_eq!(auth.kind, SymbolKind::Function);
    assert_eq!(
        auth.id.to_scip_string(),
        "codegraph . . . auth/token/authenticate()."
    );

    // helper: static — must be absent
    assert!(by_name("helper").is_none());

    // Session: struct definition inside a declaration
    let session = by_name("Session").unwrap();
    assert_eq!(session.kind, SymbolKind::Struct);
    assert_eq!(
        session.id.to_scip_string(),
        "codegraph . . . auth/token/Session#"
    );

    // Status: enum definition inside a declaration
    let status = by_name("Status").unwrap();
    assert_eq!(status.kind, SymbolKind::Enum);
    assert_eq!(
        status.id.to_scip_string(),
        "codegraph . . . auth/token/Status#"
    );

    // SessionRef: typedef alias
    let alias = by_name("SessionRef").unwrap();
    assert_eq!(alias.kind, SymbolKind::TypeAlias);
    assert_eq!(
        alias.id.to_scip_string(),
        "codegraph . . . auth/token/SessionRef#"
    );

    // global_count: non-static variable
    let gc = by_name("global_count").unwrap();
    assert_eq!(gc.kind, SymbolKind::Static);
    assert_eq!(
        gc.id.to_scip_string(),
        "codegraph . . . auth/token/global_count."
    );

    // private_count: static — must be absent
    assert!(by_name("private_count").is_none());

    // MAX_LEN: object-like macro → Const
    let max = by_name("MAX_LEN").unwrap();
    assert_eq!(max.kind, SymbolKind::Const);
    assert_eq!(
        max.id.to_scip_string(),
        "codegraph . . . auth/token/MAX_LEN!"
    );

    assert_eq!(facts.lang, "c");
}

#[test]
fn function_macro_and_prototype() {
    let src = r#"
#define SQUARE(x) ((x)*(x))
int compute(int n);
"#;
    let facts = CExtractor.extract(src, "src/util.h").unwrap();
    let by_name = |n: &str| facts.symbols.iter().find(|s| s.name == n).cloned();

    // SQUARE: function-like macro → Function + Descriptor::Macro
    let sq = by_name("SQUARE").unwrap();
    assert_eq!(sq.kind, SymbolKind::Function);
    assert_eq!(sq.id.to_scip_string(), "codegraph . . . util/SQUARE!");

    // compute: function prototype in a declaration
    let comp = by_name("compute").unwrap();
    assert_eq!(comp.kind, SymbolKind::Function);
    assert_eq!(comp.id.to_scip_string(), "codegraph . . . util/compute().");
}

#[test]
fn c_extracts_call_references() {
    let src = r#"
int main(void) {
authenticate("t");
compute(5);
}
"#;
    let facts = CExtractor.extract(src, "src/main.c").unwrap();
    let names: Vec<&str> = facts.references.iter().map(|r| r.name.as_str()).collect();
    assert!(names.contains(&"authenticate"));
    assert!(names.contains(&"compute"));
}
