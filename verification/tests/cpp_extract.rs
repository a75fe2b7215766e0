// SCIP ids are written in the `codegraph . . . ` form (scheme, then the empty
// manager, package name and version, each shown as `.`), as the C, Go, Rust,
// Python and Java extractors' expectations have them; the expected ids below
// use that form throughout.

use code2graph::extract::CppExtractor;
use code2graph::{Extractor, FileFacts, RefRole, Symbol, SymbolKind};

fn by_name<'a>(facts: &'a FileFacts, n: &str) -> Option<&'a Symbol> {
    facts.symbols.iter().find(|s| s.name == n)
}

fn inherit_names(src: &str) -> Vec<String> {
    let facts = CppExtractor.extract(src, "src/foo.cpp").unwrap();
    facts.references.iter().filter(|r| r.role == RefRole::Inherit).map(|r| r.name.clone()).collect()
}

#[test]
fn free_function_in_namespace() {
    let src = r#"
namespace io {
    int connect(const char *host) { return 0; }
}
"#;
    let facts = CppExtractor.extract(src, "src/net/sock.cpp").unwrap();
    let f = by_name(&facts, "connect").unwrap();
    assert_eq!(f.kind, SymbolKind::Function);
    assert_eq!(f.id.to_scip_string(), "codegraph . . . net/sock/io/connect().");
    assert_eq!(facts.lang, "cpp");
}

#[test]
fn class_visibility() {
    let src = r#"
namespace io {
    class Sock {
    public:
        void open();
    private:
        void shutdown();
    };
}
"#;
    let facts = CppExtractor.extract(src, "src/net/sock.cpp").unwrap();

    let sock = by_name(&facts, "Sock").unwrap();
    assert_eq!(sock.kind, SymbolKind::Class);
    assert_eq!(sock.id.to_scip_string(), "codegraph . . . net/sock/io/Sock#");

    let open = by_name(&facts, "open").unwrap();
    assert_eq!(open.kind, SymbolKind::Method);
    assert_eq!(open.id.to_scip_string(), "codegraph . . . net/sock/io/Sock#open().");

    // private method — must be absent
    assert!(by_name(&facts, "shutdown").is_none());
}

#[test]
fn struct_field_default_public() {
    let src = r#"
struct Point {
    int x;
    int y;
};
"#;
    let facts = CppExtractor.extract(src, "src/geo.cpp").unwrap();

    let point = by_name(&facts, "Point").unwrap();
    assert_eq!(point.kind, SymbolKind::Struct);
    assert_eq!(point.id.to_scip_string(), "codegraph . . . geo/Point#");

    let x = by_name(&facts, "x").unwrap();
    assert_eq!(x.kind, SymbolKind::Static);
    assert_eq!(x.id.to_scip_string(), "codegraph . . . geo/Point#x.");
}

#[test]
fn enum_and_alias() {
    let src = r#"
enum Color { Red, Green };
using Id = int;
typedef int Handle;
"#;
    let facts = CppExtractor.extract(src, "src/types.cpp").unwrap();

    let color = by_name(&facts, "Color").unwrap();
    assert_eq!(color.kind, SymbolKind::Enum);
    assert_eq!(color.id.to_scip_string(), "codegraph . . . types/Color#");

    let id = by_name(&facts, "Id").unwrap();
    assert_eq!(id.kind, SymbolKind::TypeAlias);
    assert_eq!(id.id.to_scip_string(), "codegraph . . . types/Id#");

    let handle = by_name(&facts, "Handle").unwrap();
    assert_eq!(handle.kind, SymbolKind::TypeAlias);
    assert_eq!(handle.id.to_scip_string(), "codegraph . . . types/Handle#");
}

#[test]
fn define_macro() {
    let src = r#"
#define MAX_CONN 64
"#;
    let facts = CppExtractor.extract(src, "src/conf.hpp").unwrap();
    let m = by_name(&facts, "MAX_CONN").unwrap();
    assert_eq!(m.kind, SymbolKind::Const);
    assert_eq!(m.id.to_scip_string(), "codegraph . . . conf/MAX_CONN!");
}

#[test]
fn cpp_extracts_call_references() {
    let src = r#"
void run() {
    connect("host");
    obj.handle();
}
"#;
    let facts = CppExtractor.extract(src, "src/main.cpp").unwrap();
    let names: Vec<&str> = facts.references.iter().map(|r| r.name.as_str()).collect();
    assert!(names.contains(&"connect"), "expected 'connect' in {names:?}");
    assert!(names.contains(&"handle"), "expected 'handle' in {names:?}");
}

#[test]
fn inherit_single_public_base() {
    let inherit = inherit_names("class Derived : public Base {};");
    assert_eq!(inherit, vec!["Base"], "expected [Base], got {inherit:?}");
}

#[test]
fn inherit_struct_multiple_bases() {
    let mut inherit = inherit_names("struct S : A, B {};");
    inherit.sort_unstable();
    assert_eq!(inherit, vec!["A", "B"], "expected [A, B], got {inherit:?}");
}

#[test]
fn inherit_qualified_base_strips_namespace() {
    let inherit = inherit_names("class X : public ns::Base {};");
    assert_eq!(inherit, vec!["Base"], "expected [Base], got {inherit:?}");
}

#[test]
fn cpp_template_base_is_named_by_its_leaf() {
    assert_eq!(inherit_names("class Y : public std::vector<int> {};"), vec!["vector"]);
}

#[test]
fn cpp_base_split_over_lines_is_named_by_its_leaf() {
    assert_eq!(inherit_names("class X : public ns::\nBase {};"), vec!["Base"]);
}

#[test]
fn cpp_bases_are_not_implementation_references() {
    let facts = CppExtractor.extract("class Derived : public Base {};", "src/foo.cpp").unwrap();
    assert!(facts.references.iter().all(|r| r.role != RefRole::IsImplementation));
}

#[test]
fn cpp_static_definitions_are_skipped() {
    let src = "static int hidden(void) { return 0; }\nint shown(void) { return 1; }\n";
    let facts = CppExtractor.extract(src, "src/a.cc").unwrap();
    assert!(by_name(&facts, "hidden").is_none());
    assert_eq!(by_name(&facts, "shown").unwrap().id.to_scip_string(), "codegraph . . . a/shown().");
}
