use code2graph::{Extractor, SymbolKind};
use code2graph::extract::RubyExtractor;

#[test]
fn emits_methods_regardless_of_visibility() {
    let src = r#"
class Svc
  def open
  end
  private
  def secret
  end
end
"#;
    let facts = RubyExtractor.extract(src, "lib/svc.rb").unwrap();
    let by_name = |n: &str| facts.symbols.iter().find(|s| s.name == n).cloned();

    let open_sym = by_name("open").unwrap();
    assert_eq!(open_sym.kind, SymbolKind::Method);

    let secret_sym = by_name("secret").unwrap();
    assert_eq!(secret_sym.kind, SymbolKind::Method);
}

#[test]
fn ruby_extracts_call_references() {
    let src = r#"
def run
  validate("t")
  process(data)
end
"#;
    let facts = RubyExtractor.extract(src, "lib/main.rb").unwrap();
    let names: Vec<&str> = facts.references.iter().map(|r| r.name.as_str()).collect();
    assert!(names.contains(&"validate"));
    assert!(names.contains(&"process"));
}

// SCIP ids are written in the `codegraph . . . ` form (scheme, then the empty
// manager, package name and version, each shown as `.`); the expected ids
// below use it.
#[test]
fn extracts_nested_defs() {
    let src = r#"
module Auth
  class Session
    MAX = 3
    def validate(token)
      check(token)
    end
    def self.create
    end
  end
end

TOP = 1
def helper
end
"#;
    let facts = RubyExtractor.extract(src, "lib/auth/session.rb").unwrap();
    let by_name = |n: &str| facts.symbols.iter().find(|s| s.name == n).cloned();

    let auth = by_name("Auth").unwrap();
    assert_eq!(auth.kind, SymbolKind::Module);
    assert_eq!(auth.id.to_scip_string(), "codegraph . . . auth/session/Auth#");

    let session = by_name("Session").unwrap();
    assert_eq!(session.kind, SymbolKind::Class);
    assert_eq!(session.id.to_scip_string(), "codegraph . . . auth/session/Auth#Session#");

    let max = by_name("MAX").unwrap();
    assert_eq!(max.kind, SymbolKind::Const);
    assert_eq!(max.id.to_scip_string(), "codegraph . . . auth/session/Auth#Session#MAX.");

    let validate = by_name("validate").unwrap();
    assert_eq!(validate.kind, SymbolKind::Method);
    assert_eq!(validate.id.to_scip_string(), "codegraph . . . auth/session/Auth#Session#validate().");

    let create = by_name("create").unwrap();
    assert_eq!(create.kind, SymbolKind::Method);
    assert_eq!(create.id.to_scip_string(), "codegraph . . . auth/session/Auth#Session#create().");

    let top = by_name("TOP").unwrap();
    assert_eq!(top.kind, SymbolKind::Const);
    assert_eq!(top.id.to_scip_string(), "codegraph . . . auth/session/TOP.");

    let helper = by_name("helper").unwrap();
    assert_eq!(helper.kind, SymbolKind::Method);
    assert_eq!(helper.id.to_scip_string(), "codegraph . . . auth/session/helper().");

    assert_eq!(facts.lang, "ruby");
}
