use code2graph::extract::dart::{dart_bindings, dart_imports, dart_scopes};
use code2graph::extract::objc::objc_inheritance;
use code2graph::extract::powershell::powershell_imports;
use code2graph::extract::tree::SyntaxTree;
use code2graph::extract::ts::RawNode;
use code2graph::graph::{BindingKind, ByteSpan, RefRole, Scope, ScopeKind};

/// A record: kind, named, field, depth, and the text it spans (found in the
/// source from `from` on).
type Rec<'a> = (&'a str, bool, Option<&'a str>, usize, &'a str);

/// Build a syntax tree over `source` from pre-order records, linking each node
/// to the last node one level up.
fn tree(source: &str, recs: &[Rec]) -> SyntaxTree {
    let mut nodes = Vec::new();
    let mut parent = Vec::new();
    let mut first_child: Vec<Option<usize>> = Vec::new();
    let mut next_sibling: Vec<Option<usize>> = Vec::new();
    let mut last_child: Vec<Option<usize>> = Vec::new();
    let mut stack: Vec<usize> = Vec::new();
    let mut cursor = 0usize;
    for (i, (kind, named, field, depth, text)) in recs.iter().enumerate() {
        let (start, end) = if *depth == 0 {
            (0, source.len())
        } else {
            let at = source[cursor..].find(text).expect("text in source") + cursor;
            cursor = at;
            (at, at + text.len())
        };
        let (row, col) = (0, start);
        nodes.push(RawNode {
            kind: kind.to_string(),
            named: *named,
            field: field.map(|f| f.to_string()),
            depth: *depth,
            start,
            end,
            row,
            col,
        });
        stack.truncate(*depth);
        let par = if *depth == 0 { 0 } else { stack[*depth - 1] };
        if *depth > 0 {
            match last_child[par] {
                Some(lc) => next_sibling[lc] = Some(i),
                None => first_child[par] = Some(i),
            }
            last_child[par] = Some(i);
        }
        parent.push(par);
        first_child.push(None);
        next_sibling.push(None);
        last_child.push(None);
        stack.push(i);
    }
    SyntaxTree { nodes, parent, first_child, next_sibling, bytes: source.as_bytes().to_vec() }
}

fn import_tree(source: &str, tail: &[Rec]) -> SyntaxTree {
    let mut recs: Vec<Rec> = vec![
        ("program", true, None, 0, ""),
        ("import_or_export", true, None, 1, "import"),
        ("library_import", true, None, 2, "import"),
        ("import_specification", true, None, 3, "import"),
        ("import", false, None, 4, "import"),
        ("configurable_uri", true, Some("uri"), 4, "'"),
        ("uri", true, None, 5, "'"),
        ("string_literal", true, None, 6, "'package:a/b.dart'"),
    ];
    recs.extend_from_slice(tail);
    tree(source, &recs)
}

#[test]
fn dart_show_combinator_imports_each_listed_name() {
    let src = "import 'package:a/b.dart' show Foo, Bar;";
    let t = import_tree(
        src,
        &[
            ("combinator", true, None, 4, "show"),
            ("show", false, None, 5, "show"),
            ("identifier", true, None, 5, "Foo"),
            (",", false, None, 5, ","),
            ("identifier", true, None, 5, "Bar"),
            (";", false, None, 4, ";"),
        ],
    );
    let refs = dart_imports(&t, "lib/c.dart", "codegraph . . . c/");
    let names: Vec<&str> = refs.iter().map(|r| r.name.as_str()).collect();
    assert_eq!(names, vec!["Foo", "Bar"]);
    for r in &refs {
        assert_eq!(r.role, RefRole::Import);
        assert_eq!(r.from_path.as_deref(), Some("package:a/b.dart"));
        assert_eq!(r.source_module.as_deref(), Some("codegraph . . . c/"));
        assert_eq!(r.occ.file, "lib/c.dart");
    }
    assert_eq!(refs[0].occ.byte, src.find("Foo").unwrap());
}

#[test]
fn dart_alias_import_references_the_alias() {
    let src = "import 'package:a/b.dart' as lib;";
    let t = import_tree(src, &[("as", false, None, 4, "as"), ("identifier", true, None, 4, "lib"), (";", false, None, 4, ";")]);
    let refs = dart_imports(&t, "lib/c.dart", "m");
    assert_eq!(refs.len(), 1);
    assert_eq!(refs[0].name, "lib");
    assert_eq!(refs[0].from_path.as_deref(), Some("package:a/b.dart"));
}

#[test]
fn dart_bare_and_hide_imports_reference_nothing() {
    let bare = "import 'package:a/b.dart';";
    let t = import_tree(bare, &[(";", false, None, 4, ";")]);
    assert!(dart_imports(&t, "lib/c.dart", "m").is_empty());

    let hide = "import 'package:a/b.dart' hide Foo;";
    let t = import_tree(
        hide,
        &[
            ("combinator", true, None, 4, "hide"),
            ("hide", false, None, 5, "hide"),
            ("identifier", true, None, 5, "Foo"),
            (";", false, None, 4, ";"),
        ],
    );
    assert!(dart_imports(&t, "lib/c.dart", "m").is_empty());
}

#[test]
fn dart_bindings_record_params_and_nested_locals() {
    let src = "void run(int count) { var total = 1; }";
    let t = tree(
        src,
        &[
            ("program", true, None, 0, ""),
            ("function_declaration", true, None, 1, "void"),
            ("function_signature", true, Some("signature"), 2, "void"),
            ("identifier", true, Some("name"), 3, "run"),
            ("formal_parameter_list", true, Some("parameters"), 3, "(int count)"),
            ("formal_parameter", true, None, 4, "int count"),
            ("type_identifier", true, None, 5, "int"),
            ("identifier", true, Some("name"), 5, "count"),
            ("function_body", true, Some("body"), 2, "{ var total = 1; }"),
            ("block", true, None, 3, "{ var total = 1; }"),
            ("local_variable_declaration", true, None, 4, "var total = 1;"),
            ("initialized_identifier_list", true, None, 5, "total = 1"),
            ("initialized_identifier", true, None, 6, "total = 1"),
            ("identifier", true, Some("name"), 7, "total"),
        ],
    );
    let fn_start = 0;
    let block_start = src.find('{').unwrap();
    let scopes = vec![
        Scope { parent: None, span: ByteSpan { start: 0, end: src.len() }, kind: ScopeKind::Module },
        Scope { parent: Some(0), span: ByteSpan { start: fn_start, end: src.len() }, kind: ScopeKind::Function },
        Scope { parent: Some(1), span: ByteSpan { start: block_start, end: src.len() }, kind: ScopeKind::Block },
    ];
    let bs = dart_bindings(&t, &scopes, 2);
    assert_eq!(bs.len(), 2);
    assert_eq!(bs[0].name, "count");
    assert_eq!(bs[0].kind, BindingKind::Param);
    assert_eq!(bs[0].intro, src.find("int count").unwrap());
    assert_eq!(bs[1].name, "total");
    assert_eq!(bs[1].kind, BindingKind::Local);
    assert_eq!(bs[1].scope, 2);

    // A name shorter than the minimum length is not recorded.
    let short = dart_bindings(&t, &scopes, 6);
    assert_eq!(short.len(), 1);
    assert_eq!(short[0].name, "count");

    // A local whose innermost scope is the root is not recorded.
    let only_root = vec![scopes[0]];
    let rooted = dart_bindings(&t, &only_root, 2);
    assert_eq!(rooted.len(), 1);
    assert_eq!(rooted[0].kind, BindingKind::Param);
}

#[test]
fn dart_scopes_open_function_and_block_scopes() {
    let src = "void run(int count) { var total = 1; }";
    let t = tree(
        src,
        &[
            ("program", true, None, 0, ""),
            ("function_declaration", true, None, 1, src),
            ("function_signature", true, Some("signature"), 2, "void run(int count)"),
            ("identifier", true, Some("name"), 3, "run"),
            ("function_body", true, Some("body"), 2, "{ var total = 1; }"),
            ("block", true, None, 3, "{ var total = 1; }"),
            ("local_variable_declaration", true, None, 4, "var total = 1;"),
            ("initialized_identifier_list", true, None, 5, "total = 1"),
            ("initialized_identifier", true, None, 6, "total = 1"),
            ("identifier", true, Some("name"), 7, "total"),
        ],
    );
    let scopes = dart_scopes(&t, src.len());
    assert_eq!(scopes.len(), 3);
    assert_eq!(scopes[0].kind, ScopeKind::Module);
    assert_eq!(scopes[1].kind, ScopeKind::Function);
    assert_eq!(scopes[1].parent, Some(0));
    assert_eq!(scopes[1].span, ByteSpan { start: 0, end: src.len() });
    assert_eq!(scopes[2].kind, ScopeKind::Block);
    assert_eq!(scopes[2].parent, Some(1));
    assert_eq!(scopes[2].span.start, src.find('{').unwrap());
    let bs = dart_bindings(&t, &scopes, 3);
    assert_eq!(bs.len(), 1);
    assert_eq!(bs[0].name, "total");
    assert_eq!(bs[0].scope, 2);
}

#[test]
fn objc_superclass_type_arguments_and_protocols_are_implementation_references() {
    let src = "@interface Dog : Animal <Pet>\n@end\n@protocol P <Q, R>\n@end\n";
    let t = tree(
        src,
        &[
            ("translation_unit", true, None, 0, ""),
            ("class_interface", true, None, 1, "@interface Dog : Animal <Pet>\n@end"),
            ("identifier", true, Some("name"), 2, "Dog"),
            ("identifier", true, Some("superclass"), 2, "Animal"),
            ("parameterized_arguments", true, None, 2, "<Pet>"),
            ("type_name", true, None, 3, "Pet"),
            ("type_identifier", true, None, 4, "Pet"),
            ("protocol_declaration", true, None, 1, "@protocol P <Q, R>\n@end"),
            ("identifier", true, Some("name"), 2, "P"),
            ("protocol_reference_list", true, None, 2, "<Q, R>"),
            ("identifier", true, None, 3, "Q"),
            ("identifier", true, None, 3, "R"),
        ],
    );
    let refs = objc_inheritance(&t, "src/Dog.m");
    let names: Vec<&str> = refs.iter().map(|r| r.name.as_str()).collect();
    assert_eq!(names, vec!["Animal", "Pet", "Q", "R"]);
    assert!(refs.iter().all(|r| r.role == RefRole::IsImplementation));
    assert_eq!(refs[0].occ.byte, src.find("Animal").unwrap());
}

#[test]
fn powershell_import_forms_are_imports() {
    let src = "IMPORT-MODULE MyModule\nusing Module Other\n. .\\lib\\h.ps1\nWrite-Host hi\n";
    let t = tree(
        src,
        &[
            ("program", true, None, 0, ""),
            ("command", true, None, 1, "IMPORT-MODULE MyModule"),
            ("command_name", true, Some("command_name"), 2, "IMPORT-MODULE"),
            ("command_elements", true, Some("command_elements"), 2, "MyModule"),
            ("generic_token", true, None, 3, "MyModule"),
            ("command", true, None, 1, "using Module Other"),
            ("command_name", true, Some("command_name"), 2, "using"),
            ("command_elements", true, Some("command_elements"), 2, "Module Other"),
            ("generic_token", true, None, 3, "Module"),
            ("generic_token", true, None, 3, "Other"),
            ("command", true, None, 1, ". .\\lib\\h.ps1"),
            ("command_invokation_operator", true, None, 2, "."),
            ("command_name_expr", true, Some("command_name"), 2, ".\\lib\\h.ps1"),
            ("command_name", true, None, 3, ".\\lib\\h.ps1"),
            ("command", true, None, 1, "Write-Host hi"),
            ("command_name", true, Some("command_name"), 2, "Write-Host"),
            ("command_elements", true, Some("command_elements"), 2, "hi"),
            ("generic_token", true, None, 3, "hi"),
        ],
    );
    let refs = powershell_imports(&t, "scripts/run.ps1", "m");
    let names: Vec<&str> = refs.iter().map(|r| r.name.as_str()).collect();
    assert_eq!(names, vec!["MyModule", "Other", ".\\lib\\h.ps1"]);
    for r in &refs {
        assert_eq!(r.role, RefRole::Import);
        assert_eq!(r.from_path.as_deref(), Some(r.name.as_str()));
    }
}
