use code2graph::eval::corpus::{parse_expected, parse_oracle, load_case, load_corpus, classify_entry, CaseEntry, CaseSource};
use code2graph::eval::score::{ExpectedEdge, Scorecard};
use code2graph::RefRole;

#[test]
fn parses_well_formed_manifest() {
    let text = "# header\nmain.rs:5 Call util.rs:1\n\ntypes.rs:3 TypeRef types.rs:9  # trailing comment\n";
    let edges = parse_expected(text).unwrap();
    assert_eq!(edges.len(), 2);
    assert_eq!(
        edges[0],
        ExpectedEdge {
            ref_file: "main.rs".into(),
            ref_line: 5,
            role: RefRole::Call,
            def_file: "util.rs".into(),
            def_line: 1,
        }
    );
    assert_eq!(edges[1].role, RefRole::TypeRef);
}

#[test]
fn rejects_unknown_role() {
    assert!(parse_expected("main.rs:1 Frobnicate util.rs:1").is_err());
}

#[test]
fn rejects_missing_field() {
    assert!(parse_expected("main.rs:1 Call").is_err());
}

#[test]
fn rejects_non_numeric_line() {
    assert!(parse_expected("main.rs:x Call util.rs:1").is_err());
}

#[test]
fn handles_colon_in_filename_path() {
    let edges = parse_expected("a/b.rs:7 Call a/c.rs:2").unwrap();
    assert_eq!(edges[0].ref_file, "a/b.rs");
    assert_eq!(edges[0].ref_line, 7);
}

#[test]
fn merge_sums_tallies() {
    let mut a = Scorecard { true_positives: 1, false_positives: 2, false_negatives: 3 };
    a.merge(&Scorecard { true_positives: 4, false_positives: 5, false_negatives: 6 });
    assert_eq!(a.true_positives, 5);
    assert_eq!(a.false_positives, 7);
    assert_eq!(a.false_negatives, 9);
}

#[test]
fn bad_line_message_names_line_and_text() {
    let err = parse_expected("# c\n\nmain.rs:1 Call util.rs:1\nmain.rs:1 Call\n").unwrap_err();
    assert_eq!(err, "line 4: bad edge `main.rs:1 Call`");
    let err = parse_expected("a.rs:1 Call b.rs:2 extra").unwrap_err();
    assert_eq!(err, "line 1: bad edge `a.rs:1 Call b.rs:2 extra`");
}

#[test]
fn rejects_empty_file_part_and_oversized_line() {
    assert!(parse_expected(":3 Call b.rs:1").is_err());
    assert!(parse_expected("a.rs:4294967296 Call b.rs:1").is_err());
    let e = parse_expected("a.rs:+4294967295 Read b.rs:1").unwrap();
    assert_eq!(e[0].ref_line, 4294967295);
    assert_eq!(e[0].role, RefRole::Read);
}

#[test]
fn crlf_lines_and_unicode_whitespace() {
    let e = parse_expected("a.rs:1\u{3000}Write\tb.rs:2\r\nc.rs:3 IsImplementation d.rs:4\r\n").unwrap();
    assert_eq!(e.len(), 2);
    assert_eq!(e[0].role, RefRole::Write);
    assert_eq!(e[1].role, RefRole::IsImplementation);
    assert_eq!(e[1].def_file, "d.rs");
}

#[test]
fn oracle_pairs_parse_and_reject() {
    let o = parse_oracle("# oracle\nalpha.ts:1 main.ts:4\n").unwrap();
    assert_eq!(o, vec![("alpha.ts".to_string(), 1, "main.ts".to_string(), 4)]);
    let err = parse_oracle("alpha.ts:1 Call main.ts:4").unwrap_err();
    assert_eq!(err, "line 1: bad oracle edge `alpha.ts:1 Call main.ts:4`");
}

#[test]
fn control_files_only_at_case_root() {
    assert_eq!(classify_entry("expected.edges"), CaseEntry::Expected);
    assert_eq!(classify_entry("oracle.edges"), CaseEntry::Oracle);
    assert_eq!(classify_entry("index.scip"), CaseEntry::Ignored);
    assert_eq!(classify_entry("sub/expected.edges"), CaseEntry::Source);
    assert_eq!(classify_entry("main.rs"), CaseEntry::Source);
}

#[test]
fn load_case_keeps_relative_paths_and_prefixes_errors() {
    let src = CaseSource {
        lang: "rust".into(),
        name: "nested".into(),
        files: vec![("sub/y.rs".into(), "// nested\n".into()), ("x.rs".into(), "// flat\n".into())],
        expected_text: Some("x.rs:1 Call sub/y.rs:1\n".into()),
        oracle_text: None,
    };
    let c = load_case(src).unwrap();
    let paths: Vec<&str> = c.files.iter().map(|(p, _)| p.as_str()).collect();
    assert_eq!(paths, vec!["sub/y.rs", "x.rs"]);
    assert_eq!(c.expected.len(), 1);
    assert_eq!(c.expected[0].def_file, "sub/y.rs");
    assert!(c.oracle.is_empty());

    let bad = CaseSource {
        lang: "go".into(),
        name: "broken".into(),
        files: vec![],
        expected_text: Some("x.go:1 Call".into()),
        oracle_text: Some("nonsense".into()),
    };
    let err = load_corpus(vec![bad]).unwrap_err();
    assert_eq!(err, "go/broken/expected.edges: line 1: bad edge `x.go:1 Call`");
}

fn source(lang: &str, name: &str, files: Vec<(&str, &str)>, expected: Option<&str>) -> CaseSource {
    CaseSource {
        lang: lang.into(),
        name: name.into(),
        files: files.into_iter().map(|(p, t)| (p.to_string(), t.to_string())).collect(),
        expected_text: expected.map(|e| e.to_string()),
        oracle_text: None,
    }
}

#[test]
fn load_case_puts_files_in_path_order() {
    let c = load_case(source("rust", "nested", vec![("x.rs", "// flat\n"), ("sub/y.rs", "// nested\n"), ("a.rs", "")], None))
        .unwrap();
    let paths: Vec<&str> = c.files.iter().map(|(p, _)| p.as_str()).collect();
    assert_eq!(paths, vec!["a.rs", "sub/y.rs", "x.rs"]);
    assert_eq!(c.files[2].1, "// flat\n");
}

#[test]
fn load_case_orders_paths_component_by_component() {
    let c = load_case(source("rust", "order", vec![("a.rs", ""), ("a/x.rs", ""), ("a-b.rs", "")], None)).unwrap();
    let paths: Vec<&str> = c.files.iter().map(|(p, _)| p.as_str()).collect();
    assert_eq!(paths, vec!["a/x.rs", "a-b.rs", "a.rs"]);
}

#[test]
fn sort_paths_and_names_follow_path_and_string_order() {
    let paths = code2graph::eval::corpus::sort_paths(vec!["a.rs".into(), "a/x.rs".into(), "b".into()]);
    assert_eq!(paths, vec!["a/x.rs".to_string(), "a.rs".to_string(), "b".to_string()]);
    let names = code2graph::eval::corpus::sort_names(vec!["rust".into(), "go".into(), "c".into()]);
    assert_eq!(names, vec!["c".to_string(), "go".to_string(), "rust".to_string()]);
}

#[test]
fn load_corpus_sorts_cases_by_language_then_name() {
    let cases = load_corpus(vec![
        source("rust", "b", vec![], None),
        source("go", "z", vec![], None),
        source("rust", "a", vec![], None),
    ])
    .unwrap();
    let keys: Vec<(&str, &str)> = cases.iter().map(|c| (c.lang.as_str(), c.name.as_str())).collect();
    assert_eq!(keys, vec![("go", "z"), ("rust", "a"), ("rust", "b")]);
}

#[test]
fn load_corpus_reports_the_first_failing_case_in_corpus_order() {
    let err = load_corpus(vec![
        source("rust", "late", vec![], Some("bad")),
        source("go", "early", vec![], Some("worse")),
    ])
    .unwrap_err();
    assert_eq!(err, "go/early/expected.edges: line 1: bad edge `worse`");
}
