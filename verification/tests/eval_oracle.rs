use code2graph::eval::oracle::{lines_within, oracle_edges_checked, oracle_edges_from_scip, oracle_pairs, ScipDocument, ScipOccurrence};
use protobuf::Message;

fn occ(symbol: &str, roles: i32, line: i32) -> scip::types::Occurrence {
    let mut o = scip::types::Occurrence::new();
    o.symbol = symbol.to_string();
    o.symbol_roles = roles;
    o.range = vec![line, 0, 4];
    o
}

fn doc(path: &str, occs: Vec<scip::types::Occurrence>) -> scip::types::Document {
    let mut d = scip::types::Document::new();
    d.relative_path = path.to_string();
    d.occurrences = occs;
    d
}

fn index_bytes(docs: Vec<scip::types::Document>) -> Vec<u8> {
    let mut idx = scip::types::Index::new();
    idx.documents = docs;
    idx.write_to_bytes().unwrap()
}

fn pair(a: &str, al: u32, b: &str, bl: u32) -> (String, u32, String, u32) {
    (a.to_string(), al, b.to_string(), bl)
}

#[test]
fn scip_reference_pairs_with_its_definition() {
    let bytes = index_bytes(vec![
        doc("alpha/alpha.go", vec![occ("pkg/Alpha().", 1, 2)]),
        doc("main.go", vec![occ("pkg/Alpha().", 0, 9)]),
    ]);
    let edges = oracle_edges_from_scip(&bytes).unwrap();
    assert_eq!(edges, vec![pair("main.go", 10, "alpha/alpha.go", 3)]);
}

#[test]
fn scip_pairs_are_sorted_and_deduplicated() {
    let bytes = index_bytes(vec![
        doc("z.rs", vec![occ("f", 0, 4), occ("f", 0, 4), occ("g", 0, 1)]),
        doc("a.rs", vec![occ("f", 1, 0), occ("g", 1, 7), occ("f", 0, 2)]),
    ]);
    let edges = oracle_edges_from_scip(&bytes).unwrap();
    assert_eq!(
        edges,
        vec![pair("a.rs", 3, "a.rs", 1), pair("z.rs", 2, "a.rs", 8), pair("z.rs", 5, "a.rs", 1)]
    );
}

#[test]
fn scip_self_loops_empty_symbols_and_undefined_symbols_make_no_pair() {
    let bytes = index_bytes(vec![doc(
        "m.py",
        vec![occ("s", 1, 3), occ("s", 0, 3), occ("", 0, 5), occ("undefined", 0, 6)],
    )]);
    assert_eq!(oracle_edges_from_scip(&bytes).unwrap(), Vec::<(String, u32, String, u32)>::new());
}

#[test]
fn scip_first_definition_wins() {
    let bytes = index_bytes(vec![
        doc("one.ts", vec![occ("x", 1, 0)]),
        doc("two.ts", vec![occ("x", 3, 5), occ("x", 8, 9)]),
    ]);
    let edges = oracle_edges_from_scip(&bytes).unwrap();
    assert_eq!(edges, vec![pair("two.ts", 10, "one.ts", 1)]);
}

#[test]
fn scip_empty_range_reads_as_line_one() {
    let mut r = occ("f", 0, 0);
    r.range = Vec::new();
    let bytes = index_bytes(vec![doc("a.c", vec![occ("f", 1, 6), r])]);
    assert_eq!(oracle_edges_from_scip(&bytes).unwrap(), vec![pair("a.c", 1, "a.c", 7)]);
}

#[test]
fn undecodable_scip_index_is_an_error() {
    assert!(oracle_edges_from_scip(&[0x0a, 0x05, 0x01]).is_err());
    assert!(matches!(oracle_edges_checked(&[0x0a, 0x05, 0x01]), Some(Err(_))));
}

#[test]
fn scip_line_past_u32_is_refused_by_the_checked_reader() {
    let bytes = index_bytes(vec![doc("a.c", vec![occ("f", 1, -1)])]);
    assert!(oracle_edges_checked(&bytes).is_none());
    let fine = index_bytes(vec![doc("a.c", vec![occ("f", 1, 3), occ("f", 0, 5)])]);
    assert_eq!(oracle_edges_checked(&fine), Some(Ok(vec![pair("a.c", 6, "a.c", 4)])));
}

#[test]
fn oracle_pairs_from_plain_documents() {
    let docs = vec![
        ScipDocument {
            relative_path: "lib.rs".to_string(),
            occurrences: vec![ScipOccurrence { symbol: "h".to_string(), symbol_roles: 1, range: vec![0, 3, 9] }],
        },
        ScipDocument {
            relative_path: "main.rs".to_string(),
            occurrences: vec![ScipOccurrence { symbol: "h".to_string(), symbol_roles: 8, range: vec![11, 4, 10] }],
        },
    ];
    assert!(lines_within(&docs));
    assert_eq!(oracle_pairs(&docs), vec![pair("main.rs", 12, "lib.rs", 1)]);
}

#[test]
fn oracle_manifest_writes_header_then_one_line_per_pair() {
    let pairs = vec![pair("main.ts", 4, "alpha.ts", 1), pair("b/c.go", 12, "b/d.go", 30)];
    let text = code2graph::eval::oracle::oracle_manifest(&pairs);
    assert_eq!(
        text,
        "# oracle: SCIP index \u{2014} location pairs (ref -> def), role-agnostic\nmain.ts:4 alpha.ts:1\nb/c.go:12 b/d.go:30\n"
    );
    assert_eq!(code2graph::eval::corpus::parse_oracle(&text).unwrap(), pairs);
}

#[test]
fn empty_oracle_manifest_is_the_header_alone() {
    let text = code2graph::eval::oracle::oracle_manifest(&Vec::new());
    assert_eq!(text, "# oracle: SCIP index \u{2014} location pairs (ref -> def), role-agnostic\n");
    assert!(code2graph::eval::corpus::parse_oracle(&text).unwrap().is_empty());
}
