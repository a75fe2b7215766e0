use code2graph::eval::corpus::{load_case, CaseSource};
use code2graph::eval::runner::{case_facts, corpus_total, per_language, score_case, score_graph_for_case, Resolver};
use code2graph::eval::score::{score, score_oracle, ExpectedEdge, Scorecard};
use code2graph::{CodeGraph, Edge, FileFacts, RefRole};

/// Links every call reference to every symbol of the same name.
struct ByName;

impl Resolver for ByName {
    fn resolve(&self, facts: &Vec<FileFacts>) -> CodeGraph {
        let mut symbols = Vec::new();
        for f in facts {
            symbols.extend(f.symbols.iter().cloned());
        }
        let mut edges = Vec::new();
        for f in facts {
            for r in &f.references {
                if r.role != RefRole::Call {
                    continue;
                }
                for s in &symbols {
                    if s.name == r.name {
                        edges.push(Edge { occ: r.occ.clone(), role: r.role, to: s.id.clone() });
                    }
                }
            }
        }
        CodeGraph { symbols, edges }
    }
}

/// Resolves nothing.
struct Silent;

impl Resolver for Silent {
    fn resolve(&self, _facts: &Vec<FileFacts>) -> CodeGraph {
        CodeGraph { symbols: Vec::new(), edges: Vec::new() }
    }
}

fn go_case(lang: &str, name: &str, expected: &str) -> code2graph::eval::corpus::Case {
    let src = CaseSource {
        lang: lang.into(),
        name: name.into(),
        files: vec![
            ("util/util.go".into(), "package util\n\nfunc Helper() int { return 1 }\n".into()),
            ("main/main.go".into(), "package main\n\nfunc Run() {\n\tutil.Helper()\n}\n".into()),
            ("notes.txt".into(), "not code".into()),
        ],
        expected_text: Some(expected.into()),
        oracle_text: None,
    };
    load_case(src).unwrap()
}

#[test]
fn case_facts_skip_files_without_a_language() {
    let case = go_case("go", "pair", "main/main.go:4 Call util/util.go:3\n");
    let facts = case_facts(&case);
    assert_eq!(facts.len(), 2);
    assert_eq!(facts[0].file, "main/main.go");
    assert_eq!(facts[1].file, "util/util.go");
}

#[test]
fn score_case_counts_the_resolved_call() {
    let case = go_case("go", "pair", "main/main.go:4 Call util/util.go:3\n");
    let sc = score_case(&case, &ByName);
    assert_eq!(sc, Scorecard { true_positives: 1, false_positives: 0, false_negatives: 0 });
    let silent = score_case(&case, &Silent);
    assert_eq!(silent, Scorecard { true_positives: 0, false_positives: 0, false_negatives: 1 });
}

#[test]
fn fan_out_counts_one_true_and_extra_false_positives() {
    let case = code2graph::eval::corpus::load_case(CaseSource {
        lang: "go".into(),
        name: "fanout".into(),
        files: vec![
            ("a/a.go".into(), "package a\n\nfunc Helper() int { return 1 }\n".into()),
            ("b/b.go".into(), "package b\n\nfunc Helper() int { return 2 }\n".into()),
            ("c/c.go".into(), "package c\n\nfunc Run() {\n\ta.Helper()\n}\n".into()),
        ],
        expected_text: Some("c/c.go:4 Call a/a.go:3\n".into()),
        oracle_text: None,
    })
    .unwrap();
    let sc = score_case(&case, &ByName);
    assert_eq!(sc, Scorecard { true_positives: 1, false_positives: 1, false_negatives: 0 });
}

#[test]
fn unasserted_roles_are_not_scored() {
    let case = go_case("go", "pair", "main/main.go:4 Import util/util.go:3\n");
    let sc = score_case(&case, &ByName);
    assert_eq!(sc, Scorecard { true_positives: 0, false_positives: 0, false_negatives: 1 });
}

#[test]
fn per_language_sorts_and_sums() {
    let cases = vec![
        go_case("zig", "one", "main/main.go:4 Call util/util.go:3\n"),
        go_case("go", "two", "main/main.go:4 Call util/util.go:3\n"),
        go_case("go", "three", "main/main.go:9 Call util/util.go:3\n"),
    ];
    let groups = per_language(&cases, &ByName);
    let langs: Vec<&str> = groups.iter().map(|(l, _)| l.as_str()).collect();
    assert_eq!(langs, vec!["go", "zig"]);
    assert_eq!(groups[0].1, Scorecard { true_positives: 1, false_positives: 1, false_negatives: 1 });
    assert_eq!(groups[1].1, Scorecard { true_positives: 1, false_positives: 0, false_negatives: 0 });
    let total = corpus_total(&cases, &ByName);
    assert_eq!(total, Scorecard { true_positives: 2, false_positives: 1, false_negatives: 1 });
}

#[test]
fn oracle_cases_score_by_location_only() {
    let case = load_case(CaseSource {
        lang: "go_oracle".into(),
        name: "pair".into(),
        files: vec![
            ("util/util.go".into(), "package util\n\nfunc Helper() int { return 1 }\n".into()),
            ("main/main.go".into(), "package main\n\nfunc Run() {\n\tutil.Helper()\n}\n".into()),
        ],
        expected_text: None,
        oracle_text: Some("main/main.go:4 util/util.go:3\nmain/main.go:9 util/util.go:3\n".into()),
    })
    .unwrap();
    let graph = ByName.resolve(&case_facts(&case));
    let direct = score_oracle(&graph, &case.oracle, &case.files);
    assert_eq!(direct, Scorecard { true_positives: 1, false_positives: 0, false_negatives: 1 });
    assert_eq!(score_graph_for_case(&graph, &case), direct);
    let _ = score(&graph, &Vec::<ExpectedEdge>::new());
}
