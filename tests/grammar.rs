use rssat::dimacs::{build_formula, CnfFormula, ParserError};
use rssat::grammar::{scan_document, Node, Span};

fn chars(s: &str) -> Vec<char> {
    s.chars().collect()
}

#[test]
fn scan_gives_nodes_with_token_spans() {
    let s = chars("c hi\np cnf 2 1\n-2 1 0\n");
    let nodes = scan_document(&s).unwrap();
    assert_eq!(
        nodes,
        vec![
            Node::Declaration { vars: Span { start: 11, end: 12 }, clauses: Span { start: 13, end: 14 } },
            Node::Clause { literals: vec![Span { start: 15, end: 17 }, Span { start: 18, end: 19 }] },
        ]
    );
}

#[test]
fn scan_skips_comments_and_blank_lines() {
    let s = chars("\n\nc a\n  c b\n\n");
    assert_eq!(scan_document(&s), Ok(vec![]));
}

#[test]
fn scan_requires_separated_tokens() {
    assert_eq!(scan_document(&chars("pcnf 1 1")), Err(1));
    assert_eq!(scan_document(&chars("1 2 0x")), Err(4));
    assert_eq!(scan_document(&chars("p cnf 1")), Err(7));
}

#[test]
fn scan_reads_non_ascii_comments() {
    let s = chars("c é ü\n1 0\n");
    assert_eq!(
        scan_document(&s),
        Ok(vec![Node::Clause { literals: vec![Span { start: 6, end: 7 }] }])
    );
}

#[test]
fn build_formula_walks_given_nodes() {
    let s = chars("p cnf 2 1\n-2 1 0\n");
    let nodes = scan_document(&s).unwrap();
    let strict = build_formula(&s, &nodes, true).unwrap();
    assert_eq!(strict, CnfFormula { num_vars: 2, num_clauses: 1, clauses: vec![vec![-2, 1]] });
    let reordered = vec![nodes[1].clone()];
    assert_eq!(
        build_formula(&s, &reordered, true),
        Err(ParserError::TooManyVariables(2, None))
    );
    assert_eq!(build_formula(&s, &reordered, false).unwrap().num_vars, 2);
}
