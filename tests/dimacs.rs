use rssat::dimacs::{parse_dimacs_cnf, CnfFormula, ParserError};

fn formula(num_vars: usize, clauses: Vec<Vec<i32>>) -> CnfFormula {
    CnfFormula { num_vars, num_clauses: clauses.len(), clauses }
}

#[test]
fn strict_keeps_declared_variable_count() {
    let f = parse_dimacs_cnf("p cnf 3 2\n1 -3 0\n", true).unwrap();
    assert_eq!(f.num_vars, 3);
    assert_eq!(f.num_clauses, 1);
    assert_eq!(f.clauses, vec![vec![1, -3]]);
}

#[test]
fn strict_declared_count_above_usage() {
    let f = parse_dimacs_cnf("c This is a comment\np cnf 3 2\n1 -2 0\n", true).unwrap();
    assert_eq!(f, formula(3, vec![vec![1, -2]]));
}

#[test]
fn strict_rejects_variable_overflow() {
    let r = parse_dimacs_cnf("p cnf 1 1\n1 2 0\n", true);
    assert_eq!(r, Err(ParserError::TooManyVariables(2, Some(1))));
}

#[test]
fn lenient_ignores_declared_variable_count() {
    let f = parse_dimacs_cnf("p cnf 1 1\n1 2 0\n", false).unwrap();
    assert_eq!(f.num_vars, 2);
    assert_eq!(f.num_clauses, 1);
    assert_eq!(f.clauses, vec![vec![1, 2]]);
}

#[test]
fn strict_truncates_at_declared_clause_count() {
    let f = parse_dimacs_cnf("p cnf 3 1\n1 2 0\n-3 0\n", true).unwrap();
    assert_eq!(f, formula(3, vec![vec![1, 2]]));
}

#[test]
fn lenient_keeps_surplus_clauses() {
    let f = parse_dimacs_cnf("p cnf 3 1\n1 2 0\n-3 0\n", false).unwrap();
    assert_eq!(f, formula(3, vec![vec![1, 2], vec![-3]]));
}

#[test]
fn truncation_ends_the_walk() {
    let f = parse_dimacs_cnf("p cnf 2 1\n1 0\n2 0\np cnf 5 3\n", true).unwrap();
    assert_eq!(f, formula(2, vec![vec![1]]));
}

#[test]
fn later_declaration_replaces_earlier() {
    let f = parse_dimacs_cnf("p cnf 1 1\np cnf 4 2\n1 2 0\n-4 0\n", true).unwrap();
    assert_eq!(f, formula(4, vec![vec![1, 2], vec![-4]]));
}

#[test]
fn round_trip_of_rendered_formula() {
    let expected = formula(3, vec![vec![1, -3]]);
    let mut text = format!("p cnf {} {}\n", expected.num_vars, expected.num_clauses);
    for c in &expected.clauses {
        for l in c {
            text.push_str(&format!("{} ", l));
        }
        text.push_str("0\n");
    }
    assert_eq!(text, "p cnf 3 1\n1 -3 0\n");
    assert_eq!(parse_dimacs_cnf(&text, true).unwrap(), expected);
    assert_eq!(parse_dimacs_cnf(&text, false).unwrap(), expected);
}

#[test]
fn parsing_twice_gives_equal_results() {
    let text = "c x\np cnf 4 3\n1 -2 0\n3 4 -1 0\nc y\n2 0\n";
    assert_eq!(parse_dimacs_cnf(text, true), parse_dimacs_cnf(text, true));
    assert_eq!(parse_dimacs_cnf(text, false), parse_dimacs_cnf(text, false));
    assert_eq!(parse_dimacs_cnf("1 x 0", false), parse_dimacs_cnf("1 x 0", false));
}

#[test]
fn comments_do_not_change_the_formula() {
    let plain = "p cnf 3 2\n1 -3 0\n2 3 0\n";
    let commented = "c first\np cnf 3 2\nc between -7 0\n1 -3 0\nc again\n2 3 0\nc last 9";
    for strict in [true, false] {
        assert_eq!(
            parse_dimacs_cnf(plain, strict).unwrap(),
            parse_dimacs_cnf(commented, strict).unwrap()
        );
    }
    let prefixed = "c only a comment\np cnf 3 2\n1 -3 0\n2 3 0\n";
    assert_eq!(parse_dimacs_cnf(plain, false), parse_dimacs_cnf(prefixed, false));
}

#[test]
fn strict_and_lenient_agree_within_declared_size() {
    let text = "p cnf 5 3\n1 -5 0\n2 3 0\n";
    let strict = parse_dimacs_cnf(text, true).unwrap();
    let lenient = parse_dimacs_cnf(text, false).unwrap();
    assert_eq!(strict.clauses, lenient.clauses);
    assert_eq!(strict.num_clauses, lenient.num_clauses);
    assert_eq!(strict.num_vars, 5);
    assert_eq!(lenient.num_vars, 5);
}

#[test]
fn syntax_error_position() {
    assert_eq!(parse_dimacs_cnf("p cnf 3 1\n1 x 0\n", false), Err(ParserError::Syntax { pos: 12 }));
}

#[test]
fn missing_terminator_is_syntax_error() {
    assert_eq!(parse_dimacs_cnf("1 2", false), Err(ParserError::Syntax { pos: 3 }));
}

#[test]
fn empty_clause_is_syntax_error() {
    assert_eq!(parse_dimacs_cnf("0\n", false), Err(ParserError::Syntax { pos: 0 }));
}

#[test]
fn malformed_declaration_is_syntax_error() {
    assert_eq!(parse_dimacs_cnf("p dnf 1 1\n", false), Err(ParserError::Syntax { pos: 2 }));
    assert_eq!(parse_dimacs_cnf("p cnf -1 1\n", false), Err(ParserError::Syntax { pos: 6 }));
}

#[test]
fn literal_out_of_range_is_integer_error() {
    assert_eq!(
        parse_dimacs_cnf("p cnf 3 1\n1 3000000000 0\n", false),
        Err(ParserError::InvalidInteger { pos: 12 })
    );
}

#[test]
fn declared_count_out_of_range_is_integer_error() {
    assert_eq!(
        parse_dimacs_cnf("p cnf 2147483648 1\n", false),
        Err(ParserError::InvalidInteger { pos: 6 })
    );
}

#[test]
fn smallest_literal_is_accepted() {
    let f = parse_dimacs_cnf("-2147483648 2147483647 0\n", false).unwrap();
    assert_eq!(f.num_vars, 2147483648);
    assert_eq!(f.clauses, vec![vec![i32::MIN, i32::MAX]]);
    assert_eq!(
        parse_dimacs_cnf("-2147483649 0\n", false),
        Err(ParserError::InvalidInteger { pos: 0 })
    );
}

#[test]
fn strict_without_declaration_fails() {
    assert_eq!(parse_dimacs_cnf("1 0\n", true), Err(ParserError::TooManyVariables(1, None)));
    assert_eq!(parse_dimacs_cnf("", true), Err(ParserError::TooManyVariables(0, None)));
}

#[test]
fn empty_document_is_empty_formula() {
    assert_eq!(parse_dimacs_cnf("", false).unwrap(), CnfFormula::new());
    assert_eq!(parse_dimacs_cnf("c nothing\n\n", false).unwrap(), CnfFormula::new());
}

#[test]
fn clause_may_span_lines() {
    let f = parse_dimacs_cnf("p cnf 4 1\n1 2\n\t-4 0", true).unwrap();
    assert_eq!(f, formula(4, vec![vec![1, 2, -4]]));
}
