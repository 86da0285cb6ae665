use cdcl::node::Node;
use cdcl::parser::{parse_i32, parse_usize, Parser};
use cdcl::solver::{formula_in_range, Solver};
use cdcl::state::{LiteralState, SolverState};

fn solve_text(text: &str) -> SolverState {
    let mut parser = Parser::new(text);
    let cnf = parser.parse().expect("Invalid formula");
    assert!(formula_in_range(&cnf, parser.nbvars));
    let mut solver = Solver::new(cnf, parser.nbvars);
    solver.solve()
}

fn solve_clauses(cnf: Vec<Vec<i32>>, nbvars: usize) -> SolverState {
    let mut solver = Solver::new(cnf, nbvars);
    solver.solve()
}

fn chars(s: &str) -> Vec<char> {
    s.chars().collect()
}

#[test]
fn single_positive_unit_is_sat() {
    assert_eq!(solve_text("p cnf 1 1\n1 0\n"), SolverState::SAT);
}

#[test]
fn unit_and_its_negation_are_unsat() {
    assert_eq!(solve_text("p cnf 1 2\n1 0\n-1 0\n"), SolverState::UNSAT);
}

#[test]
fn three_variable_formula_is_sat() {
    assert_eq!(solve_text("p cnf 3 3\n1 2 0\n-1 3 0\n-2 -3 0\n"), SolverState::SAT);
}

#[test]
fn all_four_two_variable_clauses_are_unsat() {
    assert_eq!(solve_text("p cnf 3 4\n1 2 0\n-1 2 0\n1 -2 0\n-1 -2 0\n"), SolverState::UNSAT);
}

#[test]
fn pigeonhole_three_into_two_is_unsat() {
    let text = "c three pigeons, two holes\np cnf 6 9\n1 2 0\n3 4 0\n5 6 0\n-1 -3 0\n-1 -5 0\n-3 -5 0\n-2 -4 0\n-2 -6 0\n-4 -6 0\n";
    assert_eq!(solve_text(text), SolverState::UNSAT);
}

#[test]
fn pigeonhole_four_into_three_is_unsat() {
    let mut cnf: Vec<Vec<i32>> = Vec::new();
    let var = |p: i32, h: i32| p * 3 + h + 1;
    for p in 0..4 {
        cnf.push((0..3).map(|h| var(p, h)).collect());
    }
    for h in 0..3 {
        for p in 0..4 {
            for q in (p + 1)..4 {
                cnf.push(vec![-var(p, h), -var(q, h)]);
            }
        }
    }
    assert_eq!(solve_clauses(cnf, 12), SolverState::UNSAT);
}

#[test]
fn empty_formula_is_sat() {
    assert_eq!(solve_clauses(vec![], 0), SolverState::SAT);
    assert_eq!(solve_clauses(vec![], 5), SolverState::SAT);
    assert_eq!(solve_text("p cnf 4 0\n"), SolverState::SAT);
}

#[test]
fn empty_clause_is_unsat() {
    assert_eq!(solve_clauses(vec![vec![]], 1), SolverState::UNSAT);
    assert_eq!(solve_clauses(vec![vec![1, 2], vec![-1], vec![]], 2), SolverState::UNSAT);
    assert_eq!(solve_text("p cnf 2 2\n1 2 0\n 0\n"), SolverState::UNSAT);
}

#[test]
fn single_negative_unit_is_sat() {
    assert_eq!(solve_clauses(vec![vec![-3]], 3), SolverState::SAT);
}

#[test]
fn tautologies_only_are_sat() {
    assert_eq!(solve_clauses(vec![vec![1, -1], vec![2, 3, -2], vec![-3, 3]], 3), SolverState::SAT);
}

#[test]
fn chain_of_implications_is_sat() {
    // 1, 1 -> 2, 2 -> 3, ..., 9 -> 10
    let mut cnf = vec![vec![1]];
    for v in 1..10 {
        cnf.push(vec![-v, v + 1]);
    }
    assert_eq!(solve_clauses(cnf, 10), SolverState::SAT);
}

#[test]
fn chain_ending_in_contradiction_is_unsat() {
    let mut cnf = vec![vec![1]];
    for v in 1..10 {
        cnf.push(vec![-v, v + 1]);
    }
    cnf.push(vec![-10]);
    assert_eq!(solve_clauses(cnf, 10), SolverState::UNSAT);
}

#[test]
fn exclusive_or_of_three_is_sat_and_its_contradiction_unsat() {
    // x1 xor x2 xor x3 = 1
    let odd = vec![vec![1, 2, 3], vec![1, -2, -3], vec![-1, 2, -3], vec![-1, -2, 3]];
    assert_eq!(solve_clauses(odd.clone(), 3), SolverState::SAT);
    let mut both = odd;
    both.extend(vec![vec![-1, -2, -3], vec![-1, 2, 3], vec![1, -2, 3], vec![1, 2, -3]]);
    assert_eq!(solve_clauses(both, 3), SolverState::UNSAT);
}

#[test]
fn every_three_variable_assignment_excluded_is_unsat() {
    let mut cnf = Vec::new();
    for m in 0..8 {
        let c: Vec<i32> = (0..3).map(|b| if m & (1 << b) != 0 { -(b + 1) } else { b + 1 }).collect();
        cnf.push(c);
    }
    assert_eq!(solve_clauses(cnf.clone(), 3), SolverState::UNSAT);
    cnf.pop();
    assert_eq!(solve_clauses(cnf, 3), SolverState::SAT);
}

#[test]
fn parser_reads_clauses_and_counts() {
    let mut parser = Parser::new("c comment\np cnf 3 2\n1 -2 0\n-3 2 0\n");
    assert_eq!(parser.parse(), Ok(vec![vec![1, -2], vec![-3, 2]]));
    assert_eq!(parser.nbvars, 3);
    assert_eq!(parser.nbclauses, 2);
}

#[test]
fn parser_handles_crlf_and_blank_lines() {
    let mut parser = Parser::new("p cnf 2 1\r\n\r\n 1  2 0\r\n");
    assert_eq!(parser.parse(), Ok(vec![vec![1, 2]]));
    assert_eq!(parser.nbvars, 2);
}

#[test]
fn parser_stops_clause_at_zero_and_skips_other_lines() {
    let mut parser = Parser::new("p cnf 3 1\n1 2 0 3\n%\n0\n");
    assert_eq!(parser.parse(), Ok(vec![vec![1, 2]]));
}

#[test]
fn parser_accepts_tab_separated_literals() {
    let mut parser = Parser::new("p\tcnf\t2\t1\n-1\t2 0\n");
    assert_eq!(parser.parse(), Ok(vec![vec![-1, 2]]));
    assert_eq!(parser.nbvars, 2);
    let mut parser = Parser::new("p cnf 2 1\n-1\u{3000}2 0\n");
    assert_eq!(parser.parse(), Ok(vec![vec![-1, 2]]));
}

#[test]
fn parser_rejects_comment_after_problem_line() {
    let mut parser = Parser::new("p cnf 1 1\nc late\n1 0\n");
    assert_eq!(parser.parse(), Err("Unexpected comment after clause"));
}

#[test]
fn parser_rejects_second_problem_line() {
    let mut parser = Parser::new("p cnf 1 1\np cnf 1 1\n");
    assert_eq!(parser.parse(), Err("Invalid problem usage"));
}

#[test]
fn parser_rejects_clause_before_problem_line() {
    let mut parser = Parser::new("1 0\np cnf 1 1\n");
    assert_eq!(parser.parse(), Err("Invalid clause usage"));
}

#[test]
fn parser_rejects_malformed_problem_lines() {
    for text in ["p dnf 1 1\n", "p cnf x 1\n", "p cnf 1 -1\n", "p cnf 1\n", "p\n", "px cnf 1 1\n"] {
        let mut parser = Parser::new(text);
        assert_eq!(parser.parse(), Err("Invalid problem format"), "{text:?}");
    }
}

#[test]
fn parser_keeps_variable_count_read_before_malformed_clause_count() {
    let mut parser = Parser::new("p cnf 7 z\n");
    assert_eq!(parser.parse(), Err("Invalid problem format"));
    assert_eq!(parser.nbvars, 7);
    assert_eq!(parser.nbclauses, 0);
}

#[test]
fn parser_rejects_non_numeric_literal() {
    let mut parser = Parser::new("p cnf 2 1\n1 a 0\n");
    assert_eq!(parser.parse(), Err("Invalid literal"));
    let mut parser = Parser::new("p cnf 2 1\n1 2147483648 0\n");
    assert_eq!(parser.parse(), Err("Invalid literal"));
}

#[test]
fn parsing_the_printed_form_gives_the_clauses_back() {
    let cnf = vec![vec![1, -2, 3], vec![-1], vec![2, 3, -3, 1]];
    let mut text = String::from("p cnf 3 3\n");
    for c in &cnf {
        for l in c {
            text.push_str(&format!("{l} "));
        }
        text.push_str("0\n");
    }
    let mut parser = Parser::new(&text);
    let parsed = parser.parse().unwrap();
    assert_eq!(parsed, cnf);
    let mut again = String::from("p cnf 3 3\n");
    for c in &parsed {
        for l in c {
            again.push_str(&format!("{l} "));
        }
        again.push_str("0\n");
    }
    assert_eq!(again, text);
}

#[test]
fn integer_words_follow_rust_integer_syntax() {
    assert_eq!(parse_i32(&chars("42")), Some(42));
    assert_eq!(parse_i32(&chars("-17")), Some(-17));
    assert_eq!(parse_i32(&chars("+5")), Some(5));
    assert_eq!(parse_i32(&chars("007")), Some(7));
    assert_eq!(parse_i32(&chars("2147483647")), Some(i32::MAX));
    assert_eq!(parse_i32(&chars("-2147483648")), Some(i32::MIN));
    assert_eq!(parse_i32(&chars("2147483648")), None);
    assert_eq!(parse_i32(&chars("-")), None);
    assert_eq!(parse_i32(&chars("")), None);
    assert_eq!(parse_i32(&chars("1x")), None);
    assert_eq!(parse_usize(&chars("18446744073709551615")), Some(usize::MAX));
    assert_eq!(parse_usize(&chars("18446744073709551616")), None);
    assert_eq!(parse_usize(&chars("-0")), None);
    assert_eq!(parse_usize(&chars("+12")), Some(12));
}

#[test]
fn range_check_matches_the_solver_requirement() {
    assert!(formula_in_range(&vec![vec![1, -2], vec![2]], 2));
    assert!(!formula_in_range(&vec![vec![1, -3]], 2));
    assert!(!formula_in_range(&vec![vec![0]], 2));
    assert!(!formula_in_range(&vec![vec![i32::MIN]], 2));
    assert!(formula_in_range(&vec![], 0));
}

#[test]
fn node_starts_unassigned_and_negates() {
    let node = Node::new(4);
    assert_eq!(node.literal, 4);
    assert_eq!(node.value, LiteralState::UNKNOWN);
    assert_eq!(node.level, 0);
    assert!(node.parents.is_empty());
    assert_eq!(node.negative_value(), LiteralState::UNKNOWN);
    let t = Node { literal: 1, value: LiteralState::TRUE, level: 0, parents: vec![] };
    assert_eq!(t.negative_value(), LiteralState::FALSE);
    let f = Node { literal: 1, value: LiteralState::FALSE, level: 0, parents: vec![] };
    assert_eq!(f.negative_value(), LiteralState::TRUE);
}
