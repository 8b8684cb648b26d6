//! End-to-end behavior of the solver on DIMACS inputs.

use cdcl_sat::dimacs::{exit_code, result_line_bytes, ParseError};
use cdcl_sat::formula::Formula;
use cdcl_sat::solve::{Solve, SolveConfig, SolveResult};

fn solve_text(text: &str) -> (SolveResult, Solve) {
    let f = Formula::from_dimacs(text.as_bytes()).expect("parse");
    let mut s = Solve::from_formula(f, SolveConfig::default());
    s.settle_hobson_choices();
    let (r, _stats) = s.implication_solve().expect("solve");
    (r, s)
}

fn model_of(s: &Solve) -> Vec<bool> {
    s.valuation.as_model()
}

fn model_satisfies_input(s: &Solve) -> bool {
    let model = model_of(s);
    s.formula.clauses.iter().all(|c| {
        c.literals
            .iter()
            .any(|l| l.v_id < model.len() && model[l.v_id] == l.polarity)
    })
}

#[test]
fn empty_formula_is_satisfiable_with_empty_model() {
    let (r, s) = solve_text("p cnf 0 0\n");
    assert!(matches!(r, SolveResult::Satisfiable));
    assert_eq!(model_of(&s).len(), 0);
}

#[test]
fn empty_clause_is_rejected_at_parse() {
    let r = Formula::from_dimacs(b"p cnf 1 1\n0\n");
    assert!(matches!(r, Err(ParseError::EmptyClause)));
}

#[test]
fn single_unit_clause_assigns_true() {
    let (r, s) = solve_text("p cnf 1 1\n1 0\n");
    assert!(matches!(r, SolveResult::Satisfiable));
    assert_eq!(model_of(&s), vec![true]);
}

#[test]
fn contradictory_units_are_unsatisfiable() {
    let (r, _s) = solve_text("p cnf 1 2\n1 0\n-1 0\n");
    assert!(matches!(r, SolveResult::Unsatisfiable));
}

#[test]
fn one_variable_one_clause_full_output() {
    let (r, s) = solve_text("p cnf 1 1\n1 0\n");
    assert!(matches!(r, SolveResult::Satisfiable));
    assert_eq!(exit_code(r), 10);
    assert_eq!(result_line_bytes(r), b"s SATISFIABLE\n".to_vec());
    assert_eq!(s.model_line_bytes(), b"c ASSIGNMENT: 1\n".to_vec());
}

#[test]
fn contradictory_units_core_lists_both_clauses() {
    let (r, s) = solve_text("p cnf 1 2\n1 0\n-1 0\n");
    assert!(matches!(r, SolveResult::Unsatisfiable));
    assert_eq!(exit_code(r), 0);
    assert_eq!(result_line_bytes(r), b"s UNSATISFIABLE\n".to_vec());
    let core = String::from_utf8(s.core_lines_bytes()).unwrap();
    let lines: Vec<&str> = core.lines().collect();
    assert!(lines.contains(&"1 0"));
    assert!(lines.contains(&"-1 0"));
}

#[test]
fn forced_variable_is_true_in_every_model() {
    let (r, s) = solve_text("p cnf 3 2\n1 2 0\n-1 2 0\n");
    assert!(matches!(r, SolveResult::Satisfiable));
    assert_eq!(exit_code(r), 10);
    let model = model_of(&s);
    assert!(model[1], "variable 2 must be true");
    assert!(model_satisfies_input(&s));
}

#[test]
fn pigeonhole_three_pigeons_two_holes_is_unsatisfiable() {
    // pigeon i sits in some hole; no two pigeons share a hole
    let text = "p cnf 6 9\n\
                1 2 0\n3 4 0\n5 6 0\n\
                -1 -3 0\n-1 -5 0\n-3 -5 0\n\
                -2 -4 0\n-2 -6 0\n-4 -6 0\n";
    let (r, _s) = solve_text(text);
    assert!(matches!(r, SolveResult::Unsatisfiable));
    assert_eq!(exit_code(r), 0);
}

#[test]
fn three_clause_mixed_formula_is_satisfiable() {
    let (r, s) = solve_text("p cnf 3 3\n1 2 0\n-1 3 0\n-2 -3 0\n");
    assert!(matches!(r, SolveResult::Satisfiable));
    assert_eq!(exit_code(r), 10);
    assert!(model_satisfies_input(&s));
}

#[test]
fn four_clause_formula_is_satisfiable() {
    let (r, s) = solve_text("p cnf 4 4\n1 2 0\n3 4 0\n-1 -3 0\n-2 -4 0\n");
    assert!(matches!(r, SolveResult::Satisfiable));
    assert_eq!(exit_code(r), 10);
    assert!(model_satisfies_input(&s));
}

#[test]
fn solving_twice_produces_identical_output() {
    let text = "p cnf 4 4\n1 2 0\n3 4 0\n-1 -3 0\n-2 -4 0\n";
    let (r1, s1) = solve_text(text);
    let (r2, s2) = solve_text(text);
    assert_eq!(result_line_bytes(r1), result_line_bytes(r2));
    assert_eq!(s1.model_line_bytes(), s2.model_line_bytes());
    let unsat = "p cnf 1 2\n1 0\n-1 0\n";
    let (u1, c1) = solve_text(unsat);
    let (u2, c2) = solve_text(unsat);
    assert_eq!(result_line_bytes(u1), result_line_bytes(u2));
    assert_eq!(c1.core_lines_bytes(), c2.core_lines_bytes());
}

#[test]
fn permuting_clauses_and_literals_preserves_the_verdict() {
    let (r1, _) = solve_text("p cnf 3 2\n1 2 0\n-1 2 0\n");
    let (r2, _) = solve_text("p cnf 3 2\n2 -1 0\n2 1 0\n");
    assert!(matches!(r1, SolveResult::Satisfiable));
    assert!(matches!(r2, SolveResult::Satisfiable));
    let (u1, _) = solve_text("p cnf 2 4\n1 2 0\n1 -2 0\n-1 2 0\n-1 -2 0\n");
    let (u2, _) = solve_text("p cnf 2 4\n-2 -1 0\n2 -1 0\n-2 1 0\n2 1 0\n");
    assert!(matches!(u1, SolveResult::Unsatisfiable));
    assert!(matches!(u2, SolveResult::Unsatisfiable));
}

#[test]
fn zero_budget_gives_unknown() {
    let f = Formula::from_dimacs(b"p cnf 1 1\n1 0\n").unwrap();
    let mut config = SolveConfig::default();
    config.budget = 0;
    let mut s = Solve::from_formula(f, config);
    let (r, stats) = s.implication_solve().expect("solve");
    assert!(matches!(r, SolveResult::Unknown));
    assert_eq!(exit_code(r), 20);
    assert_eq!(result_line_bytes(r), b"s Unknown\n".to_vec());
    assert_eq!(stats.iterations, 0);
}

#[test]
fn reduction_policy_fires_and_keeps_the_answer() {
    let text = "p cnf 6 9\n\
                1 2 0\n3 4 0\n5 6 0\n\
                -1 -3 0\n-1 -5 0\n-3 -5 0\n\
                -2 -4 0\n-2 -6 0\n-4 -6 0\n";
    let f = Formula::from_dimacs(text.as_bytes()).unwrap();
    let mut config = SolveConfig::default();
    config.forget_interval = 1;
    config.min_glue_strength = 0;
    let mut s = Solve::from_formula(f, config);
    s.settle_hobson_choices();
    let (r, _stats) = s.implication_solve().expect("solve");
    assert!(matches!(r, SolveResult::Unsatisfiable));
}

#[test]
fn pure_literals_are_settled_at_level_zero() {
    let f = Formula::from_dimacs(b"p cnf 2 2\n1 2 0\n1 -2 0\n").unwrap();
    let mut s = Solve::from_formula(f, SolveConfig::default());
    s.settle_hobson_choices();
    // variable 1 occurs only positively: it is assigned true immediately
    assert_eq!(s.valuation.of_v_id(0), Some(true));
    let (r, _stats) = s.implication_solve().expect("solve");
    assert!(matches!(r, SolveResult::Satisfiable));
}

#[test]
fn larger_satisfiable_chain_formula() {
    // an implication chain 1 -> 2 -> ... -> 8 with the head forced
    let text = "p cnf 8 8\n1 0\n-1 2 0\n-2 3 0\n-3 4 0\n-4 5 0\n-5 6 0\n-6 7 0\n-7 8 0\n";
    let (r, s) = solve_text(text);
    assert!(matches!(r, SolveResult::Satisfiable));
    assert_eq!(model_of(&s), vec![true; 8]);
}
