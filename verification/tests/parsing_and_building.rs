//! The DIMACS reader and the formula builder.

use cdcl_sat::clause::{Clause, ClauseError};
use cdcl_sat::dimacs::ParseError;
use cdcl_sat::formula::{AddOutcome, Formula};
use cdcl_sat::literal::Literal;
use cdcl_sat::valuation::ValuationVec;

#[test]
fn missing_header_is_rejected() {
    assert!(matches!(Formula::from_dimacs(b""), Err(ParseError::MissingHeader)));
    assert!(matches!(Formula::from_dimacs(b"1 0\n"), Err(ParseError::MissingHeader)));
}

#[test]
fn bad_header_is_rejected() {
    assert!(matches!(Formula::from_dimacs(b"p dnf 1 1\n1 0\n"), Err(ParseError::BadHeader)));
    assert!(matches!(Formula::from_dimacs(b"p cnf x 1\n1 0\n"), Err(ParseError::BadHeader)));
}

#[test]
fn unterminated_clause_is_rejected() {
    assert!(matches!(
        Formula::from_dimacs(b"p cnf 2 1\n1 2\n"),
        Err(ParseError::UnterminatedClause)
    ));
}

#[test]
fn out_of_range_variable_is_rejected() {
    assert!(matches!(Formula::from_dimacs(b"p cnf 1 1\n2 0\n"), Err(ParseError::OutOfRange)));
}

#[test]
fn comments_and_layout_are_tolerated() {
    let f = Formula::from_dimacs(b"c a comment\np cnf 2 1\nc another\n1\n 2 0\n").unwrap();
    assert_eq!(f.clause_count(), 1);
    assert_eq!(f.n_vars(), 2);
}

#[test]
fn repeated_literals_are_deduplicated() {
    let mut f = Formula::new(2);
    let lits = vec![
        Literal { v_id: 0, polarity: true },
        Literal { v_id: 0, polarity: true },
        Literal { v_id: 1, polarity: false },
    ];
    assert!(matches!(f.add_clause(&lits), Ok(AddOutcome::Added)));
    assert_eq!(f.clauses[0].literals.len(), 2);
}

#[test]
fn tautologies_are_skipped() {
    let mut f = Formula::new(1);
    let lits = vec![
        Literal { v_id: 0, polarity: true },
        Literal { v_id: 0, polarity: false },
    ];
    assert!(matches!(f.add_clause(&lits), Ok(AddOutcome::Trivial)));
    assert_eq!(f.clause_count(), 0);
}

#[test]
fn empty_and_out_of_range_clauses_are_errors() {
    let mut f = Formula::new(1);
    assert!(matches!(f.add_clause(&Vec::new()), Err(ClauseError::Empty)));
    let lits = vec![Literal { v_id: 1, polarity: true }];
    assert!(matches!(f.add_clause(&lits), Err(ClauseError::OutOfRange)));
}

#[test]
fn clause_queries_follow_the_valuation() {
    let mut c = Clause::new(0);
    c.add_literal(Literal { v_id: 0, polarity: true }).unwrap();
    c.add_literal(Literal { v_id: 1, polarity: false }).unwrap();
    let mut val = ValuationVec::new_for_variables(2);
    assert!(!c.is_sat_on(&val));
    assert!(!c.is_unsat_on(&val));
    assert_eq!(c.find_unit_literal(&val), None);
    val.set_v_id(0, false);
    // one literal false, the other unassigned: the clause forces it
    assert_eq!(c.find_unit_literal(&val), Some(Literal { v_id: 1, polarity: false }));
    val.set_v_id(1, true);
    assert!(c.is_unsat_on(&val));
    val.set_v_id(1, false);
    assert!(c.is_sat_on(&val));
}
