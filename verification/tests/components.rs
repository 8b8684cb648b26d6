//! Smaller pieces: variables, configuration, statistics, rendering.

use cdcl_sat::dimacs::dec_bytes;
use cdcl_sat::literal::Literal;
use cdcl_sat::solve::{SolveConfig, SolveStats, SolveStatus};
use cdcl_sat::stored_clause::{ClauseSource, StoredClause, Watch};
use cdcl_sat::valuation::ValuationVec;
use cdcl_sat::variable::Variable;

#[test]
fn literal_negation_flips_polarity() {
    let l = Literal::new(3, true);
    assert_eq!(l.negate(), Literal { v_id: 3, polarity: false });
    assert_eq!(l.negate().negate(), l);
}

#[test]
fn variable_activity_bumps_and_decays() {
    let mut v = Variable::new("7", 6);
    assert_eq!(v.id(), 6);
    assert_eq!(v.name(), "7");
    v.increase_activity(5);
    assert_eq!(v.activity(), 5);
    v.divide_activity(2);
    assert_eq!(v.activity(), 2);
    v.increase_activity(u64::MAX);
    assert_eq!(v.activity(), u64::MAX);
    v.set_decision_level(4);
    assert_eq!(v.decision_level(), Some(4));
    v.clear_decision_level();
    assert_eq!(v.decision_level(), None);
}

#[test]
fn variable_occurrences_are_recorded_per_polarity() {
    let mut v = Variable::new("1", 0);
    v.note_occurence(10, ClauseSource::Formula, true);
    v.note_occurence(11, ClauseSource::Resolution, false);
    assert_eq!(v.occurrences(), vec![10, 11]);
}

#[test]
fn stored_clause_accessors() {
    let lits = vec![
        Literal { v_id: 0, polarity: true },
        Literal { v_id: 1, polarity: false },
    ];
    let mut c = StoredClause::new_from(7, lits, ClauseSource::Formula, vec![7]);
    assert_eq!(c.id(), 7);
    assert!(matches!(c.source(), ClauseSource::Formula));
    assert_eq!(c.length(), 2);
    assert_eq!(c.literal_at(1), Literal { v_id: 1, polarity: false });
    assert_eq!(c.get_watch(Watch::A), 0);
    assert_eq!(c.get_watch(Watch::B), 1);
    assert_eq!(c.watched_a(), Literal { v_id: 0, polarity: true });
    assert_eq!(c.watched_b(), Literal { v_id: 1, polarity: false });
    c.set_lbd(3);
    assert_eq!(c.lbd(), 3);
    assert_eq!(c.clause_clone(), c.clause().clone());
}

#[test]
fn valuation_round_trip() {
    let mut val = ValuationVec::new_for_variables(3);
    assert_eq!(val.len(), 3);
    assert!(!val.is_complete());
    val.set_v_id(0, true);
    val.set_v_id(1, false);
    val.set_v_id(2, true);
    assert!(val.is_complete());
    assert_eq!(val.as_model(), vec![true, false, true]);
    val.clear_v_id(1);
    assert_eq!(val.of_v_id(1), None);
}

#[test]
fn default_configuration_and_fresh_stats() {
    let c = SolveConfig::default();
    assert!(!c.core);
    assert!(c.budget > 0);
    let st = SolveStats::new();
    assert_eq!((st.iterations, st.conflicts, st.forgets), (0, 0, 0));
    let status = SolveStatus::new();
    assert!(status.choice_conflicts.is_empty());
    assert!(status.implications.is_empty());
    assert!(status.choices.is_empty());
    assert!(status.unsat.is_empty());
}

#[test]
fn decimal_rendering() {
    assert_eq!(dec_bytes(0), b"0".to_vec());
    assert_eq!(dec_bytes(7), b"7".to_vec());
    assert_eq!(dec_bytes(90210), b"90210".to_vec());
}
