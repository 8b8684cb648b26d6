//! Per-variable metadata: decision level, activity for the branching
//! heuristic, occurrence lists, and the two watch lists (one per polarity)
//! of clause handles watching a literal of this variable.

use vstd::prelude::*;

use crate::clause::ClauseId;
use crate::literal::VariableId;
use crate::stored_clause::{ClauseKey, ClauseSource};

verus! {

/// Index of a decision level: a contiguous segment of the trail.
pub type LevelIndex = usize;

#[derive(Debug)]
pub struct Variable {
    pub name: String,
    pub decision_level: Option<LevelIndex>,
    pub id: VariableId,
    pub positive_occurrences: Vec<ClauseId>,
    pub negative_occurrences: Vec<ClauseId>,
    /// Activity score for the branching heuristic, bumped on conflict
    /// participation and periodically decayed.
    pub activity: u64,
    /// Handles of clauses watching the positive literal of this variable.
    pub positive_watches: Vec<ClauseKey>,
    /// Handles of clauses watching the negative literal of this variable.
    pub negative_watches: Vec<ClauseKey>,
}

impl Variable {
    pub fn new(name: &str, id: VariableId) -> (v: Variable)
        ensures
            v.name@ == name@,
            v.decision_level is None,
            v.id == id,
            v.positive_occurrences@.len() == 0,
            v.negative_occurrences@.len() == 0,
            v.activity == 0,
            v.positive_watches@.len() == 0,
            v.negative_watches@.len() == 0,
    {
        Variable {
            name: name.to_owned(),
            decision_level: None,
            id,
            positive_occurrences: Vec::new(),
            negative_occurrences: Vec::new(),
            activity: 0,
            positive_watches: Vec::new(),
            negative_watches: Vec::new(),
        }
    }

    pub fn name(&self) -> (r: &str)
        ensures
            r@ == self.name@,
    {
        self.name.as_str()
    }

    pub fn decision_level(&self) -> (r: Option<LevelIndex>)
        ensures
            r == self.decision_level,
    {
        self.decision_level
    }

    pub fn clear_decision_level(&mut self)
        ensures
            *final(self) == (Variable { decision_level: None, ..*old(self) }),
    {
        self.decision_level = None;
    }

    pub fn set_decision_level(&mut self, level: LevelIndex)
        ensures
            *final(self) == (Variable { decision_level: Some(level), ..*old(self) }),
    {
        self.decision_level = Some(level);
    }

    pub fn id(&self) -> (r: VariableId)
        ensures
            r == self.id,
    {
        self.id
    }

    /// Bump the activity, saturating at the top of the range.
    pub fn increase_activity(&mut self, by: u64)
        ensures
            *final(self) == (Variable {
                activity: if old(self).activity + by <= u64::MAX {
                    (old(self).activity + by) as u64
                } else {
                    u64::MAX
                },
                ..*old(self)
            }),
    {
        if self.activity <= u64::MAX - by {
            self.activity = self.activity + by;
        } else {
            self.activity = u64::MAX;
        }
    }

    pub fn divide_activity(&mut self, by: u64)
        requires
            by >= 1,
        ensures
            *final(self) == (Variable { activity: old(self).activity / by, ..*old(self) }),
    {
        self.activity = self.activity / by;
    }

    pub fn activity(&self) -> (r: u64)
        ensures
            r == self.activity,
    {
        self.activity
    }

    /// Record that clause `clause_id` holds this variable with the given
    /// polarity; a clause learned by resolution also bumps the activity.
    pub fn note_occurence(&mut self, clause_id: ClauseId, source: ClauseSource, polarity: bool)
        ensures
            final(self).activity == if source is Resolution {
                if old(self).activity + 1 <= u64::MAX {
                    (old(self).activity + 1) as u64
                } else {
                    u64::MAX
                }
            } else {
                old(self).activity
            },
            final(self).decision_level == old(self).decision_level,
            final(self).id == old(self).id,
            final(self).name == old(self).name,
            final(self).positive_watches == old(self).positive_watches,
            final(self).negative_watches == old(self).negative_watches,
            polarity ==> final(self).positive_occurrences@ == old(
                self,
            ).positive_occurrences@.push(clause_id) && final(self).negative_occurrences == old(
                self,
            ).negative_occurrences,
            !polarity ==> final(self).negative_occurrences@ == old(
                self,
            ).negative_occurrences@.push(clause_id) && final(self).positive_occurrences == old(
                self,
            ).positive_occurrences,
    {
        if matches!(source, ClauseSource::Resolution) {
            self.increase_activity(1);
        }
        if polarity {
            self.positive_occurrences.push(clause_id);
        } else {
            self.negative_occurrences.push(clause_id);
        }
    }

    /// Register a clause handle as watching this variable's literal of the
    /// given polarity.
    pub fn watch_added(&mut self, key: ClauseKey, polarity: bool)
        ensures
            polarity ==> final(self).positive_watches@ == old(self).positive_watches@.push(key)
                && final(self).negative_watches == old(self).negative_watches,
            !polarity ==> final(self).negative_watches@ == old(self).negative_watches@.push(key)
                && final(self).positive_watches == old(self).positive_watches,
            final(self).name == old(self).name,
            final(self).decision_level == old(self).decision_level,
            final(self).id == old(self).id,
            final(self).positive_occurrences == old(self).positive_occurrences,
            final(self).negative_occurrences == old(self).negative_occurrences,
            final(self).activity == old(self).activity,
    {
        if polarity {
            self.positive_watches.push(key);
        } else {
            self.negative_watches.push(key);
        }
    }

    /// The clauses in which this variable occurs, positive occurrences first.
    pub fn occurrences(&self) -> (r: Vec<ClauseId>)
        ensures
            r@ == self.positive_occurrences@ + self.negative_occurrences@,
    {
        let mut r: Vec<ClauseId> = Vec::new();
        let mut i: usize = 0;
        let pn = self.positive_occurrences.len();
        while i < pn
            invariant
                i <= pn,
                pn == self.positive_occurrences@.len(),
                r@ == self.positive_occurrences@.subrange(0, i as int),
            decreases pn - i,
        {
            r.push(self.positive_occurrences[i]);
            proof {
                assert(r@ =~= self.positive_occurrences@.subrange(0, i + 1));
            }
            i = i + 1;
        }
        let mut j: usize = 0;
        let nn = self.negative_occurrences.len();
        while j < nn
            invariant
                j <= nn,
                nn == self.negative_occurrences@.len(),
                r@ == self.positive_occurrences@ + self.negative_occurrences@.subrange(0, j as int),
            decreases nn - j,
        {
            r.push(self.negative_occurrences[j]);
            proof {
                assert(r@ =~= self.positive_occurrences@ + self.negative_occurrences@.subrange(
                    0,
                    j + 1,
                ));
            }
            j = j + 1;
        }
        proof {
            assert(self.positive_occurrences@.subrange(0, pn as int) =~= self.positive_occurrences@);
            assert(self.negative_occurrences@.subrange(0, nn as int) =~= self.negative_occurrences@);
        }
        r
    }
}

} // verus!
