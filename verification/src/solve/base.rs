//! The solver's state and its well-formedness invariant.  Every mutating
//! operation of the solver preserves `Solve::wf`; the soundness theorems in
//! this crate are proved from it.

use vstd::prelude::*;

use crate::clause::{clause_wf, ClauseId};
use crate::formula::Formula;
use crate::learnt_store::{store_map, store_slots, LearntStore};
use crate::literal::{Literal, VariableId};
use crate::semantics::{entails_on, pure_lit};
use crate::solve::config::SolveConfig;
use crate::stored_clause::{ClauseKey, ClauseSource, StoredClause};
use crate::valuation::{lit_true, ValuationVec};
use crate::variable::{LevelIndex, Variable};

use slotmap::DefaultKey;

verus! {

/// Why a literal stands on the trail.
#[derive(Clone, Copy, Debug)]
pub enum LiteralSource {
    /// A branching decision: the first entry of its decision level.
    Choice,
    /// Forced by the named clause, all of whose other literals were false.
    StoredClause(ClauseKey),
    /// A top-level unit: the named input clause holds only this literal.
    Deduced(usize),
    /// A pure literal: its variable occurs with one polarity only.
    HobsonChoice,
}

/// One assignment on the trail.
#[derive(Clone, Copy, Debug)]
pub struct TrailEntry {
    pub lit: Literal,
    pub source: LiteralSource,
    pub level: LevelIndex,
}

#[derive(Debug, PartialEq, Eq, Structural)]
pub enum SolveOk {
    /// A conflict was analyzed; the learned clause was installed and the
    /// solver backjumped to the carried level.
    AssertingClause(LevelIndex),
    Deduction(Literal),
    Backtracked,
}

#[derive(Debug, PartialEq, Eq, Structural)]
pub enum SolveError {
    OutOfBounds,
    UnsatClause(ClauseId),
    Conflict(ClauseId, Literal),
    /// A conflict at decision level zero: the formula is unsatisfiable.
    NoSolution,
    /// An internal invariant did not hold; the solve is abandoned.
    Hek,
}

/// A summary of what an examination of the clauses under a valuation found.
pub struct SolveStatus {
    pub choice_conflicts: Vec<(ClauseId, Literal)>,
    pub implications: Vec<(ClauseId, Literal)>,
    pub choices: Vec<Literal>,
    pub unsat: Vec<ClauseId>,
}

impl SolveStatus {
    pub fn new() -> (s: SolveStatus)
        ensures
            s.choice_conflicts@.len() == 0,
            s.implications@.len() == 0,
            s.choices@.len() == 0,
            s.unsat@.len() == 0,
    {
        SolveStatus {
            choice_conflicts: Vec::new(),
            implications: Vec::new(),
            choices: Vec::new(),
            unsat: Vec::new(),
        }
    }
}

/// The solver.
pub struct Solve {
    pub config: SolveConfig,
    /// The ingested input, never mutated: the reference of every contract.
    pub formula: Formula,
    pub variables: Vec<Variable>,
    pub valuation: ValuationVec,
    pub trail: Vec<TrailEntry>,
    /// Start index on the trail of each decision level; entry 0 is 0.
    pub levels: Vec<usize>,
    /// Trail entries before this index have been propagated.
    pub qhead: usize,
    pub formula_clauses: Vec<StoredClause>,
    pub learnt_clauses: LearntStore,
    pub next_learnt_id: ClauseId,
    pub iterations: usize,
    pub conflicts: usize,
    pub conflicts_since_last_forget: usize,
    pub forgets: usize,
    /// After an unsatisfiable answer: indices of input clauses whose
    /// conjunction is unsatisfiable.
    pub unsat_core: Vec<usize>,
}

impl Solve {
    /// The number of variables.
    pub open spec fn n(&self) -> nat {
        self.formula.n_vars as nat
    }

    /// The input formula's clauses.
    pub open spec fn fml(&self) -> Seq<Seq<Literal>> {
        self.formula.fml()
    }

    /// The learned clauses by key.
    pub open spec fn lm(&self) -> Map<DefaultKey, StoredClause> {
        store_map(self.learnt_clauses)
    }

    /// The current decision level.
    pub open spec fn current_level(&self) -> int {
        self.levels@.len() - 1
    }

    /// A key designates a live stored clause.
    pub open spec fn key_valid(&self, k: ClauseKey) -> bool {
        match k {
            ClauseKey::Formula(j) => j < self.formula_clauses@.len(),
            ClauseKey::Learnt(dk) => self.lm().dom().contains(dk),
        }
    }

    pub open spec fn key_clause(&self, k: ClauseKey) -> StoredClause {
        match k {
            ClauseKey::Formula(j) => self.formula_clauses@[j as int],
            ClauseKey::Learnt(dk) => self.lm()[dk],
        }
    }

    pub open spec fn key_lits(&self, k: ClauseKey) -> Seq<Literal> {
        self.key_clause(k).lits@
    }

    /// The input clauses a stored clause is entailed by.
    pub open spec fn key_origins(&self, k: ClauseKey) -> Seq<usize> {
        match k {
            ClauseKey::Formula(j) => seq![j],
            ClauseKey::Learnt(dk) => self.lm()[dk].origins@,
        }
    }

    pub open spec fn wf_dims(&self) -> bool {
        &&& self.valuation@.len() == self.n()
        &&& self.variables@.len() == self.n()
        &&& self.qhead <= self.trail@.len()
        &&& self.formula.wf()
        &&& self.formula_clauses@.len() <= self.fml().len()
    }

    /// Every stored formula clause mirrors its input clause.
    pub open spec fn wf_formula_store(&self) -> bool {
        forall|j: int|
            0 <= j < self.formula_clauses@.len() ==> {
                &&& (#[trigger] self.formula_clauses@[j]).lits@ == self.fml()[j]
                &&& self.formula_clauses@[j].watches_wf()
                &&& self.formula_clauses@[j].source == ClauseSource::Formula
            }
    }

    /// Every learned clause is well formed and entailed by the input clauses
    /// its origin indices select; identifiers are unique and below the
    /// counter; the store's slot table is bounded by the counter.
    pub open spec fn wf_learnt(&self) -> bool {
        &&& self.lm().dom().finite()
        &&& forall|dk: DefaultKey|
            self.lm().dom().contains(dk) ==> {
                &&& (#[trigger] self.lm()[dk]).wf(self.n())
                &&& self.lm()[dk].source == ClauseSource::Resolution
                &&& entails_on(self.fml(), self.n(), self.lm()[dk].origins@, self.lm()[dk].lits@)
                &&& forall|oi: int|
                    0 <= oi < self.lm()[dk].origins@.len() ==> #[trigger] self.lm()[dk].origins@[oi]
                        < self.fml().len()
                &&& self.lm()[dk].id < self.next_learnt_id
            }
        &&& forall|dk1: DefaultKey, dk2: DefaultKey|
            self.lm().dom().contains(dk1) && self.lm().dom().contains(dk2) && dk1 != dk2
                ==> (#[trigger] self.lm()[dk1]).id != (#[trigger] self.lm()[dk2]).id
        &&& store_slots(self.learnt_clauses) <= 1 + self.next_learnt_id
    }

    /// Some trail entry assigns variable `v`.
    pub open spec fn var_on_trail(&self, v: int) -> bool {
        exists|i: int| 0 <= i < self.trail@.len() && (#[trigger] self.trail@[i]).lit.v_id == v
    }

    /// The trail and the valuation record the same assignment, each variable
    /// at most once, and per-variable decision levels match the trail.
    pub open spec fn wf_trail(&self) -> bool {
        &&& forall|i: int|
            0 <= i < self.trail@.len() ==> (#[trigger] self.trail@[i]).lit.v_id < self.n()
        &&& forall|i: int|
            0 <= i < self.trail@.len() ==> lit_true(self.valuation@, (#[trigger] self.trail@[i]).lit)
        &&& forall|i: int, j: int|
            0 <= i < j < self.trail@.len() ==> (#[trigger] self.trail@[i]).lit.v_id != (
            #[trigger] self.trail@[j]).lit.v_id
        &&& forall|v: int|
            0 <= v < self.n() && self.valuation@[v] is Some ==> #[trigger] self.var_on_trail(v)
        &&& forall|i: int|
            0 <= i < self.trail@.len() ==> self.variables@[(#[trigger] self.trail@[i]).lit.v_id as int].decision_level
                == Some(self.trail@[i].level)
        &&& forall|v: int|
            0 <= v < self.n() ==> ((#[trigger] self.variables@[v]).decision_level is Some
                <==> self.valuation@[v] is Some)
    }

    /// The decision-level structure of the trail: level starts are monotone,
    /// each entry lies inside its level's segment, each level above zero
    /// starts with a decision, and entries not yet propagated sit at the
    /// current level.
    pub open spec fn wf_levels(&self) -> bool {
        &&& self.levels@.len() >= 1
        &&& self.levels@[0] == 0
        &&& forall|l: int| 0 <= l < self.levels@.len() ==> #[trigger] self.levels@[l] <= self.trail@.len()
        &&& forall|l1: int, l2: int|
            0 <= l1 <= l2 < self.levels@.len() ==> #[trigger] self.levels@[l1]
                <= #[trigger] self.levels@[l2]
        &&& forall|i: int|
            0 <= i < self.trail@.len() ==> (#[trigger] self.trail@[i]).level < self.levels@.len()
        &&& forall|i: int|
            0 <= i < self.trail@.len() ==> self.levels@[(#[trigger] self.trail@[i]).level as int] <= i
        &&& forall|i: int, l: int|
            0 <= i < self.trail@.len() && (#[trigger] self.trail@[i]).level < l
                < self.levels@.len() ==> i < #[trigger] self.levels@[l]
        &&& forall|l: int|
            1 <= l < self.levels@.len() ==> #[trigger] self.levels@[l] < self.trail@.len()
                && self.trail@[self.levels@[l] as int].level == l
                && self.trail@[self.levels@[l] as int].source is Choice
        &&& forall|i: int|
            0 <= i < self.trail@.len() && (#[trigger] self.trail@[i]).source is Choice ==> self.trail@[i].level
                >= 1 && self.levels@[self.trail@[i].level as int] == i
        &&& forall|i: int|
            self.qhead <= i < self.trail@.len() ==> (#[trigger] self.trail@[i]).level
                == self.current_level()
    }

    /// Why entry `i` may stand on the trail.
    pub open spec fn entry_just(&self, i: int) -> bool {
        match self.trail@[i].source {
            LiteralSource::Choice => true,
            LiteralSource::Deduced(j) => {
                &&& j < self.formula_clauses@.len()
                &&& self.trail@[i].level == 0
                &&& self.fml()[j as int].len() == 1
                &&& self.fml()[j as int][0] == self.trail@[i].lit
            },
            LiteralSource::HobsonChoice => {
                &&& self.trail@[i].level == 0
                &&& pure_lit(self.fml(), self.trail@[i].lit)
            },
            LiteralSource::StoredClause(k) => {
                &&& self.key_valid(k)
                &&& exists|x: int|
                    0 <= x < self.key_lits(k).len() && #[trigger] self.key_lits(k)[x]
                        == self.trail@[i].lit
                &&& forall|x: int|
                    0 <= x < self.key_lits(k).len() && #[trigger] self.key_lits(k)[x]
                        != self.trail@[i].lit ==> exists|j: int|
                        0 <= j < i && (#[trigger] self.trail@[j]).lit == self.key_lits(
                            k,
                        )[x].spec_negate()
            },
        }
    }

    pub open spec fn wf_sources(&self) -> bool {
        forall|i: int| 0 <= i < self.trail@.len() ==> #[trigger] self.entry_just(i)
    }

    /// A handle found on a watch list can be indexed safely: formula handles
    /// are in range (formula clauses are never dropped); a learned handle may
    /// be stale and is checked against the store on use.
    pub open spec fn key_in_frange(&self, k: ClauseKey) -> bool {
        match k {
            ClauseKey::Formula(j) => j < self.formula_clauses@.len(),
            ClauseKey::Learnt(_) => true,
        }
    }

    pub open spec fn wf_watch_lists(&self) -> bool {
        &&& forall|v: int| 0 <= v < self.n() ==> (#[trigger] self.variables@[v]).id == v
        &&& forall|v: int, x: int|
            0 <= v < self.n() && 0 <= x < self.variables@[v].positive_watches@.len()
                ==> self.key_in_frange(#[trigger] self.variables@[v].positive_watches@[x])
        &&& forall|v: int, x: int|
            0 <= v < self.n() && 0 <= x < self.variables@[v].negative_watches@.len()
                ==> self.key_in_frange(#[trigger] self.variables@[v].negative_watches@[x])
    }

    /// The solver's invariant.
    pub open spec fn wf(&self) -> bool {
        &&& self.wf_dims()
        &&& self.wf_formula_store()
        &&& self.wf_learnt()
        &&& self.wf_trail()
        &&& self.wf_levels()
        &&& self.wf_sources()
        &&& self.wf_watch_lists()
    }

    /// Every input clause has been stored: true from `from_formula` on.
    pub open spec fn ingested(&self) -> bool {
        self.formula_clauses@.len() == self.fml().len()
    }

    /// Every stored clause is structurally well formed.
    pub proof fn lemma_key_lits_wf(&self, k: ClauseKey)
        requires
            self.wf(),
            self.key_valid(k),
        ensures
            clause_wf(self.key_lits(k), self.n()),
            self.key_clause(k).watches_wf(),
    {
        match k {
            ClauseKey::Formula(j) => {
                assert(self.formula_clauses@[j as int].lits@ == self.fml()[j as int]);
                assert(clause_wf(self.fml()[j as int], self.n()));
            },
            ClauseKey::Learnt(dk) => {
                assert(self.lm()[dk].wf(self.n()));
            },
        }
    }

    /// `wf_trail` carries over to a state with the same trail, valuation and
    /// decision levels.
    pub proof fn lemma_wf_trail_transfer(pre: Solve, post: Solve)
        requires
            pre.wf_trail(),
            pre.valuation@.len() == pre.n(),
            pre.variables@.len() == pre.n(),
            post.trail@ == pre.trail@,
            post.valuation@ == pre.valuation@,
            post.n() == pre.n(),
            post.variables@.len() == pre.variables@.len(),
            forall|v: int|
                0 <= v < pre.variables@.len() ==> (#[trigger] post.variables@[v]).decision_level
                    == pre.variables@[v].decision_level,
        ensures
            post.wf_trail(),
    {
        assert forall|v: int|
            0 <= v < post.n() && post.valuation@[v] is Some implies #[trigger] post.var_on_trail(
            v,
        ) by {
            assert(pre.var_on_trail(v));
            let i = choose|i: int|
                0 <= i < pre.trail@.len() && (#[trigger] pre.trail@[i]).lit.v_id == v;
            assert(post.trail@[i].lit.v_id == v);
        }
        assert forall|i: int| 0 <= i < post.trail@.len() implies
            post.variables@[(#[trigger] post.trail@[i]).lit.v_id as int].decision_level == Some(
            post.trail@[i].level,
        ) by {
            assert(pre.variables@[pre.trail@[i].lit.v_id as int].decision_level == Some(
                pre.trail@[i].level,
            ));
        }
    }

    /// `wf_levels` carries over to a state with the same trail, levels and
    /// propagation head.
    pub proof fn lemma_wf_levels_transfer(pre: Solve, post: Solve)
        requires
            pre.wf_levels(),
            post.trail@ == pre.trail@,
            post.levels@ == pre.levels@,
            post.qhead == pre.qhead,
        ensures
            post.wf_levels(),
    {
    }

    /// The invariant does not depend on the counters or the recorded core.
    pub proof fn lemma_wf_counters(pre: Solve, post: Solve)
        requires
            pre.wf(),
            post.config == pre.config,
            post.formula == pre.formula,
            post.variables == pre.variables,
            post.valuation == pre.valuation,
            post.trail == pre.trail,
            post.levels == pre.levels,
            post.qhead == pre.qhead,
            post.formula_clauses == pre.formula_clauses,
            post.lm() == pre.lm(),
            store_slots(post.learnt_clauses) == store_slots(pre.learnt_clauses),
            post.next_learnt_id == pre.next_learnt_id,
        ensures
            post.wf(),
    {
        assert(post.wf_dims());
        assert(post.wf_formula_store());
        assert(post.wf_learnt());
        Self::lemma_wf_trail_transfer(pre, post);
        Self::lemma_wf_levels_transfer(pre, post);
        assert(post.wf_sources()) by {
            assert forall|i: int| 0 <= i < post.trail@.len() implies #[trigger] post.entry_just(
                i,
            ) by {
                assert(pre.entry_just(i));
                match pre.trail@[i].source {
                    LiteralSource::StoredClause(k) => {
                        assert(pre.key_valid(k));
                        assert(post.key_lits(k) == pre.key_lits(k));
                    },
                    _ => {},
                }
            }
        }
        assert(post.wf_watch_lists());
    }

    pub fn var_by_id(&self, id: VariableId) -> (r: Option<&Variable>)
        ensures
            match r {
                Some(v) => id < self.variables@.len() && *v == self.variables@[id as int],
                None => id >= self.variables@.len(),
            },
    {
        if id < self.variables.len() {
            Some(&self.variables[id])
        } else {
            None
        }
    }

    /// The decision literal that opened level `index`.
    pub fn level_choice(&self, index: LevelIndex) -> (r: Literal)
        requires
            self.wf(),
            1 <= index < self.levels@.len(),
        ensures
            r == self.trail@[self.levels@[index as int] as int].lit,
    {
        let start = self.levels[index];
        self.trail[start].lit
    }
}

} // verus!
