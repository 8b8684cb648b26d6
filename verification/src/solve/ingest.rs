//! Building a solver from an ingested formula: storing each clause with its
//! initial watches, setting top-level units, and the pure-literal ("Hobson
//! choice") preprocessing pass.

use vstd::prelude::*;

use crate::formula::Formula;
use crate::semantics::pure_lit;
use crate::learnt_store::{learnt_store_new, store_slots};
use crate::literal::{Literal, VariableId};
use crate::solve::base::{LiteralSource, Solve};
use crate::solve::config::SolveConfig;
use crate::stored_clause::{ClauseKey, ClauseSource, StoredClause};
use crate::valuation::{lit_false, lit_true, lit_unassigned, ValuationVec};
use crate::variable::Variable;

verus! {

/// Eligibility for a watch: the position avoids the excluded variable.
pub open spec fn watch_eligible(lits: Seq<Literal>, but_not: Option<VariableId>, y: int) -> bool {
    match but_not {
        Some(v) => lits[y].v_id != v,
        None => true,
    }
}

/// The decision level a watch preference compares by: the variable's level,
/// or zero while it is unassigned.
pub open spec fn var_level_or_zero(vars: Seq<Variable>, v: int) -> nat {
    match vars[v].decision_level {
        Some(l) => l as nat,
        None => 0,
    }
}

/// An index of `lits`, avoiding the variable `but_not` when asked, preferring
/// first a literal true under `val`, then an unassigned one, then a false one
/// whose variable sits at the highest decision level (so the watch survives
/// later backjumps).
pub fn some_preferred_index(
    lits: &Vec<Literal>,
    val: &ValuationVec,
    vars: &Vec<Variable>,
    but_not: Option<VariableId>,
) -> (r: usize)
    requires
        lits@.len() >= 1,
        forall|i: int| 0 <= i < lits@.len() ==> (#[trigger] lits@[i]).v_id < val@.len(),
        forall|i: int| 0 <= i < lits@.len() ==> (#[trigger] lits@[i]).v_id < vars@.len(),
        match but_not {
            Some(v) => exists|i: int| 0 <= i < lits@.len() && (#[trigger] lits@[i]).v_id != v,
            None => true,
        },
    ensures
        r < lits@.len(),
        watch_eligible(lits@, but_not, r as int),
        (exists|y: int|
            0 <= y < lits@.len() && watch_eligible(lits@, but_not, y) && lit_true(
                val@,
                #[trigger] lits@[y],
            )) ==> lit_true(val@, lits@[r as int]),
        (!exists|y: int|
            0 <= y < lits@.len() && watch_eligible(lits@, but_not, y) && lit_true(
                val@,
                #[trigger] lits@[y],
            )) && (exists|y: int|
            0 <= y < lits@.len() && watch_eligible(lits@, but_not, y) && lit_unassigned(
                val@,
                #[trigger] lits@[y],
            )) ==> lit_unassigned(val@, lits@[r as int]),
        (forall|y: int|
            0 <= y < lits@.len() && watch_eligible(lits@, but_not, y) ==> lit_false(
                val@,
                #[trigger] lits@[y],
            )) ==> forall|y: int|
            0 <= y < lits@.len() && watch_eligible(lits@, but_not, y) ==> var_level_or_zero(
                vars@,
                (#[trigger] lits@[y]).v_id as int,
            ) <= var_level_or_zero(vars@, lits@[r as int].v_id as int),
{
    let n = lits.len();
    // first pass: a true literal
    let mut i: usize = 0;
    while i < n
        invariant
            i <= n,
            n == lits@.len(),
            forall|x: int| 0 <= x < lits@.len() ==> (#[trigger] lits@[x]).v_id < val@.len(),
            forall|y: int|
                0 <= y < i && watch_eligible(lits@, but_not, y) ==> !lit_true(
                    val@,
                    #[trigger] lits@[y],
                ),
        decreases n - i,
    {
        let l = lits[i];
        let skip = match but_not {
            Some(v) => l.v_id == v,
            None => false,
        };
        if !skip {
            if let Some(p) = val.of_v_id(l.v_id) {
                if p == l.polarity {
                    proof {
                        assert(lit_true(val@, lits@[i as int]));
                    }
                    return i;
                }
            }
        }
        i = i + 1;
    }
    // second pass: an unassigned literal
    let mut i: usize = 0;
    while i < n
        invariant
            i <= n,
            n == lits@.len(),
            forall|x: int| 0 <= x < lits@.len() ==> (#[trigger] lits@[x]).v_id < val@.len(),
            forall|y: int|
                0 <= y < n && watch_eligible(lits@, but_not, y) ==> !lit_true(
                    val@,
                    #[trigger] lits@[y],
                ),
            forall|y: int|
                0 <= y < i && watch_eligible(lits@, but_not, y) ==> !lit_unassigned(
                    val@,
                    #[trigger] lits@[y],
                ),
        decreases n - i,
    {
        let l = lits[i];
        let skip = match but_not {
            Some(v) => l.v_id == v,
            None => false,
        };
        if !skip {
            if val.of_v_id(l.v_id).is_none() {
                proof {
                    assert(lit_unassigned(val@, lits@[i as int]));
                }
                return i;
            }
        }
        i = i + 1;
    }
    // third pass: a false literal at the highest decision level
    proof {
        assert forall|y: int|
            0 <= y < lits@.len() && watch_eligible(lits@, but_not, y) implies lit_false(
            val@,
            #[trigger] lits@[y],
        ) by {
            let l = lits@[y];
            assert(l.v_id < val@.len());
            assert(!lit_true(val@, l));
            assert(!lit_unassigned(val@, l));
            assert(val@[l.v_id as int] is Some);
            assert(val@[l.v_id as int] != Some(l.polarity));
            let bv = val@[l.v_id as int]->0;
            assert(val@[l.v_id as int] == Some(bv));
            assert(bv == !l.polarity);
            assert(lit_false(val@, l));
        }
    }
    let mut best: Option<usize> = None;
    let mut best_level: usize = 0;
    let mut i: usize = 0;
    while i < n
        invariant
            i <= n,
            n == lits@.len(),
            forall|x: int| 0 <= x < lits@.len() ==> (#[trigger] lits@[x]).v_id < vars@.len(),
            match best {
                Some(b) => b < lits@.len() && watch_eligible(lits@, but_not, b as int)
                    && best_level == var_level_or_zero(vars@, lits@[b as int].v_id as int) && forall|
                    y: int,
                |
                    0 <= y < i && watch_eligible(lits@, but_not, y) ==> var_level_or_zero(
                        vars@,
                        (#[trigger] lits@[y]).v_id as int,
                    ) <= best_level,
                None => forall|y: int|
                    0 <= y < i ==> !watch_eligible(lits@, but_not, y),
            },
        decreases n - i,
    {
        let l = lits[i];
        let skip = match but_not {
            Some(v) => l.v_id == v,
            None => false,
        };
        if !skip {
            let lvl = match vars[l.v_id].decision_level {
                Some(lv) => lv,
                None => 0,
            };
            proof {
                assert(lvl == var_level_or_zero(vars@, lits@[i as int].v_id as int));
            }
            match best {
                Some(_) => {
                    if lvl > best_level {
                        best = Some(i);
                        best_level = lvl;
                    }
                },
                None => {
                    best = Some(i);
                    best_level = lvl;
                },
            }
        }
        i = i + 1;
    }
    match best {
        Some(b) => b,
        None => {
            // some index avoids the excluded variable, so the third pass
            // found one
            proof {
                match but_not {
                    Some(v) => {
                        let x = choose|x: int|
                            0 <= x < lits@.len() && (#[trigger] lits@[x]).v_id != v;
                        assert(watch_eligible(lits@, but_not, x));
                        assert(false);
                    },
                    None => {
                        assert(watch_eligible(lits@, but_not, 0));
                        assert(false);
                    },
                }
            }
            0
        },
    }
}

/// How a state relates to `pre` after appending one formula clause.
pub open spec fn store_push_shape(pre: Solve, post: Solve, clause: StoredClause) -> bool {
    &&& pre.formula_clauses@.len() < pre.fml().len()
    &&& clause.lits@ == pre.fml()[pre.formula_clauses@.len() as int]
    &&& clause.watches_wf()
    &&& clause.source == ClauseSource::Formula
    &&& post.formula_clauses@ == pre.formula_clauses@.push(clause)
    &&& post.formula == pre.formula
    &&& post.variables == pre.variables
    &&& post.valuation == pre.valuation
    &&& post.trail == pre.trail
    &&& post.levels == pre.levels
    &&& post.qhead == pre.qhead
    &&& post.lm() == pre.lm()
    &&& store_slots(post.learnt_clauses) == store_slots(pre.learnt_clauses)
    &&& post.next_learnt_id == pre.next_learnt_id
}

proof fn lemma_sf_formula_store(pre: Solve, post: Solve, clause: StoredClause)
    requires
        pre.wf_formula_store(),
        store_push_shape(pre, post, clause),
    ensures
        post.wf_formula_store(),
{
    let j = pre.formula_clauses@.len() as int;
    assert forall|j2: int| 0 <= j2 < post.formula_clauses@.len() implies {
        &&& (#[trigger] post.formula_clauses@[j2]).lits@ == post.fml()[j2]
        &&& post.formula_clauses@[j2].watches_wf()
        &&& post.formula_clauses@[j2].source == ClauseSource::Formula
    } by {
        if j2 < j {
            assert(post.formula_clauses@[j2] == pre.formula_clauses@[j2]);
        } else {
            assert(post.formula_clauses@[j2] == clause);
        }
    }
}

proof fn lemma_sf_sources(pre: Solve, post: Solve, clause: StoredClause)
    requires
        pre.wf_sources(),
        store_push_shape(pre, post, clause),
    ensures
        post.wf_sources(),
{
    assert forall|i: int|
        0 <= i < pre.trail@.len() implies match (#[trigger] pre.trail@[i]).source {
        LiteralSource::StoredClause(k2) => post.key_valid(k2) && post.key_lits(k2) == pre.key_lits(
            k2,
        ),
        _ => true,
    } by {
        assert(pre.entry_just(i));
        match pre.trail@[i].source {
            LiteralSource::StoredClause(k2) => {
                assert(pre.key_valid(k2));
                match k2 {
                    ClauseKey::Formula(j2) => {
                        assert(post.formula_clauses@[j2 as int] == pre.formula_clauses@[j2 as int]);
                    },
                    ClauseKey::Learnt(_) => {},
                }
            },
            _ => {},
        }
    }
    crate::solve::watching::lemma_sources_preserved(pre, post);
}

proof fn lemma_sf_watch_lists(pre: Solve, post: Solve, clause: StoredClause)
    requires
        pre.wf_watch_lists(),
        pre.wf_dims(),
        store_push_shape(pre, post, clause),
    ensures
        post.wf_watch_lists(),
{
    assert forall|u: int, x: int|
        0 <= u < post.n() && 0 <= x
            < post.variables@[u].positive_watches@.len() implies post.key_in_frange(
        #[trigger] post.variables@[u].positive_watches@[x],
    ) by {
        assert(pre.key_in_frange(pre.variables@[u].positive_watches@[x]));
    }
    assert forall|u: int, x: int|
        0 <= u < post.n() && 0 <= x
            < post.variables@[u].negative_watches@.len() implies post.key_in_frange(
        #[trigger] post.variables@[u].negative_watches@[x],
    ) by {
        assert(pre.key_in_frange(pre.variables@[u].negative_watches@[x]));
    }
}

/// Appending a well-formed formula clause to the store keeps the invariant.
proof fn lemma_store_formula_wf(pre: Solve, post: Solve, clause: StoredClause)
    requires
        pre.wf(),
        store_push_shape(pre, post, clause),
    ensures
        post.wf(),
{
    assert(post.wf_dims());
    lemma_sf_formula_store(pre, post, clause);
    assert(post.wf_learnt());
    Solve::lemma_wf_trail_transfer(pre, post);
    Solve::lemma_wf_levels_transfer(pre, post);
    lemma_sf_sources(pre, post, clause);
    lemma_sf_watch_lists(pre, post, clause);
}

impl Solve {
    /// Store input clause `j` with fresh watches against the current
    /// valuation, registering both watches.
    fn store_formula_clause(&mut self, j: usize)
        requires
            old(self).wf(),
            old(self).formula_clauses@.len() == j,
            j < old(self).fml().len(),
        ensures
            final(self).wf(),
            final(self).formula_clauses@.len() == j + 1,
            final(self).formula == old(self).formula,
            final(self).config == old(self).config,
            final(self).trail == old(self).trail,
            final(self).valuation == old(self).valuation,
            final(self).levels == old(self).levels,
            final(self).qhead == old(self).qhead,
            final(self).lm() == old(self).lm(),
            store_slots(final(self).learnt_clauses) == store_slots(old(self).learnt_clauses),
            final(self).next_learnt_id == old(self).next_learnt_id,
            final(self).iterations == old(self).iterations,
            final(self).conflicts == old(self).conflicts,
            final(self).conflicts_since_last_forget == old(self).conflicts_since_last_forget,
            final(self).forgets == old(self).forgets,
            final(self).variables@.len() == old(self).variables@.len(),
            final(self).key_lits(ClauseKey::Formula(j)) == final(self).fml()[j as int],
            ({
                // the fresh watches follow the preference: a satisfied clause
                // watches a true literal, and a clause with two unassigned
                // literals watches two of them
                let c = final(self).key_clause(ClauseKey::Formula(j));
                let val = old(self).valuation@;
                c.lits@.len() >= 2 ==> {
                    &&& (exists|x: int| 0 <= x < c.lits@.len() && lit_true(val, #[trigger] c.lits@[x]))
                        ==> lit_true(val, c.lits@[c.watch_a as int])
                    &&& (!(exists|x: int|
                        0 <= x < c.lits@.len() && lit_true(val, #[trigger] c.lits@[x])) && (exists|
                        x: int,
                        y: int,
                    |
                        0 <= x < y < c.lits@.len() && lit_unassigned(val, #[trigger] c.lits@[x])
                            && lit_unassigned(val, #[trigger] c.lits@[y]))) ==> lit_unassigned(
                        val,
                        c.lits@[c.watch_a as int],
                    ) && lit_unassigned(val, c.lits@[c.watch_b as int])
                }
            }),
    {
        let ghost pre = *self;
        let lits = {
            let c = &self.formula.clauses[j];
            c.literals.clone()
        };
        proof {
            assert forall|i: int| 0 <= i < lits@.len() implies lits@[i]
                == self.fml()[j as int][i] by {
                assert(cloned::<Literal>(self.formula.clauses@[j as int].literals@[i], lits@[i]));
            }
            assert(lits@ =~= self.fml()[j as int]);
            assert(crate::clause::clause_wf(self.fml()[j as int], self.n()));
        }
        let len = lits.len();
        let (wa, wb) = if len >= 2 {
            let wa = some_preferred_index(&lits, &self.valuation, &self.variables, None);
            proof {
                let other = if wa == 0 {
                    1
                } else {
                    0
                };
                assert(lits@[other].v_id != lits@[wa as int].v_id);
            }
            let wb = some_preferred_index(
                &lits,
                &self.valuation,
                &self.variables,
                Some(lits[wa].v_id),
            );
            proof {
                let val = self.valuation@;
                if exists|x: int| 0 <= x < lits@.len() && lit_true(val, #[trigger] lits@[x]) {
                    assert(lit_true(val, lits@[wa as int]));
                } else if exists|x: int, y: int|
                    0 <= x < y < lits@.len() && lit_unassigned(val, #[trigger] lits@[x])
                        && lit_unassigned(val, #[trigger] lits@[y]) {
                    // no true literal anywhere, two unassigned: both watch
                    // passes land on unassigned literals
                    let (x, y) = choose|x: int, y: int|
                        0 <= x < y < lits@.len() && lit_unassigned(val, #[trigger] lits@[x])
                            && lit_unassigned(val, #[trigger] lits@[y]);
                    assert(lit_unassigned(val, lits@[wa as int]));
                    // one of the two unassigned literals avoids watch A's
                    // variable
                    assert(lits@[x].v_id != lits@[y].v_id);
                    let zb: int = if lits@[x].v_id != lits@[wa as int].v_id {
                        x
                    } else {
                        y
                    };
                    assert(watch_eligible(lits@, Some(lits@[wa as int].v_id), zb));
                    assert(!(exists|z: int|
                        0 <= z < lits@.len() && watch_eligible(
                            lits@,
                            Some(lits@[wa as int].v_id),
                            z,
                        ) && lit_true(val, #[trigger] lits@[z])));
                    assert(exists|z: int|
                        0 <= z < lits@.len() && watch_eligible(
                            lits@,
                            Some(lits@[wa as int].v_id),
                            z,
                        ) && lit_unassigned(val, #[trigger] lits@[z]));
                    assert(lit_unassigned(val, lits@[wb as int]));
                }
            }
            (wa, wb)
        } else {
            (0, 0)
        };
        proof {
            if len >= 2 {
                assert(lits@[wa as int].v_id != lits@[wb as int].v_id ==> wa != wb);
            }
        }
        let clause = StoredClause {
            id: j,
            source: ClauseSource::Formula,
            lits,
            watch_a: wa,
            watch_b: wb,
            lbd: 0,
            origins: vec_of_one(j),
        };
        let la = clause.lits[wa];
        let lb = clause.lits[wb];
        self.formula_clauses.push(clause);
        proof {
            assert(self.formula_clauses@ =~= pre.formula_clauses@.push(clause));
            lemma_store_formula_wf(pre, *self, clause);
        }
        // register the watches (for a unit clause both point at its literal)
        self.register_watch(la.v_id, la.polarity, ClauseKey::Formula(j));
        if len >= 2 {
            self.register_watch(lb.v_id, lb.polarity, ClauseKey::Formula(j));
        }
    }

    /// If input clause `j` is a unit, its variable carries a value.
    pub open spec fn unit_settled(&self, j: int) -> bool {
        self.fml()[j].len() == 1 ==> self.valuation@[self.fml()[j][0].v_id as int] is Some
    }

    /// Variable `v` carries the polarity of some unit input clause.
    pub open spec fn assigned_by_unit(&self, v: int) -> bool {
        unit_supported(self.fml(), self.valuation@, v)
    }

    /// Build a solver from an ingested formula: store every clause, set the
    /// top-level units, and leave everything ready for propagation from the
    /// start of the trail.
    pub fn from_formula(formula: Formula, config: SolveConfig) -> (s: Solve)
        requires
            formula.wf(),
        ensures
            s.wf(),
            s.ingested(),
            s.formula == formula,
            s.config == config,
            s.levels@.len() == 1,
            s.qhead == 0,
            s.lm().dom() =~= Set::empty(),
            s.iterations == 0,
            s.conflicts == 0,
            s.conflicts_since_last_forget == 0,
            s.forgets == 0,
            s.next_learnt_id == 0,
            forall|j: int| 0 <= j < s.fml().len() ==> #[trigger] s.unit_settled(j),
            forall|v: int|
                0 <= v < s.n() && #[trigger] s.valuation@[v] is Some ==> s.assigned_by_unit(v),
    {
        let n = formula.n_vars;
        let mut variables: Vec<Variable> = Vec::new();
        let mut v: usize = 0;
        while v < n
            invariant
                v <= n,
                variables@.len() == v,
                forall|u: int|
                    0 <= u < v ==> {
                        &&& (#[trigger] variables@[u]).id == u
                        &&& variables@[u].decision_level is None
                        &&& variables@[u].positive_watches@.len() == 0
                        &&& variables@[u].negative_watches@.len() == 0
                    },
            decreases n - v,
        {
            variables.push(Variable::new("", v));
            v = v + 1;
        }
        let mut levels: Vec<usize> = Vec::new();
        levels.push(0);
        let mut s = Solve {
            config,
            formula,
            variables,
            valuation: ValuationVec::new_for_variables(n),
            trail: Vec::new(),
            levels,
            qhead: 0,
            formula_clauses: Vec::new(),
            learnt_clauses: learnt_store_new(),
            next_learnt_id: 0,
            iterations: 0,
            conflicts: 0,
            conflicts_since_last_forget: 0,
            forgets: 0,
            unsat_core: Vec::new(),
        };
        proof {
            assert(s.lm().dom() =~= Set::empty());
            assert(s.wf_dims());
            assert(s.wf_formula_store());
            assert(s.wf_learnt());
            assert(s.wf_trail());
            assert(s.wf_levels());
            assert(s.wf_sources());
            assert(s.wf_watch_lists());
        }
        let count = s.formula.clauses.len();
        let mut j: usize = 0;
        while j < count
            invariant
                s.wf(),
                count == s.fml().len(),
                s.formula_clauses@.len() == j,
                j <= count,
                s.formula == formula,
                s.config == config,
                s.levels@.len() == 1,
                s.qhead == 0,
                s.lm().dom() =~= Set::empty(),
                s.iterations == 0,
                s.conflicts == 0,
                s.conflicts_since_last_forget == 0,
                s.forgets == 0,
                s.next_learnt_id == 0,
                forall|j2: int| 0 <= j2 < j ==> #[trigger] s.unit_settled(j2),
                forall|v: int|
                    0 <= v < s.n() && #[trigger] s.valuation@[v] is Some ==> unit_supported(
                        formula.fml(),
                        s.valuation@,
                        v,
                    ),
            decreases count - j,
        {
            let ghost iter_pre = s;
            s.store_formula_clause(j);
            let len = {
                let c = &s.formula_clauses[j];
                c.lits.len()
            };
            let ghost mid = s;
            proof {
                assert(mid.valuation@ == iter_pre.valuation@);
            }
            if len == 1 {
                let lit = {
                    let c = &s.formula_clauses[j];
                    c.lits[0]
                };
                proof {
                    assert(s.key_lits(ClauseKey::Formula(j))[0] == lit);
                    assert(s.fml()[j as int][0] == lit);
                    assert(lit.v_id < s.n());
                }
                if s.valuation.of_v_id(lit.v_id).is_none() {
                    s.set_literal(lit, LiteralSource::Deduced(j));
                }
            }
            proof {
                // the valuation only gained values, so settled units stay
                // settled, and clause j itself is now settled if it is a unit
                assert forall|j2: int| 0 <= j2 < j + 1 implies #[trigger] s.unit_settled(j2) by {
                    if j2 < j {
                        assert(iter_pre.unit_settled(j2));
                        if s.fml()[j2].len() == 1 {
                            assert(iter_pre.valuation@[s.fml()[j2][0].v_id as int] is Some);
                        }
                    } else {
                        if s.fml()[j2].len() == 1 {
                            assert(s.valuation@[s.fml()[j2][0].v_id as int] is Some);
                        }
                    }
                }
                // each assigned variable still carries a unit clause's
                // polarity: either it did before, or this very clause was
                // the unit just set
                assert forall|v: int|
                    0 <= v < s.n() && #[trigger] s.valuation@[v] is Some implies unit_supported(
                    formula.fml(),
                    s.valuation@,
                    v,
                ) by {
                    if iter_pre.valuation@[v] is Some {
                        assert(unit_supported(formula.fml(), iter_pre.valuation@, v));
                        assert(s.valuation@[v] == iter_pre.valuation@[v]);
                        lemma_unit_supported_keep(
                            formula.fml(),
                            iter_pre.valuation@,
                            s.valuation@,
                            v,
                        );
                    } else {
                        // the only new assignment is this clause's unit
                        assert(s.fml()[j as int].len() == 1);
                        assert(s.fml()[j as int][0].v_id == v);
                        assert(s.valuation@[v] == Some(s.fml()[j as int][0].polarity));
                        assert(formula.fml() == s.fml());
                        assert(0 <= j < formula.fml().len() && formula.fml()[j as int].len() == 1
                            && formula.fml()[j as int][0].v_id == v && s.valuation@[v] == Some(
                            formula.fml()[j as int][0].polarity,
                        ));
                    }
                }
            }
            j = j + 1;
        }
        s
    }

    /// Assign every pure literal at level zero: a variable occurring in only
    /// one polarity across the input clauses is set to that polarity.
    /// Exactly the unassigned pure variables change, each to its sole
    /// polarity; every other valuation entry is untouched.
    pub fn settle_hobson_choices(&mut self)
        requires
            old(self).wf(),
            old(self).current_level() == 0,
        ensures
            final(self).wf(),
            final(self).formula == old(self).formula,
            final(self).config == old(self).config,
            final(self).levels == old(self).levels,
            final(self).qhead == old(self).qhead,
            final(self).formula_clauses == old(self).formula_clauses,
            final(self).lm() == old(self).lm(),
            store_slots(final(self).learnt_clauses) == store_slots(old(self).learnt_clauses),
            final(self).next_learnt_id == old(self).next_learnt_id,
            final(self).ingested() == old(self).ingested(),
            final(self).iterations == old(self).iterations,
            final(self).conflicts == old(self).conflicts,
            final(self).conflicts_since_last_forget == old(self).conflicts_since_last_forget,
            final(self).forgets == old(self).forgets,
            forall|v: int|
                0 <= v < old(self).n() ==> #[trigger] final(self).valuation@[v] == (
                if old(self).valuation@[v] is None && crate::semantics::occurs_with(
                    old(self).fml(),
                    v,
                    true,
                ) && !crate::semantics::occurs_with(old(self).fml(), v, false) {
                    Some(true)
                } else if old(self).valuation@[v] is None && crate::semantics::occurs_with(
                    old(self).fml(),
                    v,
                    false,
                ) && !crate::semantics::occurs_with(old(self).fml(), v, true) {
                    Some(false)
                } else {
                    old(self).valuation@[v]
                }),
            final(self).trail@.len() >= old(self).trail@.len(),
            forall|j: int|
                0 <= j < old(self).trail@.len() ==> final(self).trail@[j] == old(self).trail@[j],
            forall|j: int|
                old(self).trail@.len() <= j < final(self).trail@.len() ==> (
                #[trigger] final(self).trail@[j]).source is HobsonChoice
                    && final(self).trail@[j].level == 0,
    {
        let n = self.formula.n_vars;
        let mut occurs_pos: Vec<bool> = vec_of_false(n);
        let mut occurs_neg: Vec<bool> = vec_of_false(n);
        let count = self.formula.clauses.len();
        let mut ci: usize = 0;
        while ci < count
            invariant
                ci <= count,
                count == self.fml().len(),
                occurs_pos@.len() == n,
                occurs_neg@.len() == n,
                n == self.n(),
                self.formula.wf(),
                forall|v: int|
                    0 <= v < n ==> (#[trigger] occurs_pos@[v] <==> crate::semantics::occurs_before(
                        self.fml(),
                        v,
                        true,
                        ci as int,
                        0,
                    )),
                forall|v: int|
                    0 <= v < n ==> (#[trigger] occurs_neg@[v] <==> crate::semantics::occurs_before(
                        self.fml(),
                        v,
                        false,
                        ci as int,
                        0,
                    )),
            decreases count - ci,
        {
            let clen = self.formula.clauses[ci].literals.len();
            let mut li: usize = 0;
            while li < clen
                invariant
                    li <= clen,
                    ci < count,
                    count == self.fml().len(),
                    clen == self.fml()[ci as int].len(),
                    occurs_pos@.len() == n,
                    occurs_neg@.len() == n,
                    n == self.n(),
                    self.formula.wf(),
                    forall|v: int|
                        0 <= v < n ==> (#[trigger] occurs_pos@[v]
                            <==> crate::semantics::occurs_before(
                            self.fml(),
                            v,
                            true,
                            ci as int,
                            li as int,
                        )),
                    forall|v: int|
                        0 <= v < n ==> (#[trigger] occurs_neg@[v]
                            <==> crate::semantics::occurs_before(
                            self.fml(),
                            v,
                            false,
                            ci as int,
                            li as int,
                        )),
                decreases clen - li,
            {
                let l = self.formula.clauses[ci].literals[li];
                proof {
                    assert(l == self.fml()[ci as int][li as int]);
                    assert(l.v_id < n);
                }
                let ghost pre_pos = occurs_pos@;
                let ghost pre_neg = occurs_neg@;
                if l.polarity {
                    occurs_pos.set(l.v_id, true);
                } else {
                    occurs_neg.set(l.v_id, true);
                }
                proof {
                    lemma_occurs_step(self.fml(), ci as int, li as int);
                    assert forall|v: int| 0 <= v < n implies (#[trigger] occurs_pos@[v]
                        <==> crate::semantics::occurs_before(
                        self.fml(),
                        v,
                        true,
                        ci as int,
                        li + 1,
                    )) by {
                        if v == l.v_id as int && l.polarity {
                            assert(self.fml()[ci as int][li as int] == (Literal {
                                v_id: v as usize,
                                polarity: true,
                            }));
                            assert(crate::semantics::occurs_before(
                                self.fml(),
                                v,
                                true,
                                ci as int,
                                li + 1,
                            ));
                        } else {
                            assert(occurs_pos@[v] == pre_pos[v]);
                        }
                    }
                    assert forall|v: int| 0 <= v < n implies (#[trigger] occurs_neg@[v]
                        <==> crate::semantics::occurs_before(
                        self.fml(),
                        v,
                        false,
                        ci as int,
                        li + 1,
                    )) by {
                        if v == l.v_id as int && !l.polarity {
                            assert(self.fml()[ci as int][li as int] == (Literal {
                                v_id: v as usize,
                                polarity: false,
                            }));
                            assert(crate::semantics::occurs_before(
                                self.fml(),
                                v,
                                false,
                                ci as int,
                                li + 1,
                            ));
                        } else {
                            assert(occurs_neg@[v] == pre_neg[v]);
                        }
                    }
                }
                li = li + 1;
            }
            proof {
                lemma_occurs_clause_step(self.fml(), ci as int);
            }
            ci = ci + 1;
        }
        proof {
            assert forall|v: int, p: bool| 0 <= v < n implies (crate::semantics::occurs_before(
                self.fml(),
                v,
                p,
                count as int,
                0,
            ) <==> crate::semantics::occurs_with(self.fml(), v, p)) by {}
        }
        // assign the pure variables
        let ghost pre = *self;
        let mut v: usize = 0;
        while v < n
            invariant
                v <= n,
                n == self.n(),
                self.wf(),
                self.current_level() == 0,
                occurs_pos@.len() == n,
                occurs_neg@.len() == n,
                forall|u: int|
                    0 <= u < n ==> (#[trigger] occurs_pos@[u] <==> crate::semantics::occurs_with(
                        pre.fml(),
                        u,
                        true,
                    )),
                forall|u: int|
                    0 <= u < n ==> (#[trigger] occurs_neg@[u] <==> crate::semantics::occurs_with(
                        pre.fml(),
                        u,
                        false,
                    )),
                self.formula == pre.formula,
                self.config == pre.config,
                self.levels == pre.levels,
                self.qhead == pre.qhead,
                self.formula_clauses == pre.formula_clauses,
                self.lm() == pre.lm(),
                store_slots(self.learnt_clauses) == store_slots(pre.learnt_clauses),
                self.next_learnt_id == pre.next_learnt_id,
                self.iterations == pre.iterations,
                self.conflicts == pre.conflicts,
                self.conflicts_since_last_forget == pre.conflicts_since_last_forget,
                self.forgets == pre.forgets,
                forall|u: int|
                    0 <= u < v ==> #[trigger] self.valuation@[u] == (
                    if pre.valuation@[u] is None && crate::semantics::occurs_with(pre.fml(), u, true)
                        && !crate::semantics::occurs_with(pre.fml(), u, false) {
                        Some(true)
                    } else if pre.valuation@[u] is None && crate::semantics::occurs_with(
                        pre.fml(),
                        u,
                        false,
                    ) && !crate::semantics::occurs_with(pre.fml(), u, true) {
                        Some(false)
                    } else {
                        pre.valuation@[u]
                    }),
                forall|u: int| v <= u < n ==> #[trigger] self.valuation@[u] == pre.valuation@[u],
                self.trail@.len() >= pre.trail@.len(),
                forall|j: int| 0 <= j < pre.trail@.len() ==> self.trail@[j] == pre.trail@[j],
                forall|j: int|
                    pre.trail@.len() <= j < self.trail@.len() ==> (
                    #[trigger] self.trail@[j]).source is HobsonChoice && self.trail@[j].level == 0,
            decreases n - v,
        {
            let ghost pre_it = *self;
            if self.valuation.of_v_id(v).is_none() {
                let has_pos = occurs_pos[v];
                let has_neg = occurs_neg[v];
                if has_pos && !has_neg {
                    let lit = Literal { v_id: v, polarity: true };
                    proof {
                        lemma_no_occurrence_pure(self.fml(), lit);
                    }
                    self.set_literal(lit, LiteralSource::HobsonChoice);
                } else if !has_pos && has_neg {
                    let lit = Literal { v_id: v, polarity: false };
                    proof {
                        lemma_no_occurrence_pure(self.fml(), lit);
                    }
                    self.set_literal(lit, LiteralSource::HobsonChoice);
                }
            }
            proof {
                assert forall|u: int| 0 <= u < v + 1 implies #[trigger] self.valuation@[u] == (
                if pre.valuation@[u] is None && crate::semantics::occurs_with(pre.fml(), u, true)
                    && !crate::semantics::occurs_with(pre.fml(), u, false) {
                    Some(true)
                } else if pre.valuation@[u] is None && crate::semantics::occurs_with(
                    pre.fml(),
                    u,
                    false,
                ) && !crate::semantics::occurs_with(pre.fml(), u, true) {
                    Some(false)
                } else {
                    pre.valuation@[u]
                }) by {
                    if u < v {
                        assert(self.valuation@[u] == pre_it.valuation@[u]);
                    }
                }
            }
            v = v + 1;
        }
    }
}

/// Extending the scanned prefix by one literal adds exactly that occurrence.
proof fn lemma_occurs_step(f: Seq<Seq<Literal>>, ci: int, li: int)
    requires
        0 <= ci < f.len(),
        0 <= li < f[ci].len(),
    ensures
        forall|v: int, p: bool|
            #![trigger crate::semantics::occurs_before(f, v, p, ci, li + 1)]
            crate::semantics::occurs_before(f, v, p, ci, li + 1)
                <==> (crate::semantics::occurs_before(f, v, p, ci, li) || f[ci][li] == (Literal {
                v_id: v as usize,
                polarity: p,
            })),
{
    assert forall|v: int, p: bool|
        #![trigger crate::semantics::occurs_before(f, v, p, ci, li + 1)]
        crate::semantics::occurs_before(f, v, p, ci, li + 1) implies (
    crate::semantics::occurs_before(f, v, p, ci, li) || f[ci][li] == (Literal {
        v_id: v as usize,
        polarity: p,
    })) by {
        let (c, l) = choose|c: int, l: int|
            #![auto]
            0 <= c < f.len() && 0 <= l < f[c].len() && (c < ci || (c == ci && l < li + 1))
                && f[c][l] == (Literal { v_id: v as usize, polarity: p });
        if !(c == ci && l == li) {
            assert(crate::semantics::occurs_before(f, v, p, ci, li));
        }
    }
}

/// Moving the prefix bound from the end of one clause to the start of the
/// next covers the same occurrences.
proof fn lemma_occurs_clause_step(f: Seq<Seq<Literal>>, ci: int)
    requires
        0 <= ci < f.len(),
    ensures
        forall|v: int, p: bool|
            #![auto]
            crate::semantics::occurs_before(f, v, p, ci, f[ci].len() as int)
                <==> crate::semantics::occurs_before(f, v, p, ci + 1, 0),
{
    assert forall|v: int, p: bool|
        #![auto]
        crate::semantics::occurs_before(f, v, p, ci, f[ci].len() as int) implies
        crate::semantics::occurs_before(f, v, p, ci + 1, 0) by {
        let (c, l) = choose|c: int, l: int|
            #![auto]
            0 <= c < f.len() && 0 <= l < f[c].len() && (c < ci || (c == ci && l < f[ci].len()))
                && f[c][l] == (Literal { v_id: v as usize, polarity: p });
        assert(c < ci + 1);
    }
    assert forall|v: int, p: bool|
        #![auto]
        crate::semantics::occurs_before(f, v, p, ci + 1, 0) implies
        crate::semantics::occurs_before(f, v, p, ci, f[ci].len() as int) by {
        let (c, l) = choose|c: int, l: int|
            #![auto]
            0 <= c < f.len() && 0 <= l < f[c].len() && c < ci + 1 && f[c][l] == (Literal {
                v_id: v as usize,
                polarity: p,
            });
        assert(c < ci || (c == ci && l < f[ci].len()));
    }
}

/// A variable whose opposite polarity occurs nowhere is pure.
proof fn lemma_no_occurrence_pure(f: Seq<Seq<Literal>>, l: Literal)
    requires
        !crate::semantics::occurs_with(f, l.v_id as int, !l.polarity),
    ensures
        pure_lit(f, l),
{
    assert forall|ci: int, li: int|
        0 <= ci < f.len() && 0 <= li < f[ci].len() && (#[trigger] f[ci][li]).v_id
            == l.v_id implies f[ci][li].polarity == l.polarity by {
        if f[ci][li].polarity != l.polarity {
            assert(f[ci][li] == (Literal { v_id: l.v_id, polarity: !l.polarity }));
            assert(crate::semantics::occurs_before(
                f,
                l.v_id as int,
                !l.polarity,
                f.len() as int,
                0,
            ));
        }
    }
}

/// Variable `v` carries the polarity of some unit clause of `f` under `val`.
pub open spec fn unit_supported(f: Seq<Seq<Literal>>, val: Seq<Option<bool>>, v: int) -> bool {
    exists|j: int|
        #![auto]
        0 <= j < f.len() && f[j].len() == 1 && f[j][0].v_id == v && val[v] == Some(
            f[j][0].polarity,
        )
}

/// A witness unit clause survives any valuation change that keeps the
/// variable's entry.
proof fn lemma_unit_supported_keep(
    f: Seq<Seq<Literal>>,
    val1: Seq<Option<bool>>,
    val2: Seq<Option<bool>>,
    v: int,
)
    requires
        unit_supported(f, val1, v),
        val2[v] == val1[v],
    ensures
        unit_supported(f, val2, v),
{
    let j = choose|j: int|
        #![auto]
        0 <= j < f.len() && f[j].len() == 1 && f[j][0].v_id == v && val1[v] == Some(
            f[j][0].polarity,
        );
    assert(0 <= j < f.len() && f[j].len() == 1 && f[j][0].v_id == v && val2[v] == Some(
        f[j][0].polarity,
    ));
}

/// A vector holding the one element `x`.
fn vec_of_one(x: usize) -> (r: Vec<usize>)
    ensures
        r@ =~= seq![x],
{
    let mut r: Vec<usize> = Vec::new();
    r.push(x);
    r
}

/// A vector of `n` `false` entries.
fn vec_of_false(n: usize) -> (r: Vec<bool>)
    ensures
        r@.len() == n,
        forall|v: int| 0 <= v < n ==> !(#[trigger] r@[v]),
{
    let mut r: Vec<bool> = Vec::new();
    let mut i: usize = 0;
    while i < n
        invariant
            i <= n,
            r@.len() == i,
            forall|v: int| 0 <= v < i ==> !(#[trigger] r@[v]),
        decreases n - i,
    {
        r.push(false);
        i = i + 1;
    }
    r
}

} // verus!
