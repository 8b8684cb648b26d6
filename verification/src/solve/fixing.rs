//! Responding to a conflict: analyze, bump activities, install the learned
//! clause with fresh watches, backjump, and enqueue the asserting literal.

use vstd::prelude::*;

use crate::clause::clause_wf;
use crate::learnt_store::{learnt_store_insert, store_slots};
use crate::literal::Literal;
use crate::semantics::entails_on;
use crate::solve::analysis::AnalysisResult;
use crate::solve::base::{LiteralSource, Solve, SolveError, SolveOk};
use crate::solve::mutation::var_in_prefix;
use crate::stored_clause::{ClauseKey, ClauseSource, StoredClause};
use crate::valuation::{lit_false, lit_true};
use crate::variable::{LevelIndex, Variable};

use slotmap::DefaultKey;

verus! {


/// After backjumping to level `b`, the literals of the learned clause other
/// than the asserting one are still false, and the asserting variable is
/// unassigned.
proof fn lemma_asserting_after_backjump(pre: Solve, post: Solve, lits: Seq<Literal>, x: int, b: int)
    requires
        pre.wf(),
        clause_wf(lits, pre.n()),
        forall|z: int| 0 <= z < lits.len() ==> lit_false(pre.valuation@, #[trigger] lits[z]),
        0 <= x < lits.len(),
        pre.lit_at_level(lits[x], pre.current_level()),
        forall|y: int|
            0 <= y < lits.len() && y != x
                ==> match pre.variables@[(#[trigger] lits[y]).v_id as int].decision_level {
                Some(l) => l <= b,
                None => false,
            },
        0 <= b,
        b + 1 < pre.levels@.len(),
        crate::solve::mutation::pop_shape(pre, post, pre.levels@[b + 1] as int),
    ensures
        forall|y: int|
            0 <= y < lits.len() && y != x ==> lit_false(post.valuation@, #[trigger] lits[y]),
        forall|y: int|
            0 <= y < lits.len() && y != x ==> post.variables@[(#[trigger] lits[y]).v_id as int]
                == pre.variables@[lits[y].v_id as int],
        post.valuation@[lits[x].v_id as int] is None,
{
    let keep = pre.levels@[b + 1] as int;
    assert forall|y: int| 0 <= y < lits.len() && y != x implies lit_false(
        post.valuation@,
        #[trigger] lits[y],
    ) && post.variables@[lits[y].v_id as int] == pre.variables@[lits[y].v_id as int] by {
        let l = lits[y];
        assert(lit_false(pre.valuation@, l));
        pre.lemma_false_lit_on_trail(l);
        let j = choose|j: int|
            0 <= j < pre.trail@.len() && (#[trigger] pre.trail@[j]).lit == l.spec_negate();
        assert(pre.variables@[l.v_id as int].decision_level == Some(pre.trail@[j].level));
        assert(pre.trail@[j].level <= b);
        assert(j < keep) by {
            assert(pre.trail@[j].level < b + 1 < pre.levels@.len());
        }
        assert(var_in_prefix(pre.trail@, keep, l.v_id as int));
        assert(post.valuation@[l.v_id as int] == pre.valuation@[l.v_id as int]);
    }
    let alit = lits[x];
    assert(lit_false(pre.valuation@, lits[x]));
    pre.lemma_false_lit_on_trail(alit);
    let j = choose|j: int|
        0 <= j < pre.trail@.len() && (#[trigger] pre.trail@[j]).lit == alit.spec_negate();
    assert(pre.variables@[alit.v_id as int].decision_level == Some(pre.trail@[j].level));
    assert(Some(pre.trail@[j].level) == Some((pre.current_level()) as usize));
    assert(0 <= pre.current_level());
    assert(pre.trail@[j].level == pre.current_level() as usize);
    assert(pre.levels@[pre.trail@[j].level as int] <= j);
    assert(pre.levels@[b + 1] <= pre.levels@[pre.current_level()]);
    assert(!var_in_prefix(pre.trail@, keep, alit.v_id as int)) by {
        if var_in_prefix(pre.trail@, keep, alit.v_id as int) {
            let j2 = choose|j2: int|
                0 <= j2 < keep && (#[trigger] pre.trail@[j2]).lit.v_id == alit.v_id as int;
            assert(pre.trail@[j2].lit.v_id == pre.trail@[j].lit.v_id);
            assert(j2 != j ==> false);
        }
    }
    assert(post.valuation@[alit.v_id as int] is None);
}


/// The facts analysis established about the resolvent survive an activity
/// change: the trail, valuation and decision levels are unchanged.
proof fn lemma_shape_after_bump(pre: Solve, post: Solve, lits: Seq<Literal>, origins: Seq<usize>)
    requires
        post.frame_propagation(&pre),
        post.valuation == pre.valuation,
        post.levels == pre.levels,
        post.variables@.len() == pre.variables@.len(),
        forall|v2: int|
            0 <= v2 < pre.n() ==> (#[trigger] post.variables@[v2]).decision_level
                == pre.variables@[v2].decision_level,
        clause_wf(lits, pre.n()),
        forall|z: int| 0 <= z < lits.len() ==> lit_false(pre.valuation@, #[trigger] lits[z]),
        entails_on(pre.fml(), pre.n(), origins, lits),
        forall|oi: int| 0 <= oi < origins.len() ==> #[trigger] origins[oi] < pre.fml().len(),
        exists|x: int|
            0 <= x < lits.len() && pre.lit_at_level(#[trigger] lits[x], pre.current_level())
                && forall|y: int|
                0 <= y < lits.len() && y != x ==> !pre.lit_at_level(
                    #[trigger] lits[y],
                    pre.current_level(),
                ),
    ensures
        clause_wf(lits, post.n()),
        forall|z: int| 0 <= z < lits.len() ==> lit_false(post.valuation@, #[trigger] lits[z]),
        entails_on(post.fml(), post.n(), origins, lits),
        forall|oi: int| 0 <= oi < origins.len() ==> #[trigger] origins[oi] < post.fml().len(),
        exists|x: int|
            0 <= x < lits.len() && post.lit_at_level(#[trigger] lits[x], post.current_level())
                && forall|y: int|
                0 <= y < lits.len() && y != x ==> !post.lit_at_level(
                    #[trigger] lits[y],
                    post.current_level(),
                ),
{
    let xw = choose|x: int|
        0 <= x < lits.len() && pre.lit_at_level(#[trigger] lits[x], pre.current_level()) && forall|
            y: int,
        |
            0 <= y < lits.len() && y != x ==> !pre.lit_at_level(
                #[trigger] lits[y],
                pre.current_level(),
            );
    assert(post.lit_at_level(lits[xw], post.current_level()));
    assert forall|y: int| 0 <= y < lits.len() && y != xw implies !post.lit_at_level(
        #[trigger] lits[y],
        post.current_level(),
    ) by {
        assert(!pre.lit_at_level(lits[y], pre.current_level()));
    }
    assert(0 <= xw < lits.len() && post.lit_at_level(lits[xw], post.current_level()) && forall|
        y: int,
    |
        0 <= y < lits.len() && y != xw ==> !post.lit_at_level(
            #[trigger] lits[y],
            post.current_level(),
        ));
}

impl Solve {
    /// Bump the activity of one variable.  Only the activity changes.
    fn bump_one(&mut self, v: usize)
        requires
            old(self).wf(),
            v < old(self).n(),
        ensures
            final(self).wf(),
            final(self).frame_propagation(old(self)),
            final(self).trail == old(self).trail,
            final(self).valuation == old(self).valuation,
            final(self).qhead == old(self).qhead,
            final(self).formula_clauses == old(self).formula_clauses,
            final(self).lm() == old(self).lm(),
            forall|v2: int|
                0 <= v2 < old(self).n() ==> (#[trigger] final(self).variables@[v2]).decision_level
                    == old(self).variables@[v2].decision_level,
    {
        let ghost pre = *self;
        self.variables[v].increase_activity(1);
        proof {
            let post = *self;
            assert(post.wf_dims());
            assert(post.wf_formula_store());
            assert(post.wf_learnt());
            assert forall|u: int| 0 <= u < pre.variables@.len() implies (
            #[trigger] post.variables@[u]).decision_level == pre.variables@[u].decision_level by {
                if u != v as int {
                    assert(post.variables@[u] == pre.variables@[u]);
                }
            }
            Self::lemma_wf_trail_transfer(pre, post);
            Self::lemma_wf_levels_transfer(pre, post);
            assert forall|i: int|
                0 <= i < pre.trail@.len() implies match (#[trigger] pre.trail@[i]).source {
                LiteralSource::StoredClause(k2) => post.key_valid(k2) && post.key_lits(k2)
                    == pre.key_lits(k2),
                _ => true,
            } by {
                assert(pre.entry_just(i));
                match pre.trail@[i].source {
                    LiteralSource::StoredClause(k2) => {
                        assert(pre.key_valid(k2));
                    },
                    _ => {},
                }
            }
            crate::solve::watching::lemma_sources_preserved(pre, post);
            assert(post.wf_watch_lists()) by {
                assert forall|u: int, x: int|
                    0 <= u < post.n() && 0 <= x
                        < post.variables@[u].positive_watches@.len() implies post.key_in_frange(
                    #[trigger] post.variables@[u].positive_watches@[x],
                ) by {
                    assert(post.variables@[u].positive_watches
                        == pre.variables@[u].positive_watches);
                    assert(pre.key_in_frange(pre.variables@[u].positive_watches@[x]));
                }
                assert forall|u: int, x: int|
                    0 <= u < post.n() && 0 <= x
                        < post.variables@[u].negative_watches@.len() implies post.key_in_frange(
                    #[trigger] post.variables@[u].negative_watches@[x],
                ) by {
                    assert(post.variables@[u].negative_watches
                        == pre.variables@[u].negative_watches);
                    assert(pre.key_in_frange(pre.variables@[u].negative_watches@[x]));
                }
            }
            assert(post.key_lits_same(&pre)) by {
                assert forall|k2: ClauseKey| pre.key_valid(k2) implies post.key_valid(k2)
                    && #[trigger] post.key_lits(k2) == pre.key_lits(k2) by {
                    match k2 {
                        ClauseKey::Formula(j2) => {
                            assert(post.formula_clauses@[j2 as int]
                                == pre.formula_clauses@[j2 as int]);
                        },
                        ClauseKey::Learnt(_) => {},
                    }
                }
            }
        }
    }

    /// Bump the activity of every variable in `bumps`.
    fn bump_activities(&mut self, bumps: &Vec<usize>)
        requires
            old(self).wf(),
            forall|b: int| 0 <= b < bumps@.len() ==> #[trigger] bumps@[b] < old(self).n(),
        ensures
            final(self).wf(),
            final(self).frame_propagation(old(self)),
            final(self).trail == old(self).trail,
            final(self).valuation == old(self).valuation,
            final(self).qhead == old(self).qhead,
            final(self).formula_clauses == old(self).formula_clauses,
            final(self).lm() == old(self).lm(),
            forall|v2: int|
                0 <= v2 < old(self).n() ==> (#[trigger] final(self).variables@[v2]).decision_level
                    == old(self).variables@[v2].decision_level,
    {
        let ghost orig = *self;
        let n = bumps.len();
        let mut i: usize = 0;
        while i < n
            invariant
                i <= n,
                n == bumps@.len(),
                self.wf(),
                self.frame_propagation(&orig),
                self.trail == orig.trail,
                self.valuation == orig.valuation,
                self.qhead == orig.qhead,
                self.formula_clauses == orig.formula_clauses,
                self.lm() == orig.lm(),
                forall|v2: int|
                    0 <= v2 < orig.n() ==> (#[trigger] self.variables@[v2]).decision_level
                        == orig.variables@[v2].decision_level,
                forall|b: int| 0 <= b < bumps@.len() ==> #[trigger] bumps@[b] < orig.n(),
            decreases n - i,
        {
            let ghost pre = *self;
            self.bump_one(bumps[i]);
            proof {
                Self::lemma_frame_propagation_trans(orig, pre, *self);
            }
            i = i + 1;
        }
    }

    /// Halve every variable's activity.
    pub fn decay_activities(&mut self)
        requires
            old(self).wf(),
        ensures
            final(self).wf(),
            final(self).frame_propagation(old(self)),
            final(self).trail == old(self).trail,
            final(self).valuation == old(self).valuation,
            final(self).qhead == old(self).qhead,
            final(self).formula_clauses == old(self).formula_clauses,
            final(self).lm() == old(self).lm(),
            forall|u: int|
                0 <= u < old(self).n() ==> #[trigger] final(self).variables@[u] == (Variable {
                    activity: old(self).variables@[u].activity / 2,
                    ..old(self).variables@[u]
                }),
    {
        let ghost orig = *self;
        let n = self.variables.len();
        let mut v: usize = 0;
        while v < n
            invariant
                v <= n,
                n == self.variables@.len(),
                self.wf(),
                self.frame_propagation(&orig),
                self.trail == orig.trail,
                self.valuation == orig.valuation,
                self.qhead == orig.qhead,
                self.formula_clauses == orig.formula_clauses,
                self.lm() == orig.lm(),
                forall|u: int|
                    0 <= u < v ==> #[trigger] self.variables@[u] == (Variable {
                        activity: orig.variables@[u].activity / 2,
                        ..orig.variables@[u]
                    }),
                forall|u: int| v <= u < n ==> #[trigger] self.variables@[u] == orig.variables@[u],
            decreases n - v,
        {
            let ghost pre = *self;
            self.variables[v].divide_activity(2);
            proof {
                let post = *self;
                assert forall|u: int| 0 <= u < pre.variables@.len() implies (
                #[trigger] post.variables@[u]).decision_level == pre.variables@[u].decision_level by {
                    if u != v as int {
                        assert(post.variables@[u] == pre.variables@[u]);
                    }
                }
                assert(post.wf_dims());
                assert(post.wf_formula_store());
                assert(post.wf_learnt());
                Self::lemma_wf_trail_transfer(pre, post);
                Self::lemma_wf_levels_transfer(pre, post);
                assert forall|i: int|
                    0 <= i < pre.trail@.len() implies match (#[trigger] pre.trail@[i]).source {
                    LiteralSource::StoredClause(k2) => post.key_valid(k2) && post.key_lits(k2)
                        == pre.key_lits(k2),
                    _ => true,
                } by {
                    assert(pre.entry_just(i));
                    match pre.trail@[i].source {
                        LiteralSource::StoredClause(k2) => {
                            assert(pre.key_valid(k2));
                        },
                        _ => {},
                    }
                }
                crate::solve::watching::lemma_sources_preserved(pre, post);
                assert(post.wf_watch_lists()) by {
                    assert forall|u: int, x: int|
                        0 <= u < post.n() && 0 <= x
                            < post.variables@[u].positive_watches@.len() implies post.key_in_frange(
                        #[trigger] post.variables@[u].positive_watches@[x],
                    ) by {
                        assert(post.variables@[u].positive_watches
                            == pre.variables@[u].positive_watches);
                        assert(pre.key_in_frange(pre.variables@[u].positive_watches@[x]));
                    }
                    assert forall|u: int, x: int|
                        0 <= u < post.n() && 0 <= x
                            < post.variables@[u].negative_watches@.len() implies post.key_in_frange(
                        #[trigger] post.variables@[u].negative_watches@[x],
                    ) by {
                        assert(post.variables@[u].negative_watches
                            == pre.variables@[u].negative_watches);
                        assert(pre.key_in_frange(pre.variables@[u].negative_watches@[x]));
                    }
                }
                assert(post.key_lits_same(&pre)) by {
                    assert forall|k2: ClauseKey| pre.key_valid(k2) implies post.key_valid(k2)
                        && #[trigger] post.key_lits(k2) == pre.key_lits(k2) by {
                        match k2 {
                            ClauseKey::Formula(j2) => {
                                assert(post.formula_clauses@[j2 as int]
                                    == pre.formula_clauses@[j2 as int]);
                            },
                            ClauseKey::Learnt(_) => {},
                        }
                    }
                }
                Self::lemma_frame_propagation_trans(orig, pre, post);
            }
            v = v + 1;
        }
    }

    /// Install a learned clause in the store under a fresh handle.
    fn store_learnt_clause(
        &mut self,
        lits: Vec<Literal>,
        origins: Vec<usize>,
        wa: usize,
        wb: usize,
        lbd: usize,
    ) -> (dk: DefaultKey)
        requires
            old(self).wf(),
            clause_wf(lits@, old(self).n()),
            entails_on(old(self).fml(), old(self).n(), origins@, lits@),
            forall|oi: int|
                0 <= oi < origins@.len() ==> #[trigger] origins@[oi] < old(self).fml().len(),
            wa < lits@.len(),
            wb < lits@.len(),
            lits@.len() >= 2 ==> wa != wb,
            old(self).next_learnt_id + 2 < 0xFFFF_FFFFusize,
        ensures
            final(self).wf(),
            final(self).key_valid(ClauseKey::Learnt(dk)),
            !old(self).lm().dom().contains(dk),
            final(self).lm() == old(self).lm().insert(
                dk,
                (StoredClause {
                    id: old(self).next_learnt_id,
                    source: ClauseSource::Resolution,
                    lits,
                    watch_a: wa,
                    watch_b: wb,
                    lbd,
                    origins,
                }),
            ),
            final(self).key_lits(ClauseKey::Learnt(dk)) == lits@,
            final(self).key_origins(ClauseKey::Learnt(dk)) == origins@,
            final(self).key_clause(ClauseKey::Learnt(dk)).watch_a == wa,
            final(self).key_clause(ClauseKey::Learnt(dk)).watch_b == wb,
            final(self).next_learnt_id == old(self).next_learnt_id + 1,
            final(self).key_lits_same(old(self)),
            final(self).config == old(self).config,
            final(self).formula == old(self).formula,
            final(self).variables == old(self).variables,
            final(self).valuation == old(self).valuation,
            final(self).trail == old(self).trail,
            final(self).levels == old(self).levels,
            final(self).qhead == old(self).qhead,
            final(self).formula_clauses == old(self).formula_clauses,
            final(self).iterations == old(self).iterations,
            final(self).conflicts == old(self).conflicts,
            final(self).conflicts_since_last_forget == old(self).conflicts_since_last_forget,
            final(self).forgets == old(self).forgets,
            final(self).ingested() == old(self).ingested(),
    {
        let ghost pre = *self;
        let clause = StoredClause {
            id: self.next_learnt_id,
            source: ClauseSource::Resolution,
            lits,
            watch_a: wa,
            watch_b: wb,
            lbd,
            origins,
        };
        proof {
            assert(store_slots(self.learnt_clauses) < 0xFFFF_FFFF);
        }
        let dk = learnt_store_insert(&mut self.learnt_clauses, clause);
        self.next_learnt_id = self.next_learnt_id + 1;
        proof {
            let post = *self;
            assert(post.lm().dom() =~= pre.lm().dom().insert(dk));
            assert(post.key_lits_same(&pre)) by {
                assert forall|k2: ClauseKey| pre.key_valid(k2) implies post.key_valid(k2)
                    && #[trigger] post.key_lits(k2) == pre.key_lits(k2) by {
                    match k2 {
                        ClauseKey::Formula(j2) => {
                            assert(post.formula_clauses@[j2 as int]
                                == pre.formula_clauses@[j2 as int]);
                        },
                        ClauseKey::Learnt(dk2) => {
                            assert(dk2 != dk);
                            assert(post.lm()[dk2] == pre.lm()[dk2]);
                        },
                    }
                }
            }
            assert(post.wf_dims());
            assert(post.wf_formula_store());
            assert(post.wf_learnt()) by {
                assert forall|dk2: DefaultKey| post.lm().dom().contains(dk2) implies {
                    &&& (#[trigger] post.lm()[dk2]).wf(post.n())
                    &&& post.lm()[dk2].source == ClauseSource::Resolution
                    &&& entails_on(post.fml(), post.n(), post.lm()[dk2].origins@, post.lm()[dk2].lits@)
                    &&& forall|oi: int|
                        0 <= oi < post.lm()[dk2].origins@.len()
                            ==> #[trigger] post.lm()[dk2].origins@[oi] < post.fml().len()
                    &&& post.lm()[dk2].id < post.next_learnt_id
                } by {
                    if dk2 == dk {
                        assert(post.lm()[dk2] == clause);
                    } else {
                        assert(post.lm()[dk2] == pre.lm()[dk2]);
                        assert(pre.lm()[dk2].wf(pre.n()));
                    }
                }
                assert forall|dk1: DefaultKey, dk2: DefaultKey|
                    post.lm().dom().contains(dk1) && post.lm().dom().contains(dk2) && dk1
                        != dk2 implies (#[trigger] post.lm()[dk1]).id != (
                #[trigger] post.lm()[dk2]).id by {
                    if dk1 == dk {
                        assert(post.lm()[dk2] == pre.lm()[dk2]);
                        assert(pre.lm()[dk2].id < pre.next_learnt_id);
                    } else if dk2 == dk {
                        assert(post.lm()[dk1] == pre.lm()[dk1]);
                        assert(pre.lm()[dk1].id < pre.next_learnt_id);
                    } else {
                        assert(post.lm()[dk1] == pre.lm()[dk1]);
                        assert(post.lm()[dk2] == pre.lm()[dk2]);
                        assert(pre.lm()[dk1].id != pre.lm()[dk2].id);
                    }
                }
            }
            Self::lemma_wf_trail_transfer(pre, post);
            Self::lemma_wf_levels_transfer(pre, post);
            assert forall|i: int|
                0 <= i < pre.trail@.len() implies match (#[trigger] pre.trail@[i]).source {
                LiteralSource::StoredClause(k2) => post.key_valid(k2) && post.key_lits(k2)
                    == pre.key_lits(k2),
                _ => true,
            } by {
                assert(pre.entry_just(i));
                match pre.trail@[i].source {
                    LiteralSource::StoredClause(k2) => {
                        assert(pre.key_valid(k2));
                    },
                    _ => {},
                }
            }
            crate::solve::watching::lemma_sources_preserved(pre, post);
            assert(post.wf_watch_lists());
        }
        dk
    }
}


impl Solve {
    /// The decision level of an assigned variable.
    fn var_level(&self, v: usize) -> (r: usize)
        requires
            self.wf(),
            v < self.n(),
            self.valuation@[v as int] is Some,
        ensures
            self.variables@[v as int].decision_level == Some(r),
    {
        match self.variables[v].decision_level {
            Some(l) => l,
            None => vstd::pervasive::unreached(),
        }
    }

    /// For an all-false clause with exactly one literal at the conflict
    /// level: that literal's position, the backjump level (the highest level
    /// among the remaining literals, or zero), and the position of a literal
    /// at the backjump level to watch (the asserting position for a unit).
    fn asserting_shape(&self, lits: &Vec<Literal>) -> (r: (usize, usize, usize))
        requires
            self.wf(),
            clause_wf(lits@, self.n()),
            forall|x: int| 0 <= x < lits@.len() ==> lit_false(self.valuation@, #[trigger] lits@[x]),
            exists|x: int|
                0 <= x < lits@.len() && self.lit_at_level(#[trigger] lits@[x], self.current_level())
                    && forall|y: int|
                    0 <= y < lits@.len() && y != x ==> !self.lit_at_level(
                        #[trigger] lits@[y],
                        self.current_level(),
                    ),
            self.current_level() >= 1,
        ensures
            ({
                let (x, b, wb) = r;
                &&& x < lits@.len()
                &&& self.lit_at_level(lits@[x as int], self.current_level())
                &&& b + 1 < self.levels@.len()
                &&& forall|y: int|
                    0 <= y < lits@.len() && y != x
                        ==> match self.variables@[(#[trigger] lits@[y]).v_id as int].decision_level {
                        Some(l) => l <= b,
                        None => false,
                    }
                &&& wb < lits@.len()
                &&& lits@.len() >= 2 ==> wb != x
                    && self.variables@[lits@[wb as int].v_id as int].decision_level == Some(b)
                &&& lits@.len() == 1 ==> b == 0 && wb == x
            }),
    {
        let ghost d = self.current_level();
        let ghost xg = choose|x: int|
            0 <= x < lits@.len() && self.lit_at_level(#[trigger] lits@[x], d) && forall|y: int|
                0 <= y < lits@.len() && y != x ==> !self.lit_at_level(#[trigger] lits@[y], d);
        let len = lits.len();
        let mut x: usize = 0;
        let mut found = false;
        let mut b: usize = 0;
        let mut wb: usize = 0;
        let mut wb_set = false;
        let mut y: usize = 0;
        while y < len
            invariant
                y <= len,
                len == lits@.len(),
                self.wf(),
                d == self.current_level(),
                d >= 1,
                clause_wf(lits@, self.n()),
                forall|z: int|
                    0 <= z < lits@.len() ==> lit_false(self.valuation@, #[trigger] lits@[z]),
                0 <= xg < lits@.len(),
                self.lit_at_level(lits@[xg], d),
                forall|z: int|
                    0 <= z < lits@.len() && z != xg ==> !self.lit_at_level(#[trigger] lits@[z], d),
                found ==> x < len && x as int == xg,
                !found ==> xg >= y,
                b < d,
                forall|z: int|
                    0 <= z < y && z != xg
                        ==> match self.variables@[(#[trigger] lits@[z]).v_id as int].decision_level {
                        Some(l) => l <= b,
                        None => false,
                    },
                wb_set ==> wb < len && wb as int != xg
                    && self.variables@[lits@[wb as int].v_id as int].decision_level == Some(b),
                !wb_set ==> (y == 0 || (xg == 0 && y == 1)) && b == 0,
            decreases len - y,
        {
            let l = lits[y];
            proof {
                assert(lit_false(self.valuation@, lits@[y as int]));
                assert(self.valuation@[l.v_id as int] is Some);
            }
            let ly = self.var_level(l.v_id);
            proof {
                // an assigned variable's level does not exceed the current one
                assert(self.valuation@[l.v_id as int] is Some);
                assert(self.var_on_trail(l.v_id as int));
                let j = choose|j: int|
                    0 <= j < self.trail@.len() && (#[trigger] self.trail@[j]).lit.v_id
                        == l.v_id as int;
                assert(self.variables@[l.v_id as int].decision_level == Some(self.trail@[j].level));
                assert(self.trail@[j].level < self.levels@.len());
                assert(ly <= d);
            }
            if ly == self.levels.len() - 1 {
                proof {
                    assert(self.lit_at_level(lits@[y as int], d));
                    assert(y as int == xg);
                }
                x = y;
                found = true;
            } else {
                proof {
                    assert(ly < d);
                    assert(y as int != xg) by {
                        if y as int == xg {
                            assert(self.lit_at_level(lits@[xg], d));
                        }
                    }
                }
                if ly >= b {
                    b = ly;
                    wb = y;
                    wb_set = true;
                }
            }
            y = y + 1;
        }
        proof {
            assert(found) by {
                if !found {
                    assert(xg >= len);
                }
            }
            if len >= 2 {
                assert(wb_set);
            }
            assert(b + 1 <= d);
        }
        let wb_final = if wb_set {
            wb
        } else {
            x
        };
        (x, b, wb_final)
    }

    /// What holds right after a conflict was fixed: the solver sits at the
    /// backjump level, the trail ends with the asserting literal enqueued as
    /// a propagation of the learned clause, that literal is the clause's
    /// first watch and its variable appears nowhere earlier on the trail,
    /// every other literal of the clause is false at a level at most the
    /// backjump level, and the second watch sits exactly at the backjump
    /// level (the highest among the others).
    #[verifier::opaque]
    pub open spec fn asserting_outcome(&self, b: LevelIndex) -> bool {
        &&& self.levels@.len() == b + 1
        &&& self.trail@.len() >= 1
        &&& match self.trail@.last().source {
            LiteralSource::StoredClause(k) => {
                let lit = self.trail@.last().lit;
                let c = self.key_clause(k);
                &&& k is Learnt
                &&& self.key_valid(k)
                &&& c.watch_a < c.lits@.len()
                &&& c.lits@[c.watch_a as int] == lit
                &&& forall|y: int|
                    0 <= y < c.lits@.len() && y != c.watch_a ==> lit_false(
                        self.valuation@,
                        #[trigger] c.lits@[y],
                    ) && match self.variables@[c.lits@[y].v_id as int].decision_level {
                        Some(l) => l <= b,
                        None => false,
                    }
                &&& c.lits@.len() >= 2 ==> c.watch_b != c.watch_a && c.watch_b < c.lits@.len()
                    && self.variables@[c.lits@[c.watch_b as int].v_id as int].decision_level
                    == Some(b)
                &&& c.lits@.len() == 1 ==> b == 0
                &&& forall|j: int|
                    0 <= j < self.trail@.len() - 1 ==> (#[trigger] self.trail@[j]).lit.v_id
                        != lit.v_id
            },
            _ => false,
        }
    }

    /// Analyze a conflict, install the learned clause, backjump, and enqueue
    /// the asserting literal.  At level zero there is nothing to fix: the
    /// formula is unsatisfiable.
    pub fn attempt_fix(&mut self, conflict_clause: ClauseKey) -> (r: Result<SolveOk, SolveError>)
        requires
            old(self).wf(),
            old(self).conflict_on(conflict_clause),
        ensures
            final(self).wf(),
            final(self).formula == old(self).formula,
            final(self).config == old(self).config,
            final(self).ingested() == old(self).ingested(),
            final(self).iterations == old(self).iterations,
            final(self).conflicts == old(self).conflicts,
            final(self).conflicts_since_last_forget == old(self).conflicts_since_last_forget,
            final(self).forgets == old(self).forgets,
            old(self).current_level() == 0 <==> (r matches Err(e) && e == SolveError::NoSolution),
            match r {
                Err(SolveError::NoSolution) => *final(self) == *old(self)
                    && old(self).current_level() == 0,
                Err(SolveError::OutOfBounds) => *final(self) == *old(self)
                    && old(self).next_learnt_id >= 0xFFFF_0000usize,
                Err(_) => false,
                Ok(ok) => old(self).current_level() >= 1 && final(self).current_level() < old(
                    self,
                ).current_level() && final(self).next_learnt_id == old(self).next_learnt_id + 1
                    && final(self).trail@.len() >= 1 && match ok {
                    SolveOk::AssertingClause(bb) => final(self).asserting_outcome(bb),
                    _ => false,
                },
            },
    {
        if self.levels.len() == 1 {
            return Err(SolveError::NoSolution);
        }
        if self.next_learnt_id >= 0xFFFF_0000usize {
            // the learned-clause store cannot take another clause
            return Err(SolveError::OutOfBounds);
        }
        let analysis = self.simple_analysis_three(conflict_clause);
        let AnalysisResult::AssertingClause(lits, origins, bumps) = analysis;
        let ghost pre_bump = *self;
        self.bump_activities(&bumps);
        proof {
            lemma_shape_after_bump(pre_bump, *self, lits@, origins@);
        }
        let (x, b, wb) = self.asserting_shape(&lits);
        let lbd = self.count_distinct_levels(&lits);
        let ghost pre_jump = *self;
        self.backjump(b);
        proof {
            lemma_asserting_after_backjump(pre_jump, *self, lits@, x as int, b as int);
        }
        self.install_and_assert(lits, origins, x, wb, lbd, Ghost(b));
        Ok(SolveOk::AssertingClause(b))
    }

    /// Install the asserting clause, watch it, and enqueue its asserting
    /// literal as a propagation.
    #[verifier::rlimit(100)]
    fn install_and_assert(
        &mut self,
        lits: Vec<Literal>,
        origins: Vec<usize>,
        x: usize,
        wb: usize,
        lbd: usize,
        b: Ghost<usize>,
    )
        requires
            old(self).wf(),
            clause_wf(lits@, old(self).n()),
            entails_on(old(self).fml(), old(self).n(), origins@, lits@),
            forall|oi: int|
                0 <= oi < origins@.len() ==> #[trigger] origins@[oi] < old(self).fml().len(),
            x < lits@.len(),
            wb < lits@.len(),
            lits@.len() >= 2 ==> wb != x,
            old(self).next_learnt_id + 2 < 0xFFFF_FFFFusize,
            old(self).valuation@[lits@[x as int].v_id as int] is None,
            forall|y: int|
                0 <= y < lits@.len() && y != x ==> lit_false(
                    old(self).valuation@,
                    #[trigger] lits@[y],
                ),
            old(self).levels@.len() == b@ + 1,
            forall|y: int|
                0 <= y < lits@.len() && y != x
                    ==> match old(self).variables@[(#[trigger] lits@[y]).v_id as int].decision_level {
                    Some(l) => l <= b@,
                    None => false,
                },
            lits@.len() >= 2 ==> old(self).variables@[lits@[wb as int].v_id as int].decision_level
                == Some(b@),
            lits@.len() == 1 ==> b@ == 0 && wb == x,
        ensures
            final(self).wf(),
            final(self).formula == old(self).formula,
            final(self).config == old(self).config,
            final(self).ingested() == old(self).ingested(),
            final(self).iterations == old(self).iterations,
            final(self).conflicts == old(self).conflicts,
            final(self).conflicts_since_last_forget == old(self).conflicts_since_last_forget,
            final(self).forgets == old(self).forgets,
            final(self).levels == old(self).levels,
            final(self).next_learnt_id == old(self).next_learnt_id + 1,
            final(self).trail@.len() == old(self).trail@.len() + 1,
            final(self).asserting_outcome(b@),
    {
        let alit = lits[x];
        let ghost pre_store = *self;
        let dk = self.store_learnt_clause(lits, origins, x, wb, lbd);
        let key = ClauseKey::Learnt(dk);
        proof {
            assert(self.key_lits(key)[x as int] == alit);
        }
        let (law, lbw, clen) = {
            let c = self.clause_ref(key);
            (c.lits[x], c.lits[wb], c.lits.len())
        };
        self.register_watch(law.v_id, law.polarity, key);
        if clen >= 2 {
            self.register_watch(lbw.v_id, lbw.polarity, key);
        }
        proof {
            assert(self.key_valid(key));
            assert(self.key_lits(key)[x as int] == alit);
            assert(self.valuation@[alit.v_id as int] is None);
            assert forall|y: int|
                0 <= y < self.key_lits(key).len() && #[trigger] self.key_lits(key)[y]
                    != alit implies lit_false(self.valuation@, self.key_lits(key)[y]) by {
                if y != x {
                    assert(lit_false(pre_store.valuation@, self.key_lits(key)[y]));
                } else {
                    assert(self.key_lits(key)[y] == alit);
                }
            }
            assert(self.source_ok(alit, LiteralSource::StoredClause(key)));
            assert(alit.v_id < self.n());
            // the registrations changed only watch lists: decision levels
            // and the stored clause survive
            assert forall|u: int| 0 <= u < self.n() implies (
            #[trigger] self.variables@[u]).decision_level
                == pre_store.variables@[u].decision_level by {}
            assert(self.key_clause(key).watch_a == x);
            assert(self.key_clause(key).watch_b == wb);
            assert(self.key_clause(key).lits@ == self.key_lits(key));
        }
        let ghost pre_set = *self;
        self.set_literal(alit, LiteralSource::StoredClause(key));
        proof {
            let post = *self;
            let tn = post.trail@.len() - 1;
            assert(post.trail@.last().lit == alit);
            assert(post.trail@.last().source == LiteralSource::StoredClause(key));
            assert(post.key_valid(key));
            assert(post.lm() == pre_set.lm());
            assert(post.key_clause(key) == pre_set.key_clause(key));
            let c = post.key_clause(key);
            assert(c.watch_a == x && c.watch_b == wb && c.lits@ == lits@);
            assert forall|y: int| 0 <= y < c.lits@.len() && y != c.watch_a implies lit_false(
                post.valuation@,
                #[trigger] c.lits@[y],
            ) && match post.variables@[c.lits@[y].v_id as int].decision_level {
                Some(l) => l <= b@,
                None => false,
            } by {
                assert(c.lits@[y] == lits@[y]);
                assert(lits@[y].v_id != alit.v_id);
                assert(lit_false(pre_set.valuation@, lits@[y]));
                assert(post.valuation@[lits@[y].v_id as int]
                    == pre_set.valuation@[lits@[y].v_id as int]);
                assert(post.variables@[lits@[y].v_id as int]
                    == pre_set.variables@[lits@[y].v_id as int]);
                assert(pre_set.variables@[lits@[y].v_id as int].decision_level
                    == pre_store.variables@[lits@[y].v_id as int].decision_level);
            }
            if c.lits@.len() >= 2 {
                assert(c.lits@[wb as int].v_id != alit.v_id);
                assert(post.variables@[c.lits@[c.watch_b as int].v_id as int].decision_level
                    == Some(b@));
            }
            assert forall|j: int| 0 <= j < post.trail@.len() - 1 implies (
            #[trigger] post.trail@[j]).lit.v_id != alit.v_id by {
                assert(post.trail@[j].lit.v_id != post.trail@[tn].lit.v_id);
            }
            reveal(Solve::asserting_outcome);
            assert(post.asserting_outcome(b@));
        }
    }

    /// The decision levels the first `upto` literals of a clause sit at.
    pub open spec fn levels_of(&self, lits: Seq<Literal>, upto: int) -> Set<usize>
        decreases upto,
    {
        if upto <= 0 {
            Set::empty()
        } else {
            self.levels_of(lits, upto - 1).insert(
                crate::solve::ingest::var_level_or_zero(
                    self.variables@,
                    lits[upto - 1].v_id as int,
                ) as usize,
            )
        }
    }

    /// The number of distinct decision levels among the (assigned) literals
    /// of a clause: its literal block distance.
    fn count_distinct_levels(&self, lits: &Vec<Literal>) -> (r: usize)
        requires
            self.wf(),
            forall|x: int| 0 <= x < lits@.len() ==> (#[trigger] lits@[x]).v_id < self.n(),
            forall|x: int| 0 <= x < lits@.len() ==> lit_false(self.valuation@, #[trigger] lits@[x]),
        ensures
            r == self.levels_of(lits@, lits@.len() as int).len(),
    {
        let len = lits.len();
        let mut seen: Vec<usize> = Vec::new();
        let mut y: usize = 0;
        while y < len
            invariant
                y <= len,
                len == lits@.len(),
                self.wf(),
                forall|x: int| 0 <= x < lits@.len() ==> (#[trigger] lits@[x]).v_id < self.n(),
                forall|x: int|
                    0 <= x < lits@.len() ==> lit_false(self.valuation@, #[trigger] lits@[x]),
                seen@.no_duplicates(),
                forall|l2: usize| #[trigger]
                    self.levels_of(lits@, y as int).contains(l2) <==> seen@.contains(l2),
            decreases len - y,
        {
            let l = lits[y];
            proof {
                assert(lit_false(self.valuation@, lits@[y as int]));
            }
            let ly = self.var_level(l.v_id);
            proof {
                assert(ly == crate::solve::ingest::var_level_or_zero(
                    self.variables@,
                    lits@[y as int].v_id as int,
                ));
            }
            let mut present = false;
            let sn = seen.len();
            let mut s: usize = 0;
            while s < sn
                invariant
                    s <= sn,
                    sn == seen@.len(),
                    present <==> exists|s2: int| 0 <= s2 < s && seen@[s2] == ly,
                decreases sn - s,
            {
                if seen[s] == ly {
                    proof {
                        assert(seen@[s as int] == ly);
                    }
                    present = true;
                }
                s = s + 1;
            }
            let ghost pre_seen = seen@;
            if !present {
                seen.push(ly);
            }
            proof {
                if present {
                    let s2 = choose|s2: int| 0 <= s2 < pre_seen.len() && pre_seen[s2] == ly;
                    assert(pre_seen.contains(ly));
                }
                assert forall|l2: usize| #[trigger] self.levels_of(lits@, y + 1).contains(
                    l2,
                ) <==> seen@.contains(l2) by {
                    if self.levels_of(lits@, y + 1).contains(l2) {
                        if l2 == ly {
                            if present {
                                let w = choose|w: int|
                                    0 <= w < pre_seen.len() && pre_seen[w] == ly;
                                assert(seen@[w] == ly);
                            } else {
                                assert(seen@[seen@.len() - 1] == ly);
                            }
                        } else {
                            assert(self.levels_of(lits@, y as int).contains(l2));
                            let w = choose|w: int| 0 <= w < pre_seen.len() && pre_seen[w] == l2;
                            assert(seen@[w] == l2);
                        }
                    }
                    if seen@.contains(l2) {
                        let w = choose|w: int| 0 <= w < seen@.len() && seen@[w] == l2;
                        if w < pre_seen.len() {
                            assert(pre_seen[w] == l2);
                            assert(self.levels_of(lits@, y as int).contains(l2));
                        } else {
                            assert(seen@[w] == ly);
                        }
                    }
                }
            }
            y = y + 1;
        }
        proof {
            self.lemma_levels_card(lits@, len as int, seen@);
        }
        seen.len()
    }

    /// A duplicate-free listing of a level set has the set's cardinality.
    proof fn lemma_levels_card(&self, lits: Seq<Literal>, upto: int, seen: Seq<usize>)
        requires
            seen.no_duplicates(),
            forall|l2: usize| #[trigger]
                self.levels_of(lits, upto).contains(l2) <==> seen.contains(l2),
        ensures
            self.levels_of(lits, upto).len() == seen.len(),
    {
        seen.unique_seq_to_set();
        assert(self.levels_of(lits, upto) =~= seen.to_set()) by {
            assert forall|l2: usize| #[trigger] self.levels_of(lits, upto).contains(
                l2,
            ) implies seen.to_set().contains(l2) by {
                assert(seen.contains(l2));
            }
            assert forall|l2: usize| #[trigger] seen.to_set().contains(l2) implies self.levels_of(
                lits,
                upto,
            ).contains(l2) by {
                assert(seen.contains(l2));
            }
        }
    }
}

} // verus!
