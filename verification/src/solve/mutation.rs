//! Mutations of the solver's state that every other operation is built from:
//! recording an assignment on the trail and opening a decision level.  Each
//! preserves the solver invariant.

use vstd::prelude::*;

use crate::learnt_store::store_slots;
use crate::literal::{Literal, VariableId};
use crate::semantics::pure_lit;
use crate::solve::base::{LiteralSource, Solve, TrailEntry};
use crate::stored_clause::ClauseKey;
use crate::valuation::{lit_false, lit_true, lit_unassigned};
use crate::variable::Variable;

verus! {

impl Solve {
    /// A false literal's negation stands on the trail.
    pub proof fn lemma_false_lit_on_trail(&self, l: Literal)
        requires
            self.wf(),
            l.v_id < self.n(),
            lit_false(self.valuation@, l),
        ensures
            exists|j: int|
                0 <= j < self.trail@.len() && (#[trigger] self.trail@[j]).lit == l.spec_negate(),
    {
        assert(self.valuation@[l.v_id as int] is Some);
        assert(self.var_on_trail(l.v_id as int));
        let i = choose|i: int|
            0 <= i < self.trail@.len() && (#[trigger] self.trail@[i]).lit.v_id == l.v_id as int;
        assert(lit_true(self.valuation@, self.trail@[i].lit));
        assert(self.trail@[i].lit == l.spec_negate());
    }

    /// A true literal stands on the trail itself.
    pub proof fn lemma_true_lit_on_trail(&self, l: Literal)
        requires
            self.wf(),
            l.v_id < self.n(),
            lit_true(self.valuation@, l),
        ensures
            exists|j: int| 0 <= j < self.trail@.len() && (#[trigger] self.trail@[j]).lit == l,
    {
        assert(self.valuation@[l.v_id as int] is Some);
        assert(self.var_on_trail(l.v_id as int));
        let i = choose|i: int|
            0 <= i < self.trail@.len() && (#[trigger] self.trail@[i]).lit.v_id == l.v_id as int;
        assert(lit_true(self.valuation@, self.trail@[i].lit));
        assert(self.trail@[i].lit == l);
    }

    /// What `set_literal` asks of each kind of source.
    pub open spec fn source_ok(&self, lit: Literal, src: LiteralSource) -> bool {
        match src {
            LiteralSource::Choice => false,  // decisions go through `decide`
            LiteralSource::Deduced(j) => {
                &&& j < self.formula_clauses@.len()
                &&& self.current_level() == 0
                &&& self.fml()[j as int].len() == 1
                &&& self.fml()[j as int][0] == lit
            },
            LiteralSource::HobsonChoice => {
                &&& self.current_level() == 0
                &&& pure_lit(self.fml(), lit)
            },
            LiteralSource::StoredClause(k) => {
                &&& self.key_valid(k)
                &&& exists|x: int|
                    0 <= x < self.key_lits(k).len() && #[trigger] self.key_lits(k)[x] == lit
                &&& forall|x: int|
                    0 <= x < self.key_lits(k).len() && #[trigger] self.key_lits(k)[x] != lit
                        ==> lit_false(self.valuation@, self.key_lits(k)[x])
            },
        }
    }

    /// All state other than the assignment (trail, valuation, decision
    /// levels) is unchanged.
    pub open spec fn frame_assignment(&self, pre: &Solve) -> bool {
        &&& self.config == pre.config
        &&& self.formula == pre.formula
        &&& self.levels == pre.levels
        &&& self.formula_clauses == pre.formula_clauses
        &&& self.lm() == pre.lm()
        &&& store_slots(self.learnt_clauses) == store_slots(pre.learnt_clauses)
        &&& self.next_learnt_id == pre.next_learnt_id
        &&& self.iterations == pre.iterations
        &&& self.conflicts == pre.conflicts
        &&& self.conflicts_since_last_forget == pre.conflicts_since_last_forget
        &&& self.forgets == pre.forgets
    }

    /// The literal sequence of every valid key is unchanged between two
    /// states with the same stores.
    pub open spec fn key_lits_same(&self, pre: &Solve) -> bool {
        forall|k: ClauseKey|
            pre.key_valid(k) ==> self.key_valid(k) && #[trigger] self.key_lits(k) == pre.key_lits(k)
    }
}

/// How a state `post` relates to `pre` after pushing one trail entry,
/// assigning its literal, and (for a decision) opening a new level.
pub open spec fn push_shape(pre: Solve, post: Solve, entry: TrailEntry) -> bool {
    &&& entry.lit.v_id < pre.n()
    &&& lit_unassigned(pre.valuation@, entry.lit)
    &&& entry.level == post.levels@.len() - 1
    &&& post.trail@ == pre.trail@.push(entry)
    &&& post.valuation@ == pre.valuation@.update(entry.lit.v_id as int, Some(entry.lit.polarity))
    &&& post.variables@ == pre.variables@.update(
        entry.lit.v_id as int,
        (Variable { decision_level: Some(entry.level), ..pre.variables@[entry.lit.v_id as int] }),
    )
    &&& post.qhead == pre.qhead
    &&& post.formula == pre.formula
    &&& post.formula_clauses == pre.formula_clauses
    &&& post.lm() == pre.lm()
    &&& store_slots(post.learnt_clauses) == store_slots(pre.learnt_clauses)
    &&& post.next_learnt_id == pre.next_learnt_id
}

proof fn lemma_push_var_fresh(pre: Solve, lit: Literal)
    requires
        pre.wf(),
        lit.v_id < pre.n(),
        lit_unassigned(pre.valuation@, lit),
    ensures
        forall|i: int|
            0 <= i < pre.trail@.len() ==> (#[trigger] pre.trail@[i]).lit.v_id != lit.v_id,
{
    assert forall|i: int| 0 <= i < pre.trail@.len() implies (#[trigger] pre.trail@[i]).lit.v_id
        != lit.v_id by {
        if pre.trail@[i].lit.v_id == lit.v_id {
            assert(lit_true(pre.valuation@, pre.trail@[i].lit));
        }
    }
}

proof fn lemma_push_wf_trail(pre: Solve, post: Solve, entry: TrailEntry)
    requires
        pre.wf(),
        push_shape(pre, post, entry),
    ensures
        post.wf_trail(),
{
    lemma_push_var_fresh(pre, entry.lit);
    let tn = post.trail@.len() - 1;
    assert(post.trail@[tn] == entry);
    assert forall|i: int| 0 <= i < post.trail@.len() implies lit_true(
        post.valuation@,
        (#[trigger] post.trail@[i]).lit,
    ) by {
        if i < tn {
            assert(post.trail@[i] == pre.trail@[i]);
            assert(lit_true(pre.valuation@, pre.trail@[i].lit));
            assert(pre.trail@[i].lit.v_id != entry.lit.v_id);
        }
    }
    assert forall|v: int|
        0 <= v < post.n() && post.valuation@[v] is Some implies #[trigger] post.var_on_trail(v) by {
        if v == entry.lit.v_id as int {
            assert(post.trail@[tn].lit.v_id == v);
        } else {
            assert(pre.valuation@[v] is Some);
            assert(pre.var_on_trail(v));
            let i = choose|i: int|
                0 <= i < pre.trail@.len() && (#[trigger] pre.trail@[i]).lit.v_id == v;
            assert(post.trail@[i].lit.v_id == v);
        }
    }
}

proof fn lemma_push_just_old(pre: Solve, post: Solve, entry: TrailEntry, i: int)
    requires
        pre.wf(),
        push_shape(pre, post, entry),
        0 <= i < pre.trail@.len(),
    ensures
        post.entry_just(i),
{
    assert(post.trail@[i] == pre.trail@[i]);
    assert(pre.entry_just(i));
    match pre.trail@[i].source {
        LiteralSource::StoredClause(k) => {
            assert(pre.key_valid(k));
            assert(post.key_lits(k) == pre.key_lits(k));
            assert forall|x: int|
                0 <= x < post.key_lits(k).len() && #[trigger] post.key_lits(k)[x]
                    != post.trail@[i].lit implies exists|j: int|
                0 <= j < i && (#[trigger] post.trail@[j]).lit == post.key_lits(
                    k,
                )[x].spec_negate() by {
                let j = choose|j: int|
                    0 <= j < i && (#[trigger] pre.trail@[j]).lit == pre.key_lits(
                        k,
                    )[x].spec_negate();
                assert(post.trail@[j].lit == post.key_lits(k)[x].spec_negate());
            }
        },
        _ => {},
    }
}

#[verifier::rlimit(100)]
proof fn lemma_push_just_new(pre: Solve, post: Solve, entry: TrailEntry)
    requires
        pre.wf(),
        push_shape(pre, post, entry),
        pre.source_ok(entry.lit, entry.source) || entry.source is Choice,
        !(entry.source is Choice) ==> entry.level == pre.current_level(),
        post.levels@.len() >= pre.levels@.len(),
    ensures
        post.entry_just(post.trail@.len() - 1),
{
    let tn = post.trail@.len() - 1;
    assert(post.trail@[tn] == entry);
    match entry.source {
        LiteralSource::Deduced(j) => {
            assert(entry.level == 0);
        },
        LiteralSource::HobsonChoice => {
            assert(entry.level == 0);
        },
        LiteralSource::StoredClause(k) => {
            let x0 = choose|x: int|
                0 <= x < pre.key_lits(k).len() && #[trigger] pre.key_lits(k)[x] == entry.lit;
            assert(pre.key_valid(k));
            assert(post.key_lits(k) == pre.key_lits(k));
            assert(post.key_lits(k)[x0] == entry.lit);
            pre.lemma_key_lits_wf(k);
            assert forall|x: int|
                0 <= x < post.key_lits(k).len() && #[trigger] post.key_lits(k)[x]
                    != entry.lit implies exists|j: int|
                0 <= j < tn && (#[trigger] post.trail@[j]).lit == post.key_lits(
                    k,
                )[x].spec_negate() by {
                assert(lit_false(pre.valuation@, pre.key_lits(k)[x]));
                assert(pre.key_lits(k)[x].v_id < pre.n());
                pre.lemma_false_lit_on_trail(pre.key_lits(k)[x]);
                let j = choose|j: int|
                    0 <= j < pre.trail@.len() && (#[trigger] pre.trail@[j]).lit == pre.key_lits(
                        k,
                    )[x].spec_negate();
                assert(post.trail@[j].lit == post.key_lits(k)[x].spec_negate());
            }
        },
        _ => {},
    }
}

proof fn lemma_push_wf_sources(pre: Solve, post: Solve, entry: TrailEntry)
    requires
        pre.wf(),
        push_shape(pre, post, entry),
        pre.source_ok(entry.lit, entry.source) || entry.source is Choice,
        !(entry.source is Choice) ==> entry.level == pre.current_level(),
        post.levels@.len() >= pre.levels@.len(),
    ensures
        post.wf_sources(),
{
    let tn = post.trail@.len() - 1;
    assert forall|i: int| 0 <= i < post.trail@.len() implies #[trigger] post.entry_just(i) by {
        if i < tn {
            lemma_push_just_old(pre, post, entry, i);
        } else {
            lemma_push_just_new(pre, post, entry);
        }
    }
}

/// Invariant preservation for `set_literal`: the levels are unchanged and the
/// entry joins the current level.
proof fn lemma_set_literal_wf(pre: Solve, post: Solve, entry: TrailEntry)
    requires
        pre.wf(),
        push_shape(pre, post, entry),
        post.levels == pre.levels,
        post.config == pre.config,
        pre.source_ok(entry.lit, entry.source),
    ensures
        post.wf(),
{
    assert(post.wf_dims());
    assert(post.wf_formula_store());
    assert(post.wf_learnt());
    lemma_push_wf_trail(pre, post, entry);
    let tn = post.trail@.len() - 1;
    assert(post.trail@[tn] == entry);
    assert(!(entry.source is Choice));
    assert(post.wf_levels()) by {
        assert(forall|i: int| 0 <= i < tn ==> post.trail@[i] == pre.trail@[i]);
        assert(pre.levels@[entry.level as int] <= pre.trail@.len());
    }
    lemma_push_wf_sources(pre, post, entry);
    assert(post.wf_watch_lists());
}

/// Invariant preservation for `decide`: a new level opens whose start is the
/// pushed decision.
proof fn lemma_decide_wf(pre: Solve, post: Solve, entry: TrailEntry)
    requires
        pre.wf(),
        push_shape(pre, post, entry),
        post.levels@ == pre.levels@.push(pre.trail@.len() as usize),
        post.config == pre.config,
        entry.source is Choice,
        pre.qhead == pre.trail@.len(),
    ensures
        post.wf(),
{
    assert(post.wf_dims());
    assert(post.wf_formula_store());
    assert(post.wf_learnt());
    lemma_push_wf_trail(pre, post, entry);
    let tn = post.trail@.len() - 1;
    assert(post.trail@[tn] == entry);
    assert(post.levels@[entry.level as int] == tn);
    assert(post.wf_levels()) by {
        assert(forall|i: int| 0 <= i < tn ==> post.trail@[i] == pre.trail@[i]);
        assert(forall|l: int| 0 <= l < pre.levels@.len() ==> post.levels@[l] == pre.levels@[l]);
        assert forall|l1: int, l2: int|
            0 <= l1 <= l2 < post.levels@.len() implies #[trigger] post.levels@[l1]
            <= #[trigger] post.levels@[l2] by {
            if l2 < post.levels@.len() - 1 {
                assert(pre.levels@[l1] <= pre.levels@[l2]);
            } else if l1 < post.levels@.len() - 1 {
                assert(pre.levels@[l1] <= pre.trail@.len());
            }
        }
    }
    lemma_push_wf_sources(pre, post, entry);
    assert(post.wf_watch_lists());
}

impl Solve {
    /// Record `lit` on the trail at the current decision level with the given
    /// source.  The literal's variable must be unassigned.
    pub fn set_literal(&mut self, lit: Literal, src: LiteralSource)
        requires
            old(self).wf(),
            lit.v_id < old(self).n(),
            lit_unassigned(old(self).valuation@, lit),
            old(self).source_ok(lit, src),
        ensures
            final(self).wf(),
            final(self).frame_assignment(old(self)),
            final(self).qhead == old(self).qhead,
            final(self).trail@ == old(self).trail@.push(
                TrailEntry { lit, source: src, level: (old(self).levels@.len() - 1) as usize },
            ),
            final(self).valuation@ == old(self).valuation@.update(
                lit.v_id as int,
                Some(lit.polarity),
            ),
            final(self).variables@ == old(self).variables@.update(
                lit.v_id as int,
                (Variable {
                    decision_level: Some((old(self).levels@.len() - 1) as usize),
                    ..old(self).variables@[lit.v_id as int]
                }),
            ),
    {
        let ghost pre = *self;
        let level: usize = self.levels.len() - 1;
        let entry = TrailEntry { lit, source: src, level };
        self.valuation.set_v_id(lit.v_id, lit.polarity);
        self.variables[lit.v_id].set_decision_level(level);
        self.trail.push(entry);
        proof {
            assert(self.variables@ =~= pre.variables@.update(
                lit.v_id as int,
                (Variable { decision_level: Some(level), ..pre.variables@[lit.v_id as int] }),
            ));
            assert(push_shape(pre, *self, entry));
            lemma_set_literal_wf(pre, *self, entry);
        }
    }

    /// Open a new decision level and assign variable `v_id` false as its
    /// decision.
    pub fn decide(&mut self, v_id: VariableId)
        requires
            old(self).wf(),
            v_id < old(self).n(),
            old(self).valuation@[v_id as int] is None,
            old(self).qhead == old(self).trail@.len(),
            old(self).levels@.len() + 1 < usize::MAX,
        ensures
            final(self).wf(),
            final(self).config == old(self).config,
            final(self).formula == old(self).formula,
            final(self).formula_clauses == old(self).formula_clauses,
            final(self).lm() == old(self).lm(),
            store_slots(final(self).learnt_clauses) == store_slots(old(self).learnt_clauses),
            final(self).next_learnt_id == old(self).next_learnt_id,
            final(self).iterations == old(self).iterations,
            final(self).conflicts == old(self).conflicts,
            final(self).conflicts_since_last_forget == old(self).conflicts_since_last_forget,
            final(self).forgets == old(self).forgets,
            final(self).qhead == old(self).qhead,
            final(self).levels@ == old(self).levels@.push(old(self).trail@.len() as usize),
            final(self).trail@ == old(self).trail@.push(
                TrailEntry {
                    lit: Literal { v_id, polarity: false },
                    source: LiteralSource::Choice,
                    level: old(self).levels@.len() as usize,
                },
            ),
            final(self).valuation@ == old(self).valuation@.update(v_id as int, Some(false)),
            final(self).ingested() == old(self).ingested(),
    {
        let ghost pre = *self;
        let lit = Literal { v_id, polarity: false };
        let start = self.trail.len();
        let level: usize = self.levels.len();
        self.levels.push(start);
        let entry = TrailEntry { lit, source: LiteralSource::Choice, level };
        self.valuation.set_v_id(v_id, false);
        self.variables[v_id].set_decision_level(level);
        self.trail.push(entry);
        proof {
            assert(self.variables@ =~= pre.variables@.update(
                v_id as int,
                (Variable { decision_level: Some(level), ..pre.variables@[v_id as int] }),
            ));
            assert(push_shape(pre, *self, entry));
            lemma_decide_wf(pre, *self, entry);
        }
    }
}



/// Variable `v` is assigned by one of the first `len` entries of `t`.
pub open spec fn var_in_prefix(t: Seq<TrailEntry>, len: int, v: int) -> bool {
    exists|j: int| 0 <= j < len && (#[trigger] t[j]).lit.v_id == v
}

/// How a state `post` relates to `pre` while and after popping trail entries:
/// the trail is a prefix of `pre`'s, the surviving assignments agree with
/// `pre`, and the popped variables are unassigned.
pub open spec fn pop_shape(pre: Solve, post: Solve, len: int) -> bool {
    &&& 0 <= len <= pre.trail@.len()
    &&& post.trail@ == pre.trail@.subrange(0, len)
    &&& post.valuation@.len() == pre.n()
    &&& post.variables@.len() == pre.n()
    &&& forall|v: int|
        #![trigger var_in_prefix(pre.trail@, len, v)]
        0 <= v < pre.n() && var_in_prefix(pre.trail@, len, v) ==> post.valuation@[v]
            == pre.valuation@[v] && post.variables@[v] == pre.variables@[v]
    &&& forall|v: int|
        #![trigger var_in_prefix(pre.trail@, len, v)]
        0 <= v < pre.n() && !var_in_prefix(pre.trail@, len, v) ==> post.valuation@[v] is None
            && post.variables@[v] == (Variable { decision_level: None, ..pre.variables@[v] })
    &&& post.formula == pre.formula
    &&& post.formula_clauses == pre.formula_clauses
    &&& post.lm() == pre.lm()
    &&& store_slots(post.learnt_clauses) == store_slots(pre.learnt_clauses)
    &&& post.next_learnt_id == pre.next_learnt_id
    &&& post.config == pre.config
}

proof fn lemma_backjump_wf(pre: Solve, post: Solve, b: int)
    requires
        pre.wf(),
        0 <= b,
        b + 1 < pre.levels@.len(),
        pop_shape(pre, post, pre.levels@[b + 1] as int),
        post.levels@ == pre.levels@.subrange(0, b + 1),
        post.qhead == post.trail@.len(),
    ensures
        post.wf(),
{
    let keep = pre.levels@[b + 1] as int;
    assert(post.trail@.len() == keep);
    // entries below `keep` sit at levels at most `b`
    assert forall|i: int| 0 <= i < keep implies (#[trigger] pre.trail@[i]).level <= b by {
        if pre.trail@[i].level > b {
            assert(pre.trail@[i].level < pre.levels@.len());
            if pre.trail@[i].level as int == b + 1 {
                assert(pre.levels@[b + 1] <= i);
            } else {
                assert(b + 1 < pre.levels@.len());
                assert(pre.trail@[i].level > b + 1 ==> pre.levels@[pre.trail@[i].level as int] <= i
                    && pre.levels@[b + 1] <= pre.levels@[pre.trail@[i].level as int]);
            }
        }
    }
    assert(post.wf_dims());
    assert(post.wf_formula_store());
    assert(post.wf_learnt());
    // the trail and valuation still agree
    assert(post.wf_trail()) by {
        assert forall|i: int| 0 <= i < keep implies lit_true(
            post.valuation@,
            (#[trigger] post.trail@[i]).lit,
        ) && post.variables@[post.trail@[i].lit.v_id as int].decision_level == Some(
            post.trail@[i].level,
        ) by {
            let v = pre.trail@[i].lit.v_id as int;
            assert(var_in_prefix(pre.trail@, keep, v));
            assert(post.valuation@[v] == pre.valuation@[v]);
            assert(lit_true(pre.valuation@, pre.trail@[i].lit));
        }
        assert forall|v: int|
            0 <= v < post.n() && post.valuation@[v] is Some implies #[trigger] post.var_on_trail(
            v,
        ) by {
            if var_in_prefix(pre.trail@, keep, v) {
                let j = choose|j: int| 0 <= j < keep && (#[trigger] pre.trail@[j]).lit.v_id == v;
                assert(post.trail@[j].lit.v_id == v);
            } else {
                assert(post.valuation@[v] is None);
            }
        }
        assert forall|v: int| 0 <= v < post.n() implies ((#[trigger] post.variables@[v]).decision_level
            is Some <==> post.valuation@[v] is Some) by {
            if var_in_prefix(pre.trail@, keep, v) {
                assert(post.valuation@[v] == pre.valuation@[v]);
                assert(post.variables@[v] == pre.variables@[v]);
            }
        }
    }
    // the level structure survives the truncation
    assert(post.wf_levels()) by {
        assert(forall|l: int| 0 <= l <= b ==> post.levels@[l] == pre.levels@[l]);
        assert forall|l: int| 1 <= l < post.levels@.len() implies #[trigger] post.levels@[l]
            < post.trail@.len() && post.trail@[post.levels@[l] as int].level == l
            && post.trail@[post.levels@[l] as int].source is Choice by {
            assert(pre.levels@[l] < pre.trail@.len());
            assert(pre.trail@[pre.levels@[l] as int].level == l);
            // the level-l decision sits strictly below the cut
            assert(pre.levels@[l] < keep) by {
                assert(pre.trail@[pre.levels@[l] as int].level < b + 1 ==> pre.levels@[l] < pre.levels@[b+1]);
            }
            assert(post.trail@[pre.levels@[l] as int] == pre.trail@[pre.levels@[l] as int]);
        }
        assert forall|i: int| 0 <= i < post.trail@.len() implies (#[trigger] post.trail@[i]).level
            < post.levels@.len() by {
            assert(pre.trail@[i].level <= b);
        }
    }
    assert(post.wf_sources()) by {
        assert(post.key_lits_same(&pre));
        assert forall|i: int| 0 <= i < post.trail@.len() implies #[trigger] post.entry_just(i) by {
            assert(post.trail@[i] == pre.trail@[i]);
            assert(pre.entry_just(i));
            match pre.trail@[i].source {
                LiteralSource::StoredClause(k) => {
                    assert(post.key_lits(k) == pre.key_lits(k));
                    assert forall|x: int|
                        0 <= x < post.key_lits(k).len() && #[trigger] post.key_lits(k)[x]
                            != post.trail@[i].lit implies exists|j: int|
                        0 <= j < i && (#[trigger] post.trail@[j]).lit == post.key_lits(
                            k,
                        )[x].spec_negate() by {
                        let j = choose|j: int|
                            0 <= j < i && (#[trigger] pre.trail@[j]).lit == pre.key_lits(
                                k,
                            )[x].spec_negate();
                        assert(post.trail@[j].lit == post.key_lits(k)[x].spec_negate());
                    }
                },
                _ => {},
            }
        }
    }
    assert(post.wf_watch_lists()) by {
        assert forall|v: int| 0 <= v < post.n() implies (#[trigger] post.variables@[v]).id == v
            && post.variables@[v].positive_watches == pre.variables@[v].positive_watches
            && post.variables@[v].negative_watches == pre.variables@[v].negative_watches by {
            if !var_in_prefix(pre.trail@, keep, v) {
                assert(post.variables@[v] == (Variable {
                    decision_level: None,
                    ..pre.variables@[v]
                }));
            }
        }
    }
}

impl Solve {
    /// Pop the trail back to decision level `b`: every entry at a deeper
    /// level is removed and its variable unassigned.  The propagation head is
    /// reset to the end of the surviving trail.
    pub fn backjump(&mut self, b: usize)
        requires
            old(self).wf(),
            b + 1 < old(self).levels@.len(),
        ensures
            final(self).wf(),
            final(self).levels@ == old(self).levels@.subrange(0, b + 1),
            final(self).trail@ == old(self).trail@.subrange(
                0,
                old(self).levels@[b + 1 as int] as int,
            ),
            final(self).qhead == final(self).trail@.len(),
            pop_shape(*old(self), *final(self), old(self).levels@[b + 1 as int] as int),
            final(self).formula == old(self).formula,
            final(self).formula_clauses == old(self).formula_clauses,
            final(self).lm() == old(self).lm(),
            store_slots(final(self).learnt_clauses) == store_slots(old(self).learnt_clauses),
            final(self).next_learnt_id == old(self).next_learnt_id,
            final(self).config == old(self).config,
            final(self).iterations == old(self).iterations,
            final(self).conflicts == old(self).conflicts,
            final(self).conflicts_since_last_forget == old(self).conflicts_since_last_forget,
            final(self).forgets == old(self).forgets,
            final(self).ingested() == old(self).ingested(),
    {
        let ghost orig = *self;
        let keep = self.levels[b + 1];
        proof {
            assert(keep <= self.trail@.len());
            let full = orig.trail@.len() as int;
            assert(self.trail@ =~= orig.trail@.subrange(0, full));
            assert forall|v: int|
                #![trigger var_in_prefix(orig.trail@, full, v)]
                0 <= v < orig.n() && !var_in_prefix(orig.trail@, full, v) implies
                self.valuation@[v] is None && self.variables@[v] == (Variable {
                    decision_level: None,
                    ..orig.variables@[v]
                }) by {
                if self.valuation@[v] is Some {
                    assert(orig.var_on_trail(v));
                    let j = choose|j: int|
                        0 <= j < orig.trail@.len() && (#[trigger] orig.trail@[j]).lit.v_id == v;
                    assert(var_in_prefix(orig.trail@, full, v));
                }
                assert(orig.variables@[v].decision_level is None);
            }
            assert(pop_shape(orig, *self, full));
        }
        while self.trail.len() > keep
            invariant
                orig.wf(),
                b + 1 < orig.levels@.len(),
                keep == orig.levels@[b + 1 as int],
                keep <= self.trail@.len() <= orig.trail@.len(),
                pop_shape(orig, *self, self.trail@.len() as int),
                self.levels == orig.levels,
                self.qhead == orig.qhead || self.qhead == keep,
                self.iterations == orig.iterations,
                self.conflicts == orig.conflicts,
                self.conflicts_since_last_forget == orig.conflicts_since_last_forget,
                self.forgets == orig.forgets,
            decreases self.trail@.len(),
        {
            let ghost pre_len = self.trail@.len() as int;
            let e = match self.trail.pop() {
                Some(e) => e,
                None => {
                    proof {
                        assert(false);
                    }
                    return ;
                },
            };
            proof {
                assert(e == orig.trail@[pre_len - 1]);
                assert(self.trail@ =~= orig.trail@.subrange(0, pre_len - 1));
                assert(e.lit.v_id < orig.n()) by {
                    assert(orig.trail@[pre_len - 1].lit.v_id < orig.n());
                }
                assert(var_in_prefix(orig.trail@, pre_len, e.lit.v_id as int));
                assert(self.valuation@[e.lit.v_id as int] == orig.valuation@[e.lit.v_id as int]);
            }
            let v_id = e.lit.v_id;
            self.valuation.clear_v_id(v_id);
            self.variables[v_id].clear_decision_level();
            proof {
                let post = *self;
                let len = pre_len - 1;
                // the popped variable appears nowhere in the shorter prefix
                assert forall|j: int| 0 <= j < len implies (#[trigger] orig.trail@[j]).lit.v_id
                    != v_id by {
                    assert(orig.trail@[j].lit.v_id != orig.trail@[pre_len - 1].lit.v_id);
                }
                assert(!var_in_prefix(orig.trail@, len, v_id as int));
                assert forall|v: int|
                    #![trigger var_in_prefix(orig.trail@, len, v)]
                    0 <= v < orig.n() && var_in_prefix(orig.trail@, len, v) implies
                    post.valuation@[v] == orig.valuation@[v] && post.variables@[v]
                    == orig.variables@[v] by {
                    assert(v != v_id as int);
                    assert(var_in_prefix(orig.trail@, pre_len, v)) by {
                        let j = choose|j: int|
                            0 <= j < len && (#[trigger] orig.trail@[j]).lit.v_id == v;
                        assert(0 <= j < pre_len && orig.trail@[j].lit.v_id == v);
                    }
                }
                assert forall|v: int|
                    #![trigger var_in_prefix(orig.trail@, len, v)]
                    0 <= v < orig.n() && !var_in_prefix(orig.trail@, len, v) implies
                    post.valuation@[v] is None && post.variables@[v] == (Variable {
                    decision_level: None,
                    ..orig.variables@[v]
                }) by {
                    if v == v_id as int {
                        assert(var_in_prefix(orig.trail@, pre_len, v));
                        assert(post.variables@[v] == (Variable {
                            decision_level: None,
                            ..orig.variables@[v]
                        }));
                    } else {
                        assert(!var_in_prefix(orig.trail@, pre_len, v)) by {
                            if var_in_prefix(orig.trail@, pre_len, v) {
                                let j = choose|j: int|
                                    0 <= j < pre_len && (#[trigger] orig.trail@[j]).lit.v_id == v;
                                assert(0 <= j < len && orig.trail@[j].lit.v_id == v);
                            }
                        }
                    }
                }
                assert(pop_shape(orig, post, len));
            }
        }
        self.levels.truncate(b + 1);
        self.qhead = self.trail.len();
        proof {
            assert(self.trail@.len() == keep);
            assert(self.levels@ =~= orig.levels@.subrange(0, b + 1));
            assert(pop_shape(orig, *self, keep as int));
            lemma_backjump_wf(orig, *self, b as int);
            assert(self.trail@ =~= orig.trail@.subrange(0, keep as int));
        }
    }
}

} // verus!
