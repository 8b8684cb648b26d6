//! Watched-literal propagation.  Entries of the trail that have not been
//! propagated are processed in order: each newly false literal's watch list
//! is walked, watches are moved to non-false literals where possible, unit
//! consequences are pushed onto the trail, and a clause with no non-false
//! literal left is reported as a conflict.

use vstd::prelude::*;

use crate::learnt_store::store_slots;
use crate::literal::Literal;
use crate::solve::base::{LiteralSource, Solve};
use crate::stored_clause::{ClauseKey, Watch};
use crate::valuation::{lit_false, lit_true};

use vstd::set_lib::lemma_int_range;
use vstd::set_lib::lemma_len_subset;
use vstd::set_lib::set_int_range;

verus! {

/// What a propagation pass ended with.
pub enum PropagateOutcome {
    /// The queue is empty and the watch condition holds of every live
    /// clause.
    Fixpoint,
    /// The named clause is falsified.
    Conflict(ClauseKey),
    /// The queue is empty but the watch condition failed its validation: an
    /// internal fault, never recovered.
    Fault,
}

/// What one visit of a watch-list slot did.
enum WatchStep {
    /// The clause stays on this list; move to the next slot.
    Kept,
    /// The handle left this list (stale, or the watch moved).
    Removed,
    /// The clause is falsified.
    Conflict(ClauseKey),
}

impl Solve {
    /// Clause `k` is live, every literal of it is false, and one of its
    /// variables was assigned at the current decision level.
    pub open spec fn conflict_on(&self, k: ClauseKey) -> bool {
        &&& self.key_valid(k)
        &&& self.key_lits(k).len() >= 1
        &&& forall|x: int|
            0 <= x < self.key_lits(k).len() ==> lit_false(
                self.valuation@,
                #[trigger] self.key_lits(k)[x],
            )
        &&& exists|x: int|
            0 <= x < self.key_lits(k).len()
                && self.variables@[(#[trigger] self.key_lits(k)[x]).v_id as int].decision_level
                == Some((self.levels@.len() - 1) as usize)
    }

    /// The trail assigns each variable at most once, so it is no longer than
    /// the variable count.
    pub proof fn lemma_trail_len_bound(&self)
        requires
            self.wf(),
        ensures
            self.trail@.len() <= self.n(),
    {
        let vs = self.trail@.map_values(|e: crate::solve::base::TrailEntry| e.lit.v_id as int);
        assert(vs.no_duplicates()) by {
            assert forall|i: int, j: int| 0 <= i < j < vs.len() implies vs[i] != vs[j] by {
                assert(self.trail@[i].lit.v_id != self.trail@[j].lit.v_id);
            }
        }
        vs.unique_seq_to_set();
        let rng = set_int_range(0, self.n() as int);
        assert(vs.to_set().subset_of(rng)) by {
            assert forall|x: int| vs.to_set().contains(x) implies rng.contains(x) by {
                let i = choose|i: int| 0 <= i < vs.len() && vs[i] == x;
                assert(self.trail@[i].lit.v_id < self.n());
            }
        }
        lemma_int_range(0, self.n() as int);
        lemma_len_subset(vs.to_set(), rng);
    }

    /// An index of a non-false literal of `k` other than position `excl`, if
    /// one exists.
    fn find_nonfalse_excluding(&self, k: ClauseKey, excl: usize) -> (r: Option<usize>)
        requires
            self.wf(),
            self.key_valid(k),
        ensures
            match r {
                Some(x) => x < self.key_lits(k).len() && x != excl && !lit_false(
                    self.valuation@,
                    self.key_lits(k)[x as int],
                ),
                None => forall|x: int|
                    0 <= x < self.key_lits(k).len() && x != excl ==> lit_false(
                        self.valuation@,
                        #[trigger] self.key_lits(k)[x],
                    ),
            },
    {
        proof {
            self.lemma_key_lits_wf(k);
        }
        let c = self.clause_ref(k);
        let len = c.lits.len();
        let mut x: usize = 0;
        while x < len
            invariant
                x <= len,
                len == self.key_lits(k).len(),
                *c == self.key_clause(k),
                self.valuation@.len() == self.n(),
                crate::clause::clause_wf(self.key_lits(k), self.n()),
                forall|y: int|
                    0 <= y < x && y != excl ==> lit_false(
                        self.valuation@,
                        #[trigger] self.key_lits(k)[y],
                    ),
            decreases len - x,
        {
            if x != excl {
                let l = c.lits[x];
                let falsified = match self.valuation.of_v_id(l.v_id) {
                    Some(p) => p != l.polarity,
                    None => false,
                };
                if !falsified {
                    return Some(x);
                }
            }
            x = x + 1;
        }
        None
    }

    /// Everything a single propagation pass leaves unchanged.
    pub open spec fn frame_propagation(&self, pre: &Solve) -> bool {
        &&& self.config == pre.config
        &&& self.formula == pre.formula
        &&& self.levels == pre.levels
        &&& self.formula_clauses@.len() == pre.formula_clauses@.len()
        &&& self.lm().dom() == pre.lm().dom()
        &&& self.key_lits_same(pre)
        &&& store_slots(self.learnt_clauses) == store_slots(pre.learnt_clauses)
        &&& self.next_learnt_id == pre.next_learnt_id
        &&& self.iterations == pre.iterations
        &&& self.conflicts == pre.conflicts
        &&& self.conflicts_since_last_forget == pre.conflicts_since_last_forget
        &&& self.forgets == pre.forgets
        &&& self.ingested() == pre.ingested()
    }

    /// The frame relation composes.
    pub proof fn lemma_frame_propagation_trans(a: Solve, b: Solve, c: Solve)
        requires
            b.frame_propagation(&a),
            c.frame_propagation(&b),
        ensures
            c.frame_propagation(&a),
    {
        assert forall|k2: ClauseKey| a.key_valid(k2) implies c.key_valid(k2)
            && #[trigger] c.key_lits(k2) == a.key_lits(k2) by {
            assert(b.key_valid(k2) && b.key_lits(k2) == a.key_lits(k2));
            assert(c.key_valid(k2) && c.key_lits(k2) == b.key_lits(k2));
        }
    }

    /// Move the falsified watch of `k` to position `x` and transfer the
    /// handle from this watch list to the new literal's.
    #[verifier::rlimit(100)]
    fn move_watch(
        &mut self,
        v: usize,
        wl_pol: bool,
        i: usize,
        k: ClauseKey,
        my: Watch,
        my_idx: usize,
        x: usize,
    )
        requires
            old(self).wf(),
            v < old(self).n(),
            i < old(self).watch_list(v as int, wl_pol).len(),
            old(self).key_valid(k),
            x < old(self).key_lits(k).len(),
            my_idx < old(self).key_lits(k).len(),
            old(self).key_lits(k)[my_idx as int].v_id == v,
            crate::clause::clause_wf(old(self).key_lits(k), old(self).n()),
            old(self).key_lits(k).len() >= 2 ==> match my {
                Watch::A => x != old(self).key_clause(k).watch_b,
                Watch::B => x != old(self).key_clause(k).watch_a,
            },
            old(self).key_lits(k)[x as int].v_id != v,
        ensures
            final(self).wf(),
            final(self).frame_propagation(old(self)),
            final(self).qhead == old(self).qhead,
            final(self).trail == old(self).trail,
            final(self).valuation == old(self).valuation,
            final(self).watch_list(v as int, wl_pol).len() == old(self).watch_list(
                v as int,
                wl_pol,
            ).len() - 1,
    {
        let ghost orig = *self;
        let ghost pre = *self;
        let xl = {
            let c = self.clause_ref(k);
            c.lits[x]
        };
        self.set_clause_watch(k, my, x);
        proof {
            assert(self.key_lits(k) == pre.key_lits(k));
            assert(xl.v_id < self.n());
        }
        let ghost mid = *self;
        proof {
            assert(mid.frame_propagation(&orig));
        }
        self.register_watch(xl.v_id, xl.polarity, k);
        let ghost mid2 = *self;
        proof {
            assert(mid2.frame_propagation(&mid)) by {
                assert(mid2.key_lits_same(&mid)) by {
                    assert forall|k2: ClauseKey| mid.key_valid(k2) implies mid2.key_valid(k2)
                        && #[trigger] mid2.key_lits(k2) == mid.key_lits(k2) by {
                        match k2 {
                            ClauseKey::Formula(j2) => {
                                assert(mid2.formula_clauses@[j2 as int]
                                    == mid.formula_clauses@[j2 as int]);
                            },
                            ClauseKey::Learnt(_) => {},
                        }
                    }
                }
            }
            Self::lemma_frame_propagation_trans(orig, mid, mid2);
            assert(mid2.watch_list(v as int, wl_pol) == orig.watch_list(v as int, wl_pol));
        }
        self.unregister_watch(v, wl_pol, i);
        proof {
            let post = *self;
            assert(post.frame_propagation(&mid2)) by {
                assert(post.key_lits_same(&mid2)) by {
                    assert forall|k2: ClauseKey| mid2.key_valid(k2) implies post.key_valid(k2)
                        && #[trigger] post.key_lits(k2) == mid2.key_lits(k2) by {
                        match k2 {
                            ClauseKey::Formula(j2) => {
                                assert(post.formula_clauses@[j2 as int]
                                    == mid2.formula_clauses@[j2 as int]);
                            },
                            ClauseKey::Learnt(_) => {},
                        }
                    }
                }
            }
            Self::lemma_frame_propagation_trans(orig, mid2, post);
        }
    }

    /// Process slot `i` of the watch list of `(v, wl_pol)`, whose literal
    /// was just falsified by the trail entry at the propagation head.
    #[verifier::rlimit(100)]
    #[verifier::spinoff_prover]
    fn propagate_watch(&mut self, v: usize, wl_pol: bool, i: usize) -> (r: WatchStep)
        requires
            old(self).wf(),
            v < old(self).n(),
            i < old(self).watch_list(v as int, wl_pol).len(),
            old(self).qhead < old(self).trail@.len(),
            old(self).trail@[old(self).qhead as int].lit == (Literal {
                v_id: v,
                polarity: !wl_pol,
            }),
        ensures
            final(self).wf(),
            final(self).frame_propagation(old(self)),
            final(self).qhead == old(self).qhead,
            final(self).trail@.len() >= old(self).trail@.len(),
            forall|j: int|
                0 <= j < old(self).trail@.len() ==> final(self).trail@[j] == old(self).trail@[j],
            forall|j: int|
                old(self).trail@.len() <= j < final(self).trail@.len() ==> (
                #[trigger] final(self).trail@[j]).source is StoredClause,
            forall|u: int|
                0 <= u < old(self).n() && old(self).valuation@[u] is Some
                    ==> #[trigger] final(self).valuation@[u] == old(self).valuation@[u],
            match r {
                WatchStep::Kept => final(self).watch_list(v as int, wl_pol) == old(self).watch_list(
                    v as int,
                    wl_pol,
                ),
                WatchStep::Removed => final(self).watch_list(v as int, wl_pol).len() == old(
                    self,
                ).watch_list(v as int, wl_pol).len() - 1,
                WatchStep::Conflict(k) => final(self).conflict_on(k),
            },
    {
        let ghost orig = *self;
        let k = self.watch_list_get(v, wl_pol, i);
        if !self.key_live(k) {
            // a handle left behind by clause reduction: drop it
            self.unregister_watch(v, wl_pol, i);
            return WatchStep::Removed;
        }
        proof {
            self.lemma_key_lits_wf(k);
        }
        let (len, wa, wb) = {
            let c = self.clause_ref(k);
            (c.lits.len(), c.watch_a, c.watch_b)
        };
        let la = {
            let c = self.clause_ref(k);
            c.lits[wa]
        };
        let lb = {
            let c = self.clause_ref(k);
            c.lits[wb]
        };
        // which watch position was falsified?
        let (my, my_idx, other_idx, other_lit) = if la.v_id == v && la.polarity == wl_pol {
            (Watch::A, wa, wb, lb)
        } else if lb.v_id == v && lb.polarity == wl_pol {
            (Watch::B, wb, wa, la)
        } else {
            // stale watch information: drop the handle
            self.unregister_watch(v, wl_pol, i);
            return WatchStep::Removed;
        };
        proof {
            assert(lit_true(self.valuation@, self.trail@[self.qhead as int].lit));
            assert(self.key_lits(k)[my_idx as int] == (Literal { v_id: v, polarity: wl_pol }));
            assert(lit_false(self.valuation@, self.key_lits(k)[my_idx as int]));
            assert(other_lit == self.key_lits(k)[other_idx as int]);
            assert(other_lit.v_id < self.n());
        }
        // if the other watched literal is true the clause is satisfied
        let other_val = self.valuation.of_v_id(other_lit.v_id);
        let other_true = match other_val {
            Some(p) => p == other_lit.polarity,
            None => false,
        };
        if other_true {
            return WatchStep::Kept;
        }
        match self.find_nonfalse_excluding(k, other_idx) {
            Some(x) => {
                proof {
                    assert(self.key_lits(k)[x as int].v_id != self.key_lits(
                        k,
                    )[my_idx as int].v_id);
                }
                self.move_watch(v, wl_pol, i, k, my, my_idx, x);
                WatchStep::Removed
            },
            None => {
                // every literal but the other watch is false
                if other_val.is_none() {
                    // unit: the clause forces the other watched literal
                    let ghost pre = *self;
                    proof {
                        assert forall|x: int|
                            0 <= x < self.key_lits(k).len() && #[trigger] self.key_lits(k)[x]
                                != other_lit implies lit_false(
                            self.valuation@,
                            self.key_lits(k)[x],
                        ) by {
                            if x == other_idx as int {
                                assert(self.key_lits(k)[x] == other_lit);
                            }
                        }
                        assert(self.source_ok(other_lit, LiteralSource::StoredClause(k)));
                    }
                    self.set_literal(other_lit, LiteralSource::StoredClause(k));
                    proof {
                        let post = *self;
                        assert(post.frame_propagation(&pre)) by {
                            assert(post.key_lits_same(&pre)) by {
                                assert forall|k2: ClauseKey| pre.key_valid(k2) implies
                                    post.key_valid(k2) && #[trigger] post.key_lits(k2)
                                    == pre.key_lits(k2) by {
                                    match k2 {
                                        ClauseKey::Formula(j2) => {
                                            assert(post.formula_clauses@[j2 as int]
                                                == pre.formula_clauses@[j2 as int]);
                                        },
                                        ClauseKey::Learnt(_) => {},
                                    }
                                }
                            }
                        }
                        assert(post.watch_list(v as int, wl_pol) == pre.watch_list(
                            v as int,
                            wl_pol,
                        ));
                    }
                    WatchStep::Kept
                } else {
                    // the other watch is false as well: conflict
                    proof {
                        assert(lit_false(self.valuation@, other_lit));
                        assert forall|x: int|
                            0 <= x < self.key_lits(k).len() implies lit_false(
                            self.valuation@,
                            #[trigger] self.key_lits(k)[x],
                        ) by {
                            if x == other_idx as int {
                                assert(self.key_lits(k)[x] == other_lit);
                            }
                        }
                        assert(self.trail@[self.qhead as int].level == self.current_level());
                        assert(self.variables@[v as int].decision_level == Some(
                            (self.levels@.len() - 1) as usize,
                        ));
                        assert(self.key_lits(k)[my_idx as int].v_id == v);
                        assert(self.conflict_on(k));
                    }
                    WatchStep::Conflict(k)
                }
            },
        }
    }

    /// Mark the entry at the propagation head processed.
    fn advance_qhead(&mut self)
        requires
            old(self).wf(),
            old(self).qhead < old(self).trail@.len(),
        ensures
            final(self).wf(),
            final(self).qhead == old(self).qhead + 1,
            final(self).trail == old(self).trail,
            final(self).valuation == old(self).valuation,
            final(self).frame_propagation(old(self)),
    {
        let ghost before = *self;
        let tlen = self.trail.len();
        self.qhead = self.qhead + 1;
        proof {
            assert(self.wf_dims());
            assert(self.wf_formula_store());
            assert(self.wf_learnt());
            Self::lemma_wf_trail_transfer(before, *self);
            assert forall|j: int|
                self.qhead <= j < self.trail@.len() implies (#[trigger] self.trail@[j]).level
                == self.current_level() by {
                assert(before.qhead <= j < before.trail@.len());
                assert(before.trail@[j].level == before.current_level());
                assert(self.current_level() == before.current_level());
            }
            assert(self.wf_levels());
            assert forall|i: int|
                0 <= i < before.trail@.len() implies match (#[trigger] before.trail@[i]).source {
                LiteralSource::StoredClause(k2) => self.key_valid(k2) && self.key_lits(k2)
                    == before.key_lits(k2),
                _ => true,
            } by {
                assert(before.entry_just(i));
                match before.trail@[i].source {
                    LiteralSource::StoredClause(k2) => {
                        assert(before.key_valid(k2));
                    },
                    _ => {},
                }
            }
            crate::solve::watching::lemma_sources_preserved(before, *self);
            assert(self.wf_watch_lists());
            assert(self.frame_propagation(&before)) by {
                assert forall|k2: ClauseKey| before.key_valid(k2) implies self.key_valid(k2)
                    && #[trigger] self.key_lits(k2) == before.key_lits(k2) by {
                    match k2 {
                        ClauseKey::Formula(j2) => {
                            assert(self.formula_clauses@[j2 as int]
                                == before.formula_clauses@[j2 as int]);
                        },
                        ClauseKey::Learnt(_) => {},
                    }
                }
            }
        }
    }

    /// Run propagation to fixpoint or to the first conflict.  A fixpoint is
    /// validated: every live clause then has a true watched literal or two
    /// unassigned ones; a failed validation is surfaced as a fault.
    pub fn propagate(&mut self) -> (r: PropagateOutcome)
        requires
            old(self).wf(),
        ensures
            final(self).wf(),
            final(self).frame_propagation(old(self)),
            final(self).trail@.len() >= old(self).trail@.len(),
            forall|j: int|
                0 <= j < old(self).trail@.len() ==> final(self).trail@[j] == old(self).trail@[j],
            forall|j: int|
                old(self).trail@.len() <= j < final(self).trail@.len() ==> (
                #[trigger] final(self).trail@[j]).source is StoredClause,
            forall|u: int|
                0 <= u < old(self).n() && old(self).valuation@[u] is Some
                    ==> #[trigger] final(self).valuation@[u] == old(self).valuation@[u],
            match r {
                PropagateOutcome::Fixpoint => final(self).qhead == final(self).trail@.len()
                    && final(self).watch_fixpoint_inv(),
                PropagateOutcome::Conflict(k) => final(self).conflict_on(k),
                PropagateOutcome::Fault => final(self).qhead == final(self).trail@.len()
                    && !final(self).watch_fixpoint_inv(),
            },
    {
        let ghost orig = *self;
        loop
            invariant
                self.wf(),
                self.frame_propagation(&orig),
                orig == *old(self),
                self.trail@.len() >= orig.trail@.len(),
                forall|j: int| 0 <= j < orig.trail@.len() ==> self.trail@[j] == orig.trail@[j],
                forall|j: int|
                    orig.trail@.len() <= j < self.trail@.len() ==> (
                    #[trigger] self.trail@[j]).source is StoredClause,
                forall|u: int|
                    0 <= u < orig.n() && orig.valuation@[u] is Some
                        ==> #[trigger] self.valuation@[u] == orig.valuation@[u],
            ensures
                self.wf(),
                self.frame_propagation(&orig),
                self.qhead == self.trail@.len(),
                self.trail@.len() >= orig.trail@.len(),
                forall|j: int| 0 <= j < orig.trail@.len() ==> self.trail@[j] == orig.trail@[j],
                forall|j: int|
                    orig.trail@.len() <= j < self.trail@.len() ==> (
                    #[trigger] self.trail@[j]).source is StoredClause,
                forall|u: int|
                    0 <= u < orig.n() && orig.valuation@[u] is Some
                        ==> #[trigger] self.valuation@[u] == orig.valuation@[u],
            decreases self.n() - self.qhead,
        {
            proof {
                self.lemma_trail_len_bound();
            }
            if self.qhead >= self.trail.len() {
                break ;
            }
            let entry_lit = self.trail[self.qhead].lit;
            let v = entry_lit.v_id;
            let wl_pol = !entry_lit.polarity;
            proof {
                assert(v < self.n());
            }
            let ghost pre_outer = *self;
            let mut i: usize = 0;
            let mut conflict: Option<ClauseKey> = None;
            loop
                invariant_except_break
                    conflict is None,
                    i <= self.watch_list(v as int, wl_pol).len(),
                invariant
                    self.wf(),
                    self.frame_propagation(&orig),
                    v < self.n(),
                    self.qhead == pre_outer.qhead,
                    self.qhead < self.trail@.len(),
                    self.trail@[self.qhead as int].lit == entry_lit,
                    entry_lit == (Literal { v_id: v, polarity: !wl_pol }),
                    self.trail@.len() >= orig.trail@.len(),
                    forall|j: int| 0 <= j < orig.trail@.len() ==> self.trail@[j] == orig.trail@[j],
                    forall|j: int|
                        orig.trail@.len() <= j < self.trail@.len() ==> (
                        #[trigger] self.trail@[j]).source is StoredClause,
                    forall|u: int|
                        0 <= u < orig.n() && orig.valuation@[u] is Some
                            ==> #[trigger] self.valuation@[u] == orig.valuation@[u],
                ensures
                    self.wf(),
                    self.frame_propagation(&orig),
                    self.qhead == pre_outer.qhead,
                    self.qhead < self.trail@.len(),
                    self.trail@.len() >= orig.trail@.len(),
                    forall|j: int| 0 <= j < orig.trail@.len() ==> self.trail@[j] == orig.trail@[j],
                    forall|j: int|
                        orig.trail@.len() <= j < self.trail@.len() ==> (
                        #[trigger] self.trail@[j]).source is StoredClause,
                    forall|u: int|
                        0 <= u < orig.n() && orig.valuation@[u] is Some
                            ==> #[trigger] self.valuation@[u] == orig.valuation@[u],
                    match conflict {
                        Some(k) => self.conflict_on(k),
                        None => true,
                    },
                decreases self.watch_list(v as int, wl_pol).len() - i,
            {
                let wlen = self.watch_list_len(v, wl_pol);
                if i >= wlen {
                    break ;
                }
                let ghost pre_step = *self;
                let step = self.propagate_watch(v, wl_pol, i);
                proof {
                    Self::lemma_frame_propagation_trans(orig, pre_step, *self);
                }
                match step {
                    WatchStep::Kept => {
                        i = i + 1;
                    },
                    WatchStep::Removed => {},
                    WatchStep::Conflict(k) => {
                        conflict = Some(k);
                        break ;
                    },
                }
            }
            if let Some(k) = conflict {
                return PropagateOutcome::Conflict(k);
            }
            let ghost pre_adv = *self;
            self.advance_qhead();
            proof {
                Self::lemma_frame_propagation_trans(orig, pre_adv, *self);
                assert forall|j: int| 0 <= j < orig.trail@.len() implies self.trail@[j]
                    == orig.trail@[j] by {
                    assert(pre_adv.trail@[j] == orig.trail@[j]);
                }
                assert forall|j: int|
                    orig.trail@.len() <= j < self.trail@.len() implies (
                #[trigger] self.trail@[j]).source is StoredClause by {
                    assert(pre_adv.trail@[j].source is StoredClause);
                }
                assert forall|u: int|
                    0 <= u < orig.n() && orig.valuation@[u] is Some implies
                    #[trigger] self.valuation@[u] == orig.valuation@[u] by {
                    assert(pre_adv.valuation@[u] == orig.valuation@[u]);
                }
            }
        }
        if self.check_watch_invariant() {
            PropagateOutcome::Fixpoint
        } else {
            PropagateOutcome::Fault
        }
    }
}

} // verus!
