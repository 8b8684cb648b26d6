//! Access to stored clauses through their handles, and maintenance of the
//! per-variable watch lists.

use vstd::prelude::*;

use crate::learnt_store::{
    learnt_store_get, learnt_store_replace, store_map, store_slots,
};
use crate::literal::Literal;
use crate::solve::base::{LiteralSource, Solve};
use crate::stored_clause::{ClauseKey, StoredClause, Watch};
use crate::variable::Variable;

use vstd::pervasive::unreached;

verus! {

/// Entry `i`'s justification carries over to a state with the same trail when
/// the entry's own clause is still live and unchanged.
pub proof fn lemma_sources_preserved(pre: Solve, post: Solve)
    requires
        pre.wf_sources(),
        post.trail@ == pre.trail@,
        post.formula == pre.formula,
        post.formula_clauses@.len() >= pre.formula_clauses@.len(),
        forall|i: int|
            0 <= i < pre.trail@.len() ==> match (#[trigger] pre.trail@[i]).source {
                LiteralSource::StoredClause(k) => post.key_valid(k) && post.key_lits(k)
                    == pre.key_lits(k),
                _ => true,
            },
    ensures
        post.wf_sources(),
{
    assert forall|i: int| 0 <= i < post.trail@.len() implies #[trigger] post.entry_just(i) by {
        assert(pre.entry_just(i));
        assert(post.trail@[i] == pre.trail@[i]);
        match pre.trail@[i].source {
            LiteralSource::StoredClause(k) => {
                assert(post.key_lits(k) == pre.key_lits(k));
                let x0 = choose|x: int|
                    0 <= x < pre.key_lits(k).len() && #[trigger] pre.key_lits(k)[x]
                        == pre.trail@[i].lit;
                assert(post.key_lits(k)[x0] == post.trail@[i].lit);
                assert forall|x: int|
                    0 <= x < post.key_lits(k).len() && #[trigger] post.key_lits(k)[x]
                        != post.trail@[i].lit implies exists|j: int|
                    0 <= j < i && (#[trigger] post.trail@[j]).lit == post.key_lits(
                        k,
                    )[x].spec_negate() by {
                    assert(pre.key_lits(k)[x] != pre.trail@[i].lit);
                    let j = choose|j: int|
                        0 <= j < i && (#[trigger] pre.trail@[j]).lit == pre.key_lits(
                            k,
                        )[x].spec_negate();
                    assert(post.trail@[j].lit == post.key_lits(k)[x].spec_negate());
                }
            },
            _ => {},
        }
    }
}


/// A state that changed only the watch positions of one stored clause keeps
/// the solver invariant.
proof fn lemma_clause_update_wf(pre: Solve, post: Solve, k: ClauseKey)
    requires
        pre.wf(),
        pre.key_valid(k),
        post.frame_clause_update(&pre, k),
        post.key_clause(k).watches_wf(),
    ensures
        post.wf(),
        post.key_lits_same(&pre),
{
    assert(post.key_lits_same(&pre)) by {
        assert forall|k2: ClauseKey| pre.key_valid(k2) implies post.key_valid(k2)
            && #[trigger] post.key_lits(k2) == pre.key_lits(k2) by {
            match k2 {
                ClauseKey::Formula(j2) => {
                    if !(k is Formula && j2 == k->Formula_0) {
                        assert(post.formula_clauses@[j2 as int] == pre.formula_clauses@[j2 as int]);
                    } else {
                        assert(post.key_clause(k).lits@ == pre.key_clause(k).lits@);
                    }
                },
                ClauseKey::Learnt(dk2) => {
                    if !(k is Learnt && dk2 == k->Learnt_0) {
                        assert(post.lm()[dk2] == pre.lm()[dk2]);
                    } else {
                        assert(post.key_clause(k).lits@ == pre.key_clause(k).lits@);
                    }
                },
            }
        }
    }
    assert(post.wf_dims());
    assert(post.wf_formula_store()) by {
        assert forall|j2: int| 0 <= j2 < post.formula_clauses@.len() implies {
            &&& (#[trigger] post.formula_clauses@[j2]).lits@ == post.fml()[j2]
            &&& post.formula_clauses@[j2].watches_wf()
            &&& post.formula_clauses@[j2].source == crate::stored_clause::ClauseSource::Formula
        } by {
            if k is Formula && j2 == k->Formula_0 as int {
                assert(post.formula_clauses@[j2] == post.key_clause(k));
                assert(pre.formula_clauses@[j2] == pre.key_clause(k));
                assert(post.key_clause(k).lits@ == pre.key_clause(k).lits@);
            } else {
                assert(post.formula_clauses@[j2] == pre.formula_clauses@[j2]);
            }
        }
    }
    assert(post.wf_learnt()) by {
        assert forall|dk2: slotmap::DefaultKey| post.lm().dom().contains(dk2) implies {
            &&& (#[trigger] post.lm()[dk2]).wf(post.n())
            &&& post.lm()[dk2].source == crate::stored_clause::ClauseSource::Resolution
            &&& crate::semantics::entails_on(
                post.fml(),
                post.n(),
                post.lm()[dk2].origins@,
                post.lm()[dk2].lits@,
            )
            &&& forall|oi: int|
                0 <= oi < post.lm()[dk2].origins@.len() ==> #[trigger] post.lm()[dk2].origins@[oi]
                    < post.fml().len()
            &&& post.lm()[dk2].id < post.next_learnt_id
        } by {
            if k is Learnt && dk2 == k->Learnt_0 {
                assert(post.lm()[dk2] == post.key_clause(k));
                assert(pre.lm()[dk2] == pre.key_clause(k));
                assert(post.key_clause(k).lits@ == pre.key_clause(k).lits@);
                assert(post.key_clause(k).origins@ == pre.key_clause(k).origins@);
                assert(pre.lm()[dk2].wf(pre.n()));
            } else {
                assert(post.lm()[dk2] == pre.lm()[dk2]);
            }
        }
        assert forall|dk1: slotmap::DefaultKey, dk2: slotmap::DefaultKey|
            post.lm().dom().contains(dk1) && post.lm().dom().contains(dk2) && dk1
                != dk2 implies (#[trigger] post.lm()[dk1]).id != (#[trigger] post.lm()[dk2]).id by {
            assert(pre.lm()[dk1].id != pre.lm()[dk2].id);
            if k is Learnt {
                let dk = k->Learnt_0;
                if dk1 == dk {
                    assert(post.lm()[dk1].id == pre.lm()[dk1].id);
                } else {
                    assert(post.lm()[dk1] == pre.lm()[dk1]);
                }
                if dk2 == dk {
                    assert(post.lm()[dk2].id == pre.lm()[dk2].id);
                } else {
                    assert(post.lm()[dk2] == pre.lm()[dk2]);
                }
            }
        }
    }
    Solve::lemma_wf_trail_transfer(pre, post);
    Solve::lemma_wf_levels_transfer(pre, post);
    assert(post.wf_sources()) by {
        assert forall|i: int|
            0 <= i < pre.trail@.len() implies match (#[trigger] pre.trail@[i]).source {
            LiteralSource::StoredClause(k2) => post.key_valid(k2) && post.key_lits(k2)
                == pre.key_lits(k2),
            _ => true,
        } by {
            assert(pre.entry_just(i));
            match pre.trail@[i].source {
                LiteralSource::StoredClause(k2) => {
                    assert(pre.key_valid(k2));
                    assert(post.key_lits(k2) == pre.key_lits(k2));
                },
                _ => {},
            }
        }
        lemma_sources_preserved(pre, post);
    }
    assert(post.wf_watch_lists());
}

impl Solve {
    /// The watch list of the literal `(v, polarity)`.
    pub open spec fn watch_list(&self, v: int, polarity: bool) -> Seq<ClauseKey> {
        if polarity {
            self.variables@[v].positive_watches@
        } else {
            self.variables@[v].negative_watches@
        }
    }

    pub fn watch_list_len(&self, v: usize, polarity: bool) -> (r: usize)
        requires
            v < self.variables@.len(),
        ensures
            r == self.watch_list(v as int, polarity).len(),
    {
        if polarity {
            self.variables[v].positive_watches.len()
        } else {
            self.variables[v].negative_watches.len()
        }
    }

    pub fn watch_list_get(&self, v: usize, polarity: bool, x: usize) -> (r: ClauseKey)
        requires
            v < self.variables@.len(),
            x < self.watch_list(v as int, polarity).len(),
        ensures
            r == self.watch_list(v as int, polarity)[x as int],
    {
        if polarity {
            self.variables[v].positive_watches[x]
        } else {
            self.variables[v].negative_watches[x]
        }
    }

    /// Everything except the two watch lists of variable `v` is unchanged.
    pub open spec fn frame_watch_lists(&self, pre: &Solve, v: int) -> bool {
        &&& self.config == pre.config
        &&& self.formula == pre.formula
        &&& self.valuation == pre.valuation
        &&& self.trail == pre.trail
        &&& self.levels == pre.levels
        &&& self.qhead == pre.qhead
        &&& self.formula_clauses == pre.formula_clauses
        &&& self.lm() == pre.lm()
        &&& store_slots(self.learnt_clauses) == store_slots(pre.learnt_clauses)
        &&& self.next_learnt_id == pre.next_learnt_id
        &&& self.iterations == pre.iterations
        &&& self.conflicts == pre.conflicts
        &&& self.conflicts_since_last_forget == pre.conflicts_since_last_forget
        &&& self.forgets == pre.forgets
        &&& self.variables@.len() == pre.variables@.len()
        &&& forall|u: int|
            0 <= u < pre.variables@.len() && u != v ==> #[trigger] self.variables@[u]
                == pre.variables@[u]
        &&& 0 <= v < pre.variables@.len() ==> self.variables@[v] == (Variable {
            positive_watches: self.variables@[v].positive_watches,
            negative_watches: self.variables@[v].negative_watches,
            ..pre.variables@[v]
        })
    }

    #[verifier::rlimit(60)]
    proof fn lemma_watch_list_frame_wf(pre: Solve, post: Solve, v: int)
        requires
            pre.wf(),
            post.frame_watch_lists(&pre, v),
            0 <= v < pre.n(),
            forall|x: int|
                0 <= x < post.watch_list(v, true).len() ==> post.key_in_frange(
                    #[trigger] post.watch_list(v, true)[x],
                ),
            forall|x: int|
                0 <= x < post.watch_list(v, false).len() ==> post.key_in_frange(
                    #[trigger] post.watch_list(v, false)[x],
                ),
        ensures
            post.wf(),
    {
        assert(post.wf_dims());
        assert(post.wf_formula_store());
        assert(post.wf_learnt());
        assert forall|u: int| 0 <= u < pre.variables@.len() implies (
        #[trigger] post.variables@[u]).decision_level == pre.variables@[u].decision_level by {
            if u != v {
                assert(post.variables@[u] == pre.variables@[u]);
            }
        }
        Solve::lemma_wf_trail_transfer(pre, post);
        Solve::lemma_wf_levels_transfer(pre, post);
        assert(post.wf_trail());
        assert(post.wf_levels());
        assert forall|i: int|
            0 <= i < pre.trail@.len() implies match (#[trigger] pre.trail@[i]).source {
            LiteralSource::StoredClause(k2) => post.key_valid(k2) && post.key_lits(k2)
                == pre.key_lits(k2),
            _ => true,
        } by {
            assert(pre.entry_just(i));
            match pre.trail@[i].source {
                LiteralSource::StoredClause(k2) => {
                    assert(pre.key_valid(k2));
                },
                _ => {},
            }
        }
        lemma_sources_preserved(pre, post);
        assert(post.wf_watch_lists()) by {
            assert forall|u: int, x: int|
                0 <= u < post.n() && 0 <= x
                    < post.variables@[u].positive_watches@.len() implies post.key_in_frange(
                #[trigger] post.variables@[u].positive_watches@[x],
            ) by {
                if u != v {
                    assert(post.variables@[u] == pre.variables@[u]);
                    assert(pre.key_in_frange(pre.variables@[u].positive_watches@[x]));
                } else {
                    assert(post.key_in_frange(post.watch_list(v, true)[x]));
                }
            }
            assert forall|u: int, x: int|
                0 <= u < post.n() && 0 <= x
                    < post.variables@[u].negative_watches@.len() implies post.key_in_frange(
                #[trigger] post.variables@[u].negative_watches@[x],
            ) by {
                if u != v {
                    assert(post.variables@[u] == pre.variables@[u]);
                    assert(pre.key_in_frange(pre.variables@[u].negative_watches@[x]));
                } else {
                    assert(post.key_in_frange(post.watch_list(v, false)[x]));
                }
            }
        }
    }

    /// Register handle `k` on the watch list of `(v, polarity)`.
    pub fn register_watch(&mut self, v: usize, polarity: bool, k: ClauseKey)
        requires
            old(self).wf(),
            v < old(self).n(),
            old(self).key_in_frange(k),
        ensures
            final(self).wf(),
            final(self).frame_watch_lists(old(self), v as int),
            final(self).watch_list(v as int, polarity) == old(self).watch_list(
                v as int,
                polarity,
            ).push(k),
            final(self).watch_list(v as int, !polarity) == old(self).watch_list(
                v as int,
                !polarity,
            ),
    {
        let ghost pre = *self;
        self.variables[v].watch_added(k, polarity);
        proof {
            assert(self.frame_watch_lists(&pre, v as int));
            assert forall|x: int|
                0 <= x < self.watch_list(v as int, true).len() implies self.key_in_frange(
                #[trigger] self.watch_list(v as int, true)[x],
            ) by {
                if !polarity || x < pre.watch_list(v as int, true).len() {
                    assert(pre.key_in_frange(pre.watch_list(v as int, true)[x]));
                }
            }
            assert forall|x: int|
                0 <= x < self.watch_list(v as int, false).len() implies self.key_in_frange(
                #[trigger] self.watch_list(v as int, false)[x],
            ) by {
                if polarity || x < pre.watch_list(v as int, false).len() {
                    assert(pre.key_in_frange(pre.watch_list(v as int, false)[x]));
                }
            }
            Self::lemma_watch_list_frame_wf(pre, *self, v as int);
        }
    }

    /// Drop position `x` of the watch list of `(v, polarity)` by swapping the
    /// last element in.
    pub fn unregister_watch(&mut self, v: usize, polarity: bool, x: usize)
        requires
            old(self).wf(),
            v < old(self).n(),
            x < old(self).watch_list(v as int, polarity).len(),
        ensures
            final(self).wf(),
            final(self).frame_watch_lists(old(self), v as int),
            final(self).watch_list(v as int, polarity) == old(self).watch_list(
                v as int,
                polarity,
            ).update(x as int, old(self).watch_list(v as int, polarity).last()).drop_last(),
            final(self).watch_list(v as int, !polarity) == old(self).watch_list(
                v as int,
                !polarity,
            ),
    {
        let ghost pre = *self;
        if polarity {
            let _ = self.variables[v].positive_watches.swap_remove(x);
        } else {
            let _ = self.variables[v].negative_watches.swap_remove(x);
        }
        proof {
            assert(self.frame_watch_lists(&pre, v as int));
            assert forall|y: int|
                0 <= y < self.watch_list(v as int, polarity).len() implies self.key_in_frange(
                #[trigger] self.watch_list(v as int, polarity)[y],
            ) by {
                let l = pre.watch_list(v as int, polarity);
                if y == x as int {
                    assert(pre.key_in_frange(l[l.len() - 1]));
                } else {
                    assert(pre.key_in_frange(l[y]));
                }
            }
            let op = !polarity;
            assert forall|y: int|
                0 <= y < self.watch_list(v as int, op).len() implies self.key_in_frange(
                #[trigger] self.watch_list(v as int, op)[y],
            ) by {
                assert(pre.key_in_frange(pre.watch_list(v as int, op)[y]));
            }
            Self::lemma_watch_list_frame_wf(pre, *self, v as int);
        }
    }

    /// Whether handle `k` still designates a live clause.
    pub fn key_live(&self, k: ClauseKey) -> (r: bool)
        requires
            self.key_in_frange(k),
        ensures
            r == self.key_valid(k),
    {
        match k {
            ClauseKey::Formula(_) => true,
            ClauseKey::Learnt(dk) => learnt_store_get(&self.learnt_clauses, dk).is_some(),
        }
    }

    /// Read access to the clause a live handle designates.
    pub fn clause_ref(&self, k: ClauseKey) -> (r: &StoredClause)
        requires
            self.key_valid(k),
        ensures
            *r == self.key_clause(k),
    {
        match k {
            ClauseKey::Formula(j) => &self.formula_clauses[j],
            ClauseKey::Learnt(dk) => match learnt_store_get(&self.learnt_clauses, dk) {
                Some(c) => c,
                None => unreached(),
            },
        }
    }

    /// Move one watch position of a live clause to `idx`.
    pub fn set_clause_watch(&mut self, k: ClauseKey, which: Watch, idx: usize)
        requires
            old(self).wf(),
            old(self).key_valid(k),
            idx < old(self).key_lits(k).len(),
            old(self).key_lits(k).len() >= 2 ==> match which {
                Watch::A => idx != old(self).key_clause(k).watch_b,
                Watch::B => idx != old(self).key_clause(k).watch_a,
            },
        ensures
            final(self).wf(),
            final(self).key_valid(k),
            final(self).key_clause(k).watch_a == match which {
                Watch::A => idx,
                Watch::B => old(self).key_clause(k).watch_a,
            },
            final(self).key_clause(k).watch_b == match which {
                Watch::A => old(self).key_clause(k).watch_b,
                Watch::B => idx,
            },
            final(self).key_lits_same(old(self)),
            final(self).frame_clause_update(old(self), k),
    {
        match k {
            ClauseKey::Formula(j) => self.set_formula_watch(j, which, idx),
            ClauseKey::Learnt(dk) => self.set_learnt_watch(dk, which, idx),
        }
    }

    #[verifier::rlimit(60)]
    fn set_formula_watch(&mut self, j: usize, which: Watch, idx: usize)
        requires
            old(self).wf(),
            old(self).key_valid(ClauseKey::Formula(j)),
            idx < old(self).key_lits(ClauseKey::Formula(j)).len(),
            old(self).key_lits(ClauseKey::Formula(j)).len() >= 2 ==> match which {
                Watch::A => idx != old(self).key_clause(ClauseKey::Formula(j)).watch_b,
                Watch::B => idx != old(self).key_clause(ClauseKey::Formula(j)).watch_a,
            },
        ensures
            final(self).wf(),
            final(self).key_valid(ClauseKey::Formula(j)),
            final(self).key_clause(ClauseKey::Formula(j)).watch_a == match which {
                Watch::A => idx,
                Watch::B => old(self).key_clause(ClauseKey::Formula(j)).watch_a,
            },
            final(self).key_clause(ClauseKey::Formula(j)).watch_b == match which {
                Watch::A => old(self).key_clause(ClauseKey::Formula(j)).watch_b,
                Watch::B => idx,
            },
            final(self).key_lits_same(old(self)),
            final(self).frame_clause_update(old(self), ClauseKey::Formula(j)),
    {
        let ghost pre = *self;
        let ghost k = ClauseKey::Formula(j);
        let updated = {
            let c = &self.formula_clauses[j];
            let lits = c.clause_clone();
            let origins = clone_ids(&c.origins);
            match which {
                Watch::A => StoredClause {
                    id: c.id,
                    source: c.source,
                    lits,
                    watch_a: idx,
                    watch_b: c.watch_b,
                    lbd: c.lbd,
                    origins,
                },
                Watch::B => StoredClause {
                    id: c.id,
                    source: c.source,
                    lits,
                    watch_a: c.watch_a,
                    watch_b: idx,
                    lbd: c.lbd,
                    origins,
                },
            }
        };
        self.formula_clauses.set(j, updated);
        proof {
            assert(self.lm() == pre.lm());
            assert(self.key_clause(k).lits@ == pre.key_clause(k).lits@);
            assert(self.frame_clause_update(&pre, k));
            lemma_clause_update_wf(pre, *self, k);
        }
    }

    #[verifier::rlimit(60)]
    fn set_learnt_watch(&mut self, dk: slotmap::DefaultKey, which: Watch, idx: usize)
        requires
            old(self).wf(),
            old(self).key_valid(ClauseKey::Learnt(dk)),
            idx < old(self).key_lits(ClauseKey::Learnt(dk)).len(),
            old(self).key_lits(ClauseKey::Learnt(dk)).len() >= 2 ==> match which {
                Watch::A => idx != old(self).key_clause(ClauseKey::Learnt(dk)).watch_b,
                Watch::B => idx != old(self).key_clause(ClauseKey::Learnt(dk)).watch_a,
            },
        ensures
            final(self).wf(),
            final(self).key_valid(ClauseKey::Learnt(dk)),
            final(self).key_clause(ClauseKey::Learnt(dk)).watch_a == match which {
                Watch::A => idx,
                Watch::B => old(self).key_clause(ClauseKey::Learnt(dk)).watch_a,
            },
            final(self).key_clause(ClauseKey::Learnt(dk)).watch_b == match which {
                Watch::A => old(self).key_clause(ClauseKey::Learnt(dk)).watch_b,
                Watch::B => idx,
            },
            final(self).key_lits_same(old(self)),
            final(self).frame_clause_update(old(self), ClauseKey::Learnt(dk)),
    {
        let ghost pre = *self;
        let ghost k = ClauseKey::Learnt(dk);
        let updated = {
            let c = match learnt_store_get(&self.learnt_clauses, dk) {
                Some(c) => c,
                None => unreached(),
            };
            let lits = c.clause_clone();
            let origins = clone_ids(&c.origins);
            match which {
                Watch::A => StoredClause {
                    id: c.id,
                    source: c.source,
                    lits,
                    watch_a: idx,
                    watch_b: c.watch_b,
                    lbd: c.lbd,
                    origins,
                },
                Watch::B => StoredClause {
                    id: c.id,
                    source: c.source,
                    lits,
                    watch_a: c.watch_a,
                    watch_b: idx,
                    lbd: c.lbd,
                    origins,
                },
            }
        };
        learnt_store_replace(&mut self.learnt_clauses, dk, updated);
        proof {
            assert(self.lm().dom() =~= pre.lm().dom());
            assert(self.key_clause(k).lits@ == pre.key_clause(k).lits@);
            assert forall|dk2: slotmap::DefaultKey|
                pre.lm().dom().contains(dk2) && !(k is Learnt && dk2
                    == k->Learnt_0) implies #[trigger] self.lm()[dk2] == pre.lm()[dk2] by {
                assert(self.lm()[dk2] == pre.lm().insert(dk, updated)[dk2]);
            }
            assert(self.frame_clause_update(&pre, k));
            lemma_clause_update_wf(pre, *self, k);
        }
    }

    /// Everything except the stored clause behind `k` is unchanged, and that
    /// clause kept its literals, origins, source and identifier.
    pub open spec fn frame_clause_update(&self, pre: &Solve, k: ClauseKey) -> bool {
        &&& self.config == pre.config
        &&& self.formula == pre.formula
        &&& self.variables == pre.variables
        &&& self.valuation == pre.valuation
        &&& self.trail == pre.trail
        &&& self.levels == pre.levels
        &&& self.qhead == pre.qhead
        &&& self.next_learnt_id == pre.next_learnt_id
        &&& store_slots(self.learnt_clauses) == store_slots(pre.learnt_clauses)
        &&& self.iterations == pre.iterations
        &&& self.conflicts == pre.conflicts
        &&& self.conflicts_since_last_forget == pre.conflicts_since_last_forget
        &&& self.forgets == pre.forgets
        &&& self.formula_clauses@.len() == pre.formula_clauses@.len()
        &&& self.lm().dom() == pre.lm().dom()
        &&& forall|j2: int|
            0 <= j2 < pre.formula_clauses@.len() && !(k is Formula && j2 == k->Formula_0 as int)
                ==> #[trigger] self.formula_clauses@[j2] == pre.formula_clauses@[j2]
        &&& forall|dk2: slotmap::DefaultKey|
            pre.lm().dom().contains(dk2) && !(k is Learnt && dk2 == k->Learnt_0)
                ==> #[trigger] self.lm()[dk2] == pre.lm()[dk2]
        &&& self.key_clause(k).lits@ == pre.key_clause(k).lits@
        &&& self.key_clause(k).origins@ == pre.key_clause(k).origins@
        &&& self.key_clause(k).source == pre.key_clause(k).source
        &&& self.key_clause(k).id == pre.key_clause(k).id
        &&& self.key_clause(k).lbd == pre.key_clause(k).lbd
    }
}

/// A copy of a clause-index list.
pub(crate) fn clone_ids(v: &Vec<usize>) -> (r: Vec<usize>)
    ensures
        r@ == v@,
{
    let r = v.clone();
    proof {
        assert forall|i: int| 0 <= i < v@.len() implies r@[i] == v@[i] by {
            assert(cloned::<usize>(v@[i], r@[i]));
        }
        assert(r@ =~= v@);
    }
    r
}

} // verus!
