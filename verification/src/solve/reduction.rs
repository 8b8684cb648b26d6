//! The retention policy for learned clauses: when enough conflicts have
//! accumulated, drop every learned clause whose literal block distance
//! exceeds the configured strength — except unit clauses and clauses
//! currently acting as the antecedent of a live trail entry.

use vstd::prelude::*;

use crate::learnt_store::{learnt_store_keys, learnt_store_remove, store_slots};
use crate::solve::base::{LiteralSource, Solve};
use crate::stored_clause::ClauseKey;

use slotmap::DefaultKey;

verus! {

impl Solve {
    /// A learned clause currently justifies some trail entry.
    pub open spec fn live_antecedent(&self, dk: DefaultKey) -> bool {
        exists|i: int|
            0 <= i < self.trail@.len() && (#[trigger] self.trail@[i]).source
                == LiteralSource::StoredClause(ClauseKey::Learnt(dk))
    }

    /// The retention policy keeps a learned clause when it is a unit, its
    /// literal block distance is within the configured strength, or it
    /// justifies a live trail entry.
    pub open spec fn kept_by_policy(&self, dk: DefaultKey) -> bool {
        ||| self.lm()[dk].lits@.len() < 2
        ||| self.lm()[dk].lbd <= self.config.min_glue_strength
        ||| self.live_antecedent(dk)
    }

    /// The same condition with the antecedents given as an identifier list.
    pub open spec fn kept_by_ids(&self, dk: DefaultKey, protected: Seq<usize>) -> bool {
        ||| self.lm()[dk].lits@.len() < 2
        ||| self.lm()[dk].lbd <= self.config.min_glue_strength
        ||| protected.contains(self.lm()[dk].id)
    }

    /// Identifier `id` belongs to a learned clause justifying a trail entry.
    pub open spec fn antecedent_id(&self, id: usize) -> bool {
        exists|dk: DefaultKey|
            #![auto]
            self.live_antecedent(dk) && self.lm().dom().contains(dk) && self.lm()[dk].id == id
    }

    /// The identifiers of the learned clauses justifying live trail entries:
    /// exactly those, in both directions.
    fn antecedent_ids(&self) -> (r: Vec<usize>)
        requires
            self.wf(),
        ensures
            forall|i: int|
                0 <= i < self.trail@.len() ==> match (#[trigger] self.trail@[i]).source {
                    LiteralSource::StoredClause(k) => match k {
                        ClauseKey::Learnt(dk) => r@.contains(self.lm()[dk].id),
                        ClauseKey::Formula(_) => true,
                    },
                    _ => true,
                },
            forall|x: int| 0 <= x < r@.len() ==> self.antecedent_id(#[trigger] r@[x]),
    {
        let mut r: Vec<usize> = Vec::new();
        let tn = self.trail.len();
        let mut i: usize = 0;
        while i < tn
            invariant
                i <= tn,
                tn == self.trail@.len(),
                self.wf(),
                forall|i2: int|
                    0 <= i2 < i ==> match (#[trigger] self.trail@[i2]).source {
                        LiteralSource::StoredClause(k) => match k {
                            ClauseKey::Learnt(dk) => r@.contains(self.lm()[dk].id),
                            ClauseKey::Formula(_) => true,
                        },
                        _ => true,
                    },
                forall|x: int| 0 <= x < r@.len() ==> self.antecedent_id(#[trigger] r@[x]),
            decreases tn - i,
        {
            let ghost pre = r@;
            match self.trail[i].source {
                LiteralSource::StoredClause(k) => {
                    match k {
                        ClauseKey::Learnt(dk) => {
                            proof {
                                assert(self.entry_just(i as int));
                            }
                            let id = {
                                let c = self.clause_ref(k);
                                c.id
                            };
                            r.push(id);
                            proof {
                                assert(r@[r@.len() - 1] == self.lm()[dk].id);
                                assert(self.trail@[i as int].source == LiteralSource::StoredClause(
                                    ClauseKey::Learnt(dk),
                                ));
                                assert(self.live_antecedent(dk));
                                assert forall|x: int| 0 <= x < r@.len() implies self.antecedent_id(
                                    #[trigger] r@[x],
                                ) by {
                                    if x < r@.len() - 1 {
                                        assert(r@[x] == pre[x]);
                                        assert(self.antecedent_id(pre[x]));
                                    } else {
                                        assert(self.live_antecedent(dk) && self.lm().dom().contains(
                                            dk,
                                        ) && self.lm()[dk].id == r@[x]);
                                        assert(self.antecedent_id(r@[x]));
                                    }
                                }
                            }
                        },
                        ClauseKey::Formula(_) => {},
                    }
                },
                _ => {},
            }
            proof {
                assert forall|i2: int|
                    0 <= i2 < i + 1 implies match (#[trigger] self.trail@[i2]).source {
                    LiteralSource::StoredClause(k) => match k {
                        ClauseKey::Learnt(dk) => r@.contains(self.lm()[dk].id),
                        ClauseKey::Formula(_) => true,
                    },
                    _ => true,
                } by {
                    if i2 < i {
                        match self.trail@[i2].source {
                            LiteralSource::StoredClause(k) => match k {
                                ClauseKey::Learnt(dk) => {
                                    assert(pre.contains(self.lm()[dk].id));
                                    let w = choose|w: int|
                                        0 <= w < pre.len() && pre[w] == self.lm()[dk].id;
                                    assert(r@[w] == self.lm()[dk].id);
                                },
                                ClauseKey::Formula(_) => {},
                            },
                            _ => {},
                        }
                    }
                }
            }
            i = i + 1;
        }
        r
    }

    /// Whether `ids` holds `id`.
    fn ids_contain(ids: &Vec<usize>, id: usize) -> (r: bool)
        ensures
            r == ids@.contains(id),
    {
        let n = ids.len();
        let mut i: usize = 0;
        while i < n
            invariant
                i <= n,
                n == ids@.len(),
                forall|j: int| 0 <= j < i ==> #[trigger] ids@[j] != id,
            decreases n - i,
        {
            if ids[i] == id {
                proof {
                    assert(ids@[i as int] == id);
                }
                return true;
            }
            i = i + 1;
        }
        proof {
            if ids@.contains(id) {
                let w = choose|w: int| 0 <= w < ids@.len() && ids@[w] == id;
            }
        }
        false
    }

    /// Drop one learned clause, which no live trail entry relies on.
    fn drop_learnt(&mut self, dk: DefaultKey)
        requires
            old(self).wf(),
            old(self).lm().dom().contains(dk),
            forall|i: int|
                0 <= i < old(self).trail@.len() ==> match (#[trigger] old(self).trail@[i]).source {
                    LiteralSource::StoredClause(k) => match k {
                        ClauseKey::Learnt(dk2) => old(self).lm()[dk2].id != old(self).lm()[dk].id,
                        ClauseKey::Formula(_) => true,
                    },
                    _ => true,
                },
        ensures
            final(self).wf(),
            final(self).lm() == old(self).lm().remove(dk),
            final(self).formula == old(self).formula,
            final(self).config == old(self).config,
            final(self).formula_clauses == old(self).formula_clauses,
            final(self).trail == old(self).trail,
            final(self).valuation == old(self).valuation,
            final(self).levels == old(self).levels,
            final(self).qhead == old(self).qhead,
            final(self).variables == old(self).variables,
            final(self).next_learnt_id == old(self).next_learnt_id,
            final(self).iterations == old(self).iterations,
            final(self).conflicts == old(self).conflicts,
            final(self).conflicts_since_last_forget == old(self).conflicts_since_last_forget,
            final(self).forgets == old(self).forgets,
            final(self).ingested() == old(self).ingested(),
    {
        let ghost pre = *self;
        let _ = learnt_store_remove(&mut self.learnt_clauses, dk);
        proof {
            let post = *self;
            assert(post.lm().dom() =~= pre.lm().dom().remove(dk));
            assert(post.wf_dims());
            assert(post.wf_formula_store());
            assert(post.wf_learnt()) by {
                assert forall|dk2: DefaultKey| post.lm().dom().contains(dk2) implies {
                    &&& (#[trigger] post.lm()[dk2]).wf(post.n())
                    &&& post.lm()[dk2].source == crate::stored_clause::ClauseSource::Resolution
                    &&& crate::semantics::entails_on(
                        post.fml(),
                        post.n(),
                        post.lm()[dk2].origins@,
                        post.lm()[dk2].lits@,
                    )
                    &&& forall|oi: int|
                        0 <= oi < post.lm()[dk2].origins@.len()
                            ==> #[trigger] post.lm()[dk2].origins@[oi] < post.fml().len()
                    &&& post.lm()[dk2].id < post.next_learnt_id
                } by {
                    assert(post.lm()[dk2] == pre.lm()[dk2]);
                    assert(pre.lm()[dk2].wf(pre.n()));
                }
                assert forall|dk1: DefaultKey, dk2: DefaultKey|
                    post.lm().dom().contains(dk1) && post.lm().dom().contains(dk2) && dk1
                        != dk2 implies (#[trigger] post.lm()[dk1]).id != (
                #[trigger] post.lm()[dk2]).id by {
                    assert(post.lm()[dk1] == pre.lm()[dk1]);
                    assert(post.lm()[dk2] == pre.lm()[dk2]);
                    assert(pre.lm()[dk1].id != pre.lm()[dk2].id);
                }
            }
            Self::lemma_wf_trail_transfer(pre, post);
            Self::lemma_wf_levels_transfer(pre, post);
            assert forall|i: int|
                0 <= i < pre.trail@.len() implies match (#[trigger] pre.trail@[i]).source {
                LiteralSource::StoredClause(k2) => post.key_valid(k2) && post.key_lits(k2)
                    == pre.key_lits(k2),
                _ => true,
            } by {
                assert(pre.entry_just(i));
                match pre.trail@[i].source {
                    LiteralSource::StoredClause(k2) => {
                        assert(pre.key_valid(k2));
                        match k2 {
                            ClauseKey::Learnt(dk2) => {
                                // this antecedent's identifier differs from
                                // the dropped clause's, so it is another key
                                assert(pre.lm()[dk2].id != pre.lm()[dk].id);
                                assert(dk2 != dk);
                                assert(post.lm()[dk2] == pre.lm()[dk2]);
                            },
                            ClauseKey::Formula(_) => {},
                        }
                    },
                    _ => {},
                }
            }
            crate::solve::watching::lemma_sources_preserved(pre, post);
            assert(post.wf_watch_lists());
        }
    }

    /// Fire the reduction policy: drop every learned clause longer than one
    /// literal whose literal block distance exceeds the configured strength,
    /// unless it is the antecedent of a live trail entry.  Handles left on
    /// watch lists are cleaned up lazily by propagation.
    #[verifier::rlimit(100)]
    #[verifier::spinoff_prover]
    pub fn reduce(&mut self)
        requires
            old(self).wf(),
        ensures
            final(self).wf(),
            final(self).formula == old(self).formula,
            final(self).config == old(self).config,
            final(self).formula_clauses == old(self).formula_clauses,
            final(self).trail == old(self).trail,
            final(self).valuation == old(self).valuation,
            final(self).variables == old(self).variables,
            final(self).levels == old(self).levels,
            final(self).qhead == old(self).qhead,
            final(self).next_learnt_id == old(self).next_learnt_id,
            final(self).iterations == old(self).iterations,
            final(self).conflicts == old(self).conflicts,
            final(self).ingested() == old(self).ingested(),
            final(self).conflicts_since_last_forget == 0,
            final(self).forgets == if old(self).forgets < usize::MAX {
                (old(self).forgets + 1) as usize
            } else {
                old(self).forgets
            },
            forall|dk: DefaultKey|
                #[trigger] final(self).lm().dom().contains(dk) ==> old(self).lm().dom().contains(
                    dk,
                ) && final(self).lm()[dk] == old(self).lm()[dk],
            forall|dk: DefaultKey|
                #[trigger] old(self).lm().dom().contains(dk) ==> (final(self).lm().dom().contains(
                    dk,
                ) <==> old(self).kept_by_policy(dk)),
    {
        let protected = self.antecedent_ids();
        let keys = learnt_store_keys(&self.learnt_clauses);
        let kn = keys.len();
        let ghost orig = *self;
        proof {
            assert forall|x: int| 0 <= x < kn implies self.lm().dom().contains(
                #[trigger] keys@[x],
            ) && self.lm()[keys@[x]] == orig.lm()[keys@[x]] by {
                assert(keys@.contains(keys@[x]));
            }
        }
        let mut ki: usize = 0;
        while ki < kn
            invariant
                ki <= kn,
                kn == keys@.len(),
                keys@.no_duplicates(),
                forall|dk: DefaultKey| #[trigger]
                    keys@.contains(dk) <==> orig.lm().dom().contains(dk),
                self.wf(),
                self.formula == orig.formula,
                self.config == orig.config,
                self.formula_clauses == orig.formula_clauses,
                self.trail == orig.trail,
                self.valuation == orig.valuation,
                self.levels == orig.levels,
                self.qhead == orig.qhead,
                self.variables == orig.variables,
                self.next_learnt_id == orig.next_learnt_id,
                self.iterations == orig.iterations,
                self.conflicts == orig.conflicts,
                self.conflicts_since_last_forget == orig.conflicts_since_last_forget,
                self.forgets == orig.forgets,
                forall|x: int|
                    ki <= x < kn ==> self.lm().dom().contains(#[trigger] keys@[x]) && self.lm()[
                        keys@[x]] == orig.lm()[keys@[x]],
                forall|x: int|
                    0 <= x < ki ==> (self.lm().dom().contains(#[trigger] keys@[x])
                        <==> orig.kept_by_ids(keys@[x], protected@)),
                forall|dk: DefaultKey|
                    #[trigger] self.lm().dom().contains(dk) ==> orig.lm().dom().contains(dk)
                        && self.lm()[dk] == orig.lm()[dk],
                forall|i: int|
                    0 <= i < self.trail@.len() ==> match (#[trigger] self.trail@[i]).source {
                        LiteralSource::StoredClause(k) => match k {
                            ClauseKey::Learnt(dk) => protected@.contains(self.lm()[dk].id),
                            ClauseKey::Formula(_) => true,
                        },
                        _ => true,
                    },
            decreases kn - ki,
        {
            let dk = keys[ki];
            proof {
                assert(self.lm().dom().contains(keys@[ki as int]));
            }
            let ghost pre = *self;
            self.maybe_drop(dk, &protected);
            proof {
                assert(pre.kept_by_ids(dk, protected@) == orig.kept_by_ids(dk, protected@)) by {
                    assert(pre.lm()[dk] == orig.lm()[dk]);
                }
                assert forall|x: int|
                    ki + 1 <= x < kn implies self.lm().dom().contains(#[trigger] keys@[x])
                    && self.lm()[keys@[x]] == orig.lm()[keys@[x]] by {
                    assert(keys@[x] != keys@[ki as int]);
                    assert(pre.lm().dom().contains(keys@[x]));
                }
                assert forall|x: int|
                    0 <= x < ki + 1 implies (self.lm().dom().contains(#[trigger] keys@[x])
                    <==> orig.kept_by_ids(keys@[x], protected@)) by {
                    if x < ki {
                        assert(keys@[x] != keys@[ki as int]);
                    }
                }
                assert forall|dk2: DefaultKey|
                    #[trigger] self.lm().dom().contains(dk2) implies orig.lm().dom().contains(dk2)
                    && self.lm()[dk2] == orig.lm()[dk2] by {
                    assert(pre.lm().dom().contains(dk2));
                }
            }
            ki = ki + 1;
        }
        let ghost pre_cnt = *self;
        if self.forgets < usize::MAX {
            self.forgets = self.forgets + 1;
        }
        self.conflicts_since_last_forget = 0;
        proof {
            Self::lemma_wf_counters(pre_cnt, *self);
            // the per-key outcome in terms of live antecedents: the recorded
            // identifiers are exactly those of live antecedent clauses
            assert forall|dk: DefaultKey| #[trigger] orig.lm().dom().contains(
                dk,
            ) implies (self.lm().dom().contains(dk) <==> orig.kept_by_policy(dk)) by {
                assert(keys@.contains(dk));
                let x = choose|x: int| 0 <= x < keys@.len() && keys@[x] == dk;
                assert(self.lm().dom().contains(keys@[x]) <==> orig.kept_by_ids(
                    keys@[x],
                    protected@,
                ));
                assert(protected@.contains(orig.lm()[dk].id) <==> orig.live_antecedent(dk)) by {
                    if orig.live_antecedent(dk) {
                        let i = choose|i: int|
                            0 <= i < orig.trail@.len() && (#[trigger] orig.trail@[i]).source
                                == LiteralSource::StoredClause(ClauseKey::Learnt(dk));
                        assert(protected@.contains(orig.lm()[dk].id));
                    }
                    if protected@.contains(orig.lm()[dk].id) {
                        let w = choose|w: int|
                            0 <= w < protected@.len() && protected@[w] == orig.lm()[dk].id;
                        assert(orig.antecedent_id(protected@[w]));
                        let dk2 = choose|dk2: DefaultKey|
                            #![auto]
                            orig.live_antecedent(dk2) && orig.lm().dom().contains(dk2)
                                && orig.lm()[dk2].id == protected@[w];
                        assert(dk2 == dk);
                    }
                }
            }
        }
    }
}


impl Solve {
    /// Drop the learned clause behind `dk` when the policy and the
    /// protection rules allow it.
    #[verifier::rlimit(100)]
    #[verifier::spinoff_prover]
    fn maybe_drop(&mut self, dk: DefaultKey, protected: &Vec<usize>)
        requires
            old(self).wf(),
            old(self).lm().dom().contains(dk),
            forall|i: int|
                0 <= i < old(self).trail@.len() ==> match (#[trigger] old(self).trail@[i]).source {
                    LiteralSource::StoredClause(k) => match k {
                        ClauseKey::Learnt(dk2) => protected@.contains(old(self).lm()[dk2].id),
                        ClauseKey::Formula(_) => true,
                    },
                    _ => true,
                },
        ensures
            final(self).wf(),
            final(self).formula == old(self).formula,
            final(self).config == old(self).config,
            final(self).formula_clauses == old(self).formula_clauses,
            final(self).trail == old(self).trail,
            final(self).valuation == old(self).valuation,
            final(self).levels == old(self).levels,
            final(self).qhead == old(self).qhead,
            final(self).variables == old(self).variables,
            final(self).next_learnt_id == old(self).next_learnt_id,
            final(self).iterations == old(self).iterations,
            final(self).conflicts == old(self).conflicts,
            final(self).conflicts_since_last_forget == old(self).conflicts_since_last_forget,
            final(self).forgets == old(self).forgets,
            final(self).lm() == if old(self).kept_by_ids(dk, protected@) {
                old(self).lm()
            } else {
                old(self).lm().remove(dk)
            },
            forall|i: int|
                0 <= i < final(self).trail@.len() ==> match (
                #[trigger] final(self).trail@[i]).source {
                    LiteralSource::StoredClause(k) => match k {
                        ClauseKey::Learnt(dk2) => protected@.contains(final(self).lm()[dk2].id),
                        ClauseKey::Formula(_) => true,
                    },
                    _ => true,
                },
    {
        let ghost pre = *self;
        if !self.key_live(ClauseKey::Learnt(dk)) {
            proof {
                assert(false);
            }
            return ;
        }
        let (id, len, lbd) = {
            let c = self.clause_ref(ClauseKey::Learnt(dk));
            (c.id, c.lits.len(), c.lbd)
        };
        if !(len >= 2 && lbd > self.config.min_glue_strength && !Self::ids_contain(protected, id)) {
            proof {
                assert(*self == pre);
                assert(pre.kept_by_ids(dk, protected@));
            }
            return ;
        }
        proof {
            assert(!pre.kept_by_ids(dk, protected@));
        }
        proof {
            assert forall|i: int|
                0 <= i < self.trail@.len() implies match (#[trigger] self.trail@[i]).source {
                LiteralSource::StoredClause(k) => match k {
                    ClauseKey::Learnt(dk2) => self.lm()[dk2].id != self.lm()[dk].id,
                    ClauseKey::Formula(_) => true,
                },
                _ => true,
            } by {
                match self.trail@[i].source {
                    LiteralSource::StoredClause(k) => match k {
                        ClauseKey::Learnt(dk2) => {
                            assert(protected@.contains(self.lm()[dk2].id));
                            assert(!protected@.contains(self.lm()[dk].id));
                        },
                        ClauseKey::Formula(_) => {},
                    },
                    _ => {},
                }
            }
        }
        self.drop_learnt(dk);
        proof {
            assert forall|i: int|
                0 <= i < self.trail@.len() implies match (#[trigger] self.trail@[i]).source {
                LiteralSource::StoredClause(k) => match k {
                    ClauseKey::Learnt(dk2) => protected@.contains(self.lm()[dk2].id),
                    ClauseKey::Formula(_) => true,
                },
                _ => true,
            } by {
                assert(self.entry_just(i));
                match self.trail@[i].source {
                    LiteralSource::StoredClause(k) => match k {
                        ClauseKey::Learnt(dk2) => {
                            assert(self.lm()[dk2] == pre.lm()[dk2]);
                            assert(protected@.contains(pre.lm()[dk2].id));
                        },
                        ClauseKey::Formula(_) => {},
                    },
                    _ => {},
                }
            }
        }
    }
}

} // verus!
