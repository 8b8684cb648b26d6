//! Conflict analysis: resolution along the trail from the conflicting clause
//! back to the first unique implication point.  The resolvent is always false
//! under the current valuation, keeps one literal per variable, and is
//! entailed by the input clauses its accumulated origin indices select.

use vstd::prelude::*;

use crate::clause::clause_wf;
use crate::formula::find_var;
use crate::literal::Literal;
use crate::semantics::{entails_on, lemma_clause_entails_itself, lemma_resolution};
use crate::solve::base::{LiteralSource, Solve};
use crate::stored_clause::ClauseKey;
use crate::valuation::{lit_false, lit_true};

verus! {

/// The outcome of conflict analysis: the literals of the asserting clause,
/// the input-clause indices whose conjunction entails it, and the variables
/// met during resolution (to have their activity bumped).
pub enum AnalysisResult {
    AssertingClause(Vec<Literal>, Vec<usize>, Vec<usize>),
}

impl Solve {
    /// The literal's variable is assigned at level `d`.
    pub open spec fn lit_at_level(&self, l: Literal, d: int) -> bool {
        self.variables@[l.v_id as int].decision_level == Some(d as usize)
    }

    /// How many literals of `c` sit at level `d`.
    pub open spec fn count_at_level(&self, c: Seq<Literal>, d: int) -> nat
        decreases c.len(),
    {
        if c.len() == 0 {
            0
        } else {
            self.count_at_level(c.drop_last(), d) + if self.lit_at_level(c.last(), d) {
                1nat
            } else {
                0nat
            }
        }
    }

    pub proof fn lemma_count_zero(&self, c: Seq<Literal>, d: int)
        requires
            self.count_at_level(c, d) == 0,
        ensures
            forall|x: int| 0 <= x < c.len() ==> !self.lit_at_level(#[trigger] c[x], d),
        decreases c.len(),
    {
        if c.len() > 0 {
            self.lemma_count_zero(c.drop_last(), d);
            assert forall|x: int| 0 <= x < c.len() implies !self.lit_at_level(
                #[trigger] c[x],
                d,
            ) by {
                if x < c.len() - 1 {
                    assert(c.drop_last()[x] == c[x]);
                } else {
                    assert(c[x] == c.last());
                }
            }
        }
    }

    pub proof fn lemma_count_pos(&self, c: Seq<Literal>, d: int, x: int)
        requires
            0 <= x < c.len(),
            self.lit_at_level(c[x], d),
        ensures
            self.count_at_level(c, d) >= 1,
        decreases c.len(),
    {
        if x == c.len() - 1 {
        } else {
            assert(c.drop_last()[x] == c[x]);
            self.lemma_count_pos(c.drop_last(), d, x);
        }
    }

    pub proof fn lemma_count_one(&self, c: Seq<Literal>, d: int)
        requires
            self.count_at_level(c, d) == 1,
        ensures
            exists|x: int|
                0 <= x < c.len() && self.lit_at_level(#[trigger] c[x], d) && forall|y: int|
                    0 <= y < c.len() && y != x ==> !self.lit_at_level(#[trigger] c[y], d),
        decreases c.len(),
    {
        if self.lit_at_level(c.last(), d) {
            self.lemma_count_zero(c.drop_last(), d);
            let x = c.len() - 1;
            assert forall|y: int| 0 <= y < c.len() && y != x implies !self.lit_at_level(
                #[trigger] c[y],
                d,
            ) by {
                assert(c.drop_last()[y] == c[y]);
            }
            assert(0 <= x < c.len() && self.lit_at_level(c[x], d) && forall|y: int|
                0 <= y < c.len() && y != x ==> !self.lit_at_level(#[trigger] c[y], d));
        } else {
            self.lemma_count_one(c.drop_last(), d);
            let x = choose|x: int|
                0 <= x < c.drop_last().len() && self.lit_at_level(#[trigger] c.drop_last()[x], d)
                    && forall|y: int|
                    0 <= y < c.drop_last().len() && y != x ==> !self.lit_at_level(
                        #[trigger] c.drop_last()[y],
                        d,
                    );
            assert(c.drop_last()[x] == c[x]);
            assert forall|y: int| 0 <= y < c.len() && y != x implies !self.lit_at_level(
                #[trigger] c[y],
                d,
            ) by {
                if y < c.len() - 1 {
                    assert(c.drop_last()[y] == c[y]);
                }
            }
            assert(0 <= x < c.len() && self.lit_at_level(c[x], d) && forall|y: int|
                0 <= y < c.len() && y != x ==> !self.lit_at_level(#[trigger] c[y], d));
        }
    }

    pub proof fn lemma_count_two(&self, c: Seq<Literal>, d: int)
        requires
            self.count_at_level(c, d) >= 2,
        ensures
            exists|x: int, y: int|
                0 <= x < y < c.len() && self.lit_at_level(#[trigger] c[x], d) && self.lit_at_level(
                    #[trigger] c[y],
                    d,
                ),
        decreases c.len(),
    {
        if self.lit_at_level(c.last(), d) {
            if self.count_at_level(c.drop_last(), d) >= 1 {
                // find one in the prefix
                self.lemma_count_some(c.drop_last(), d);
                let x = choose|x: int|
                    0 <= x < c.drop_last().len() && self.lit_at_level(
                        #[trigger] c.drop_last()[x],
                        d,
                    );
                assert(c.drop_last()[x] == c[x]);
                assert(0 <= x < c.len() - 1 && self.lit_at_level(c[x], d) && self.lit_at_level(
                    c[c.len() - 1],
                    d,
                ));
            }
        } else {
            self.lemma_count_two(c.drop_last(), d);
            let (x, y) = choose|x: int, y: int|
                0 <= x < y < c.drop_last().len() && self.lit_at_level(#[trigger] c.drop_last()[x], d)
                    && self.lit_at_level(#[trigger] c.drop_last()[y], d);
            assert(c.drop_last()[x] == c[x]);
            assert(c.drop_last()[y] == c[y]);
            assert(0 <= x < y < c.len() && self.lit_at_level(c[x], d) && self.lit_at_level(
                c[y],
                d,
            ));
        }
    }

    pub proof fn lemma_count_some(&self, c: Seq<Literal>, d: int)
        requires
            self.count_at_level(c, d) >= 1,
        ensures
            exists|x: int| 0 <= x < c.len() && self.lit_at_level(#[trigger] c[x], d),
        decreases c.len(),
    {
        if self.lit_at_level(c.last(), d) {
            assert(0 <= c.len() - 1 < c.len() && self.lit_at_level(c[c.len() - 1], d));
        } else {
            self.lemma_count_some(c.drop_last(), d);
            let x = choose|x: int|
                0 <= x < c.drop_last().len() && self.lit_at_level(#[trigger] c.drop_last()[x], d);
            assert(c.drop_last()[x] == c[x]);
            assert(0 <= x < c.len() && self.lit_at_level(c[x], d));
        }
    }

    /// Count the literals of `lits` assigned at level `d`.
    fn count_lits_at_level(&self, lits: &Vec<Literal>, d: usize) -> (r: usize)
        requires
            forall|x: int| 0 <= x < lits@.len() ==> (#[trigger] lits@[x]).v_id < self.variables@.len(),
        ensures
            r == self.count_at_level(lits@, d as int),
    {
        let len = lits.len();
        let mut r: usize = 0;
        let mut x: usize = 0;
        while x < len
            invariant
                x <= len,
                len == lits@.len(),
                forall|y: int|
                    0 <= y < lits@.len() ==> (#[trigger] lits@[y]).v_id < self.variables@.len(),
                r == self.count_at_level(lits@.subrange(0, x as int), d as int),
                r <= x,
            decreases len - x,
        {
            let l = lits[x];
            let at = match self.variables[l.v_id].decision_level {
                Some(lv) => lv == d,
                None => false,
            };
            proof {
                let pre = lits@.subrange(0, x as int);
                let post = lits@.subrange(0, x + 1);
                assert(post.drop_last() =~= pre);
                assert(post.last() == lits@[x as int]);
            }
            if at {
                r = r + 1;
            }
            x = x + 1;
        }
        proof {
            assert(lits@.subrange(0, len as int) =~= lits@);
        }
        r
    }

    /// Resolve two clauses false under the current valuation (the antecedent
    /// except for its pivot literal) on the pivot variable: every non-pivot
    /// literal of either side is kept, one literal per variable.
    fn resolve_clauses(&self, c1: &Vec<Literal>, c2: &Vec<Literal>, pivot: usize) -> (r: Vec<
        Literal,
    >)
        requires
            self.wf(),
            forall|x: int| 0 <= x < c1@.len() ==> (#[trigger] c1@[x]).v_id < self.n(),
            forall|x: int| 0 <= x < c2@.len() ==> (#[trigger] c2@[x]).v_id < self.n(),
            forall|x: int, y: int|
                0 <= x < y < c1@.len() ==> (#[trigger] c1@[x]).v_id != (#[trigger] c1@[y]).v_id,
            forall|x: int, y: int|
                0 <= x < y < c2@.len() ==> (#[trigger] c2@[x]).v_id != (#[trigger] c2@[y]).v_id,
            forall|x: int| 0 <= x < c1@.len() ==> lit_false(self.valuation@, #[trigger] c1@[x]),
            forall|x: int|
                0 <= x < c2@.len() && (#[trigger] c2@[x]).v_id != pivot ==> lit_false(
                    self.valuation@,
                    c2@[x],
                ),
        ensures
            forall|x: int, y: int|
                0 <= x < y < r@.len() ==> (#[trigger] r@[x]).v_id != (#[trigger] r@[y]).v_id,
            forall|x: int| 0 <= x < r@.len() ==> (#[trigger] r@[x]).v_id < self.n(),
            forall|x: int| 0 <= x < r@.len() ==> lit_false(self.valuation@, #[trigger] r@[x]),
            forall|x: int| 0 <= x < r@.len() ==> (#[trigger] r@[x]).v_id != pivot,
            forall|x: int|
                0 <= x < c1@.len() && (#[trigger] c1@[x]).v_id != pivot ==> r@.contains(c1@[x]),
            forall|x: int|
                0 <= x < c2@.len() && (#[trigger] c2@[x]).v_id != pivot ==> r@.contains(c2@[x]),
            forall|x: int|
                0 <= x < r@.len() ==> c1@.contains(#[trigger] r@[x]) || c2@.contains(r@[x]),
    {
        let mut r: Vec<Literal> = Vec::new();
        let n1 = c1.len();
        let mut x: usize = 0;
        while x < n1
            invariant
                x <= n1,
                n1 == c1@.len(),
                self.wf(),
                forall|a: int| 0 <= a < c1@.len() ==> (#[trigger] c1@[a]).v_id < self.n(),
                forall|a: int, b: int|
                    0 <= a < b < c1@.len() ==> (#[trigger] c1@[a]).v_id != (#[trigger] c1@[b]).v_id,
                forall|a: int| 0 <= a < c1@.len() ==> lit_false(self.valuation@, #[trigger] c1@[a]),
                forall|a: int, b: int|
                    0 <= a < b < r@.len() ==> (#[trigger] r@[a]).v_id != (#[trigger] r@[b]).v_id,
                forall|a: int| 0 <= a < r@.len() ==> (#[trigger] r@[a]).v_id < self.n(),
                forall|a: int| 0 <= a < r@.len() ==> lit_false(self.valuation@, #[trigger] r@[a]),
                forall|a: int| 0 <= a < r@.len() ==> (#[trigger] r@[a]).v_id != pivot,
                forall|a: int|
                    0 <= a < r@.len() ==> exists|w: int| 0 <= w < x && c1@[w] == #[trigger] r@[a],
                forall|a: int|
                    0 <= a < x && (#[trigger] c1@[a]).v_id != pivot ==> r@.contains(c1@[a]),
            decreases n1 - x,
        {
            let l = c1[x];
            if l.v_id != pivot {
                let ghost pre = r@;
                r.push(l);
                proof {
                    assert forall|a: int|
                        0 <= a < x + 1 && (#[trigger] c1@[a]).v_id != pivot implies r@.contains(
                        c1@[a],
                    ) by {
                        if a < x {
                            let w = choose|w: int| 0 <= w < pre.len() && pre[w] == c1@[a];
                            assert(r@[w] == c1@[a]);
                        } else {
                            assert(r@[r@.len() - 1] == c1@[a]);
                        }
                    }
                    assert forall|a: int, b: int|
                        0 <= a < b < r@.len() implies (#[trigger] r@[a]).v_id != (
                    #[trigger] r@[b]).v_id by {
                        if b == r@.len() - 1 {
                            assert(r@[a] == pre[a]);
                            let w = choose|w: int| 0 <= w < x && c1@[w] == pre[a];
                            assert(c1@[w].v_id != c1@[x as int].v_id);
                            assert(r@[b] == c1@[x as int]);
                        } else {
                            assert(r@[a] == pre[a] && r@[b] == pre[b]);
                        }
                    }
                    assert forall|a: int| 0 <= a < r@.len() implies exists|w: int|
                        0 <= w < x + 1 && c1@[w] == #[trigger] r@[a] by {
                        if a == r@.len() - 1 {
                            assert(c1@[x as int] == r@[a]);
                        } else {
                            assert(r@[a] == pre[a]);
                            let w = choose|w: int| 0 <= w < x && c1@[w] == pre[a];
                            assert(0 <= w < x + 1 && c1@[w] == r@[a]);
                        }
                    }
                }
            }
            x = x + 1;
        }
        proof {
            assert forall|a: int| 0 <= a < r@.len() implies c1@.contains(#[trigger] r@[a]) by {
                let w = choose|w: int| 0 <= w < n1 && c1@[w] == r@[a];
            }
        }
        let ghost r1 = r@;
        let n2 = c2.len();
        let mut y: usize = 0;
        while y < n2
            invariant
                y <= n2,
                n2 == c2@.len(),
                self.wf(),
                forall|a: int| 0 <= a < c1@.len() ==> (#[trigger] c1@[a]).v_id < self.n(),
                forall|a: int| 0 <= a < c2@.len() ==> (#[trigger] c2@[a]).v_id < self.n(),
                forall|a: int, b: int|
                    0 <= a < b < c2@.len() ==> (#[trigger] c2@[a]).v_id != (#[trigger] c2@[b]).v_id,
                forall|a: int| 0 <= a < c1@.len() ==> lit_false(self.valuation@, #[trigger] c1@[a]),
                forall|a: int|
                    0 <= a < c2@.len() && (#[trigger] c2@[a]).v_id != pivot ==> lit_false(
                        self.valuation@,
                        c2@[a],
                    ),
                forall|a: int, b: int|
                    0 <= a < b < r@.len() ==> (#[trigger] r@[a]).v_id != (#[trigger] r@[b]).v_id,
                forall|a: int| 0 <= a < r@.len() ==> (#[trigger] r@[a]).v_id < self.n(),
                forall|a: int| 0 <= a < r@.len() ==> lit_false(self.valuation@, #[trigger] r@[a]),
                forall|a: int| 0 <= a < r@.len() ==> (#[trigger] r@[a]).v_id != pivot,
                forall|a: int|
                    0 <= a < r@.len() ==> c1@.contains(#[trigger] r@[a]) || c2@.contains(r@[a]),
                forall|a: int|
                    0 <= a < c1@.len() && (#[trigger] c1@[a]).v_id != pivot ==> r@.contains(c1@[a]),
                forall|a: int|
                    0 <= a < y && (#[trigger] c2@[a]).v_id != pivot ==> r@.contains(c2@[a]),
            decreases n2 - y,
        {
            let l = c2[y];
            if l.v_id != pivot {
                match find_var(&r, l.v_id) {
                    Some(w) => {
                        // the variable is present: both literals are false, so
                        // they agree
                        proof {
                            assert(lit_false(self.valuation@, r@[w as int]));
                            assert(lit_false(self.valuation@, c2@[y as int]));
                            assert(r@[w as int] == l);
                            assert(r@.contains(c2@[y as int]));
                        }
                    },
                    None => {
                        let ghost pre = r@;
                        r.push(l);
                        proof {
                            assert forall|a: int, b: int|
                                0 <= a < b < r@.len() implies (#[trigger] r@[a]).v_id != (
                            #[trigger] r@[b]).v_id by {
                                if b == r@.len() - 1 {
                                    assert(r@[a] == pre[a]);
                                    assert(pre[a].v_id != l.v_id);
                                    assert(r@[b] == l);
                                } else {
                                    assert(r@[a] == pre[a] && r@[b] == pre[b]);
                                    assert(pre[a].v_id != pre[b].v_id);
                                }
                            }
                            assert forall|a: int|
                                0 <= a < c1@.len() && (#[trigger] c1@[a]).v_id
                                    != pivot implies r@.contains(c1@[a]) by {
                                let w = choose|w: int| 0 <= w < pre.len() && pre[w] == c1@[a];
                                assert(r@[w] == c1@[a]);
                            }
                            assert forall|a: int|
                                0 <= a < y + 1 && (#[trigger] c2@[a]).v_id
                                    != pivot implies r@.contains(c2@[a]) by {
                                if a < y {
                                    let w = choose|w: int| 0 <= w < pre.len() && pre[w] == c2@[a];
                                    assert(r@[w] == c2@[a]);
                                } else {
                                    assert(r@[r@.len() - 1] == c2@[a]);
                                }
                            }
                            assert forall|a: int| 0 <= a < r@.len() implies c1@.contains(
                                #[trigger] r@[a],
                            ) || c2@.contains(r@[a]) by {
                                if a == r@.len() - 1 {
                                    assert(c2@[y as int] == r@[a]);
                                }
                            }
                        }
                    },
                }
            }
            y = y + 1;
        }
        r
    }
}


/// Append `b` to a copy of `a`.
fn concat_ids(a: &Vec<usize>, b: &Vec<usize>) -> (r: Vec<usize>)
    ensures
        r@ == a@ + b@,
{
    let mut r = crate::solve::watching::clone_ids(a);
    let bn = b.len();
    let mut y: usize = 0;
    while y < bn
        invariant
            y <= bn,
            bn == b@.len(),
            r@ == a@ + b@.subrange(0, y as int),
        decreases bn - y,
    {
        r.push(b[y]);
        proof {
            assert(r@ =~= a@ + b@.subrange(0, y + 1));
        }
        y = y + 1;
    }
    proof {
        assert(b@.subrange(0, bn as int) =~= b@);
    }
    r
}

/// Record the variables of `lits` in `bumps`.
fn push_vars(bumps: &mut Vec<usize>, lits: &Vec<Literal>, bound: usize)
    requires
        forall|x: int| 0 <= x < lits@.len() ==> (#[trigger] lits@[x]).v_id < bound,
        forall|x: int| 0 <= x < old(bumps)@.len() ==> #[trigger] old(bumps)@[x] < bound,
    ensures
        forall|x: int| 0 <= x < final(bumps)@.len() ==> #[trigger] final(bumps)@[x] < bound,
{
    let n = lits.len();
    let mut x: usize = 0;
    while x < n
        invariant
            x <= n,
            n == lits@.len(),
            forall|y: int| 0 <= y < lits@.len() ==> (#[trigger] lits@[y]).v_id < bound,
            forall|y: int| 0 <= y < bumps@.len() ==> #[trigger] bumps@[y] < bound,
        decreases n - x,
    {
        bumps.push(lits[x].v_id);
        x = x + 1;
    }
}

impl Solve {
    /// Every stored clause is entailed by the input clauses its origin
    /// indices select.
    pub proof fn lemma_key_entailed(&self, k: ClauseKey)
        requires
            self.wf(),
            self.key_valid(k),
        ensures
            entails_on(self.fml(), self.n(), self.key_origins(k), self.key_lits(k)),
            forall|oi: int|
                0 <= oi < self.key_origins(k).len() ==> #[trigger] self.key_origins(k)[oi]
                    < self.fml().len(),
    {
        match k {
            ClauseKey::Formula(j) => {
                lemma_clause_entails_itself(self.fml(), self.n(), j);
                assert(self.key_lits(k) == self.fml()[j as int]);
                assert(self.key_origins(k) == seq![j]);
                assert(self.key_origins(k)[0] == j);
            },
            ClauseKey::Learnt(dk) => {
                assert(self.lm()[dk].wf(self.n()));
            },
        }
    }

    /// A copy of the origin indices of a live clause.
    pub(crate) fn key_origins_clone(&self, k: ClauseKey) -> (r: Vec<usize>)
        requires
            self.wf(),
            self.key_valid(k),
        ensures
            r@ == self.key_origins(k),
    {
        match k {
            ClauseKey::Formula(j) => {
                let mut r: Vec<usize> = Vec::new();
                r.push(j);
                proof {
                    assert(r@ =~= seq![j]);
                }
                r
            },
            ClauseKey::Learnt(_) => {
                let c = self.clause_ref(k);
                crate::solve::watching::clone_ids(&c.origins)
            },
        }
    }

    /// What holds of the resolvent throughout analysis: one literal per
    /// variable, all false, entailed by the selected input clauses, and every
    /// literal of the conflict level has its negation on the trail below `i`
    /// (inside the current level's segment).
    pub open spec fn analysis_inv(&self, resolved: Seq<Literal>, origins: Seq<usize>, i: int) -> bool {
        let d = self.current_level();
        &&& forall|x: int| 0 <= x < resolved.len() ==> (#[trigger] resolved[x]).v_id < self.n()
        &&& forall|x: int, y: int|
            0 <= x < y < resolved.len() ==> (#[trigger] resolved[x]).v_id != (
            #[trigger] resolved[y]).v_id
        &&& forall|x: int|
            0 <= x < resolved.len() ==> lit_false(self.valuation@, #[trigger] resolved[x])
        &&& entails_on(self.fml(), self.n(), origins, resolved)
        &&& forall|oi: int| 0 <= oi < origins.len() ==> #[trigger] origins[oi] < self.fml().len()
        &&& forall|x: int|
            0 <= x < resolved.len() && self.lit_at_level(#[trigger] resolved[x], d) ==> exists|j: int|
                self.levels@[d] <= j < i && (#[trigger] self.trail@[j]).lit == resolved[x].spec_negate()
    }

    /// A false literal assigned at the conflict level has its negation on the
    /// trail inside the conflict level's segment.
    proof fn lemma_false_at_level_pos(&self, l: Literal)
        requires
            self.wf(),
            l.v_id < self.n(),
            lit_false(self.valuation@, l),
            self.lit_at_level(l, self.current_level()),
        ensures
            exists|j: int|
                self.levels@[self.current_level()] <= j < self.trail@.len() && (
                #[trigger] self.trail@[j]).lit == l.spec_negate(),
    {
        let d = self.current_level();
        self.lemma_false_lit_on_trail(l);
        let j = choose|j: int|
            0 <= j < self.trail@.len() && (#[trigger] self.trail@[j]).lit == l.spec_negate();
        assert(self.trail@[j].lit.v_id == l.v_id);
        assert(self.variables@[self.trail@[j].lit.v_id as int].decision_level == Some(
            self.trail@[j].level,
        ));
        assert(Some(self.trail@[j].level) == Some(d as usize));
        assert(0 <= d < self.levels@.len());
        assert(self.trail@[j].level == d as usize);
        assert(self.levels@[self.trail@[j].level as int] <= j);
        assert(self.levels@[d] <= j < self.trail@.len() && self.trail@[j].lit == l.spec_negate());
    }

    /// First-UIP analysis by resolution in trail order: starting from the
    /// conflicting clause, resolve with the antecedent of each conflict-level
    /// trail entry, walking backwards, until exactly one literal of the
    /// conflict level remains.
    pub fn simple_analysis_three(&self, conflict: ClauseKey) -> (r: AnalysisResult)
        requires
            self.wf(),
            self.conflict_on(conflict),
            self.current_level() >= 1,
        ensures
            ({
                let d = self.current_level();
                match r {
                    AnalysisResult::AssertingClause(lits, origins, bumps) => {
                        &&& clause_wf(lits@, self.n())
                        &&& forall|x: int|
                            0 <= x < lits@.len() ==> lit_false(self.valuation@, #[trigger] lits@[x])
                        &&& entails_on(self.fml(), self.n(), origins@, lits@)
                        &&& forall|oi: int|
                            0 <= oi < origins@.len() ==> #[trigger] origins@[oi] < self.fml().len()
                        &&& exists|x: int|
                            0 <= x < lits@.len() && self.lit_at_level(#[trigger] lits@[x], d)
                                && forall|y: int|
                                0 <= y < lits@.len() && y != x ==> !self.lit_at_level(
                                    #[trigger] lits@[y],
                                    d,
                                )
                        &&& forall|b: int| 0 <= b < bumps@.len() ==> #[trigger] bumps@[b] < self.n()
                    },
                }
            }),
    {
        let d: usize = self.levels.len() - 1;
        let level_start = self.levels[d];
        let mut resolved: Vec<Literal> = {
            let c = self.clause_ref(conflict);
            c.clause_clone()
        };
        let mut origins: Vec<usize> = self.key_origins_clone(conflict);
        let mut bumps: Vec<usize> = Vec::new();
        proof {
            self.lemma_key_lits_wf(conflict);
            self.lemma_key_entailed(conflict);
            assert forall|x: int|
                0 <= x < resolved@.len() && self.lit_at_level(
                    #[trigger] resolved@[x],
                    d as int,
                ) implies exists|j: int|
                self.levels@[d as int] <= j < self.trail@.len() && (#[trigger] self.trail@[j]).lit
                    == resolved@[x].spec_negate() by {
                self.lemma_false_at_level_pos(resolved@[x]);
            }
            assert(self.analysis_inv(resolved@, origins@, self.trail@.len() as int));
        }
        let mut count = self.count_lits_at_level(&resolved, d);
        proof {
            let x0 = choose|x: int|
                0 <= x < self.key_lits(conflict).len()
                    && self.variables@[(#[trigger] self.key_lits(conflict)[x]).v_id as int].decision_level
                    == Some((self.levels@.len() - 1) as usize);
            assert(self.lit_at_level(resolved@[x0], d as int));
            self.lemma_count_pos(resolved@, d as int, x0);
        }
        let mut i = self.trail.len();
        while count > 1
            invariant
                self.wf(),
                self.current_level() == d,
                d >= 1,
                d < self.levels@.len(),
                level_start == self.levels@[d as int],
                self.analysis_inv(resolved@, origins@, i as int),
                count == self.count_at_level(resolved@, d as int),
                count >= 1,
                i <= self.trail@.len(),
                level_start <= i,
                forall|b: int| 0 <= b < bumps@.len() ==> #[trigger] bumps@[b] < self.n(),
            decreases i,
        {
            proof {
                // two conflict-level literals have distinct trail positions
                // below i, so i is at least two past the level's start
                self.lemma_count_two(resolved@, d as int);
                let (x1, y1) = choose|x1: int, y1: int|
                    0 <= x1 < y1 < resolved@.len() && self.lit_at_level(#[trigger] resolved@[x1], d as int)
                        && self.lit_at_level(#[trigger] resolved@[y1], d as int);
                let j1 = choose|j: int|
                    self.levels@[d as int] <= j < i && (#[trigger] self.trail@[j]).lit
                        == resolved@[x1].spec_negate();
                let j2 = choose|j: int|
                    self.levels@[d as int] <= j < i && (#[trigger] self.trail@[j]).lit
                        == resolved@[y1].spec_negate();
                assert(j1 != j2) by {
                    assert(resolved@[x1].v_id != resolved@[y1].v_id);
                }
                assert(i >= self.levels@[d as int] + 2);
            }
            let e = self.trail[i - 1];
            proof {
                // the entry sits at the conflict level, past its decision
                assert(e.level == d) by {
                    if e.level < d {
                        assert(i - 1 < self.levels@[d as int]);
                    }
                    assert(e.level < self.levels@.len());
                }
                assert(lit_true(self.valuation@, e.lit));
            }
            match find_var(&resolved, e.lit.v_id) {
                Some(x) => {
                    proof {
                        assert(lit_false(self.valuation@, resolved@[x as int]));
                        assert(resolved@[x as int] == e.lit.spec_negate());
                        // a mid-level entry is always a propagation
                        match e.source {
                            LiteralSource::Choice => {
                                assert(self.levels@[e.level as int] == i - 1);
                                assert(false);
                            },
                            LiteralSource::Deduced(_) => {
                                assert(self.entry_just(i - 1));
                                assert(false);
                            },
                            LiteralSource::HobsonChoice => {
                                assert(self.entry_just(i - 1));
                                assert(false);
                            },
                            LiteralSource::StoredClause(_) => {},
                        }
                    }
                    let ak = match e.source {
                        LiteralSource::StoredClause(ak) => ak,
                        _ => vstd::pervasive::unreached(),
                    };
                    proof {
                        assert(self.entry_just(i - 1));
                        assert(self.key_valid(ak));
                        self.lemma_key_lits_wf(ak);
                        self.lemma_key_entailed(ak);
                    }
                    let alits = {
                        let c = self.clause_ref(ak);
                        c.clause_clone()
                    };
                    let aorigins = self.key_origins_clone(ak);
                    let pivot = e.lit.v_id;
                    proof {
                        // the antecedent's non-pivot literals are all false
                        assert forall|x2: int|
                            0 <= x2 < alits@.len() && (#[trigger] alits@[x2]).v_id
                                != pivot implies lit_false(self.valuation@, alits@[x2]) by {
                            assert(alits@[x2] != e.lit);
                            let j = choose|j: int|
                                0 <= j < i - 1 && (#[trigger] self.trail@[j]).lit == self.key_lits(
                                    ak,
                                )[x2].spec_negate();
                            assert(lit_true(self.valuation@, self.trail@[j].lit));
                        }
                    }
                    let new_resolved = self.resolve_clauses(&resolved, &alits, pivot);
                    let new_origins = concat_ids(&origins, &aorigins);
                    proof {
                        // resolution is sound: the pivot occurs with opposite
                        // polarities
                        assert forall|a: int, b: int|
                            0 <= a < resolved@.len() && 0 <= b < alits@.len() && (
                            #[trigger] resolved@[a]).v_id == pivot && (#[trigger] alits@[b]).v_id
                                == pivot implies resolved@[a].polarity != alits@[b].polarity by {
                            assert(resolved@[a] == resolved@[x as int]);
                            let xe = choose|xe: int|
                                0 <= xe < self.key_lits(ak).len() && #[trigger] self.key_lits(
                                    ak,
                                )[xe] == e.lit;
                            assert(alits@[b] == alits@[xe]);
                        }
                        lemma_resolution(
                            self.fml(),
                            self.n(),
                            origins@,
                            aorigins@,
                            resolved@,
                            alits@,
                            pivot,
                            new_resolved@,
                        );
                        // conflict-level literals of the resolvent still have
                        // their negations below i - 1
                        assert forall|x2: int|
                            0 <= x2 < new_resolved@.len() && self.lit_at_level(
                                #[trigger] new_resolved@[x2],
                                d as int,
                            ) implies exists|j: int|
                            self.levels@[d as int] <= j < i - 1 && (#[trigger] self.trail@[j]).lit
                                == new_resolved@[x2].spec_negate() by {
                            let l = new_resolved@[x2];
                            assert(l.v_id != pivot);
                            if resolved@.contains(l) {
                                let a = choose|a: int|
                                    0 <= a < resolved@.len() && resolved@[a] == l;
                                assert(self.lit_at_level(resolved@[a], d as int));
                                let j = choose|j: int|
                                    self.levels@[d as int] <= j < i && (
                                    #[trigger] self.trail@[j]).lit == resolved@[a].spec_negate();
                                assert(j != i - 1) by {
                                    if j == i - 1 {
                                        assert(self.trail@[j].lit == e.lit);
                                        assert(l.v_id == pivot);
                                    }
                                }
                                assert(self.levels@[d as int] <= j < i - 1 && self.trail@[j].lit
                                    == l.spec_negate());
                            } else {
                                assert(alits@.contains(l));
                                let b = choose|b: int| 0 <= b < alits@.len() && alits@[b] == l;
                                assert(alits@[b] != e.lit);
                                let j = choose|j: int|
                                    0 <= j < i - 1 && (#[trigger] self.trail@[j]).lit
                                        == self.key_lits(ak)[b].spec_negate();
                                assert(self.trail@[j].lit == l.spec_negate());
                                assert(self.trail@[j].lit.v_id == l.v_id);
                                assert(self.variables@[l.v_id as int].decision_level == Some(
                                    self.trail@[j].level,
                                ));
                                assert(self.trail@[j].level == d);
                                assert(self.levels@[d as int] <= j);
                            }
                        }
                        // some conflict-level literal other than the pivot
                        // survives
                        self.lemma_count_two(resolved@, d as int);
                        let (x1, y1) = choose|x1: int, y1: int|
                            0 <= x1 < y1 < resolved@.len() && self.lit_at_level(
                                #[trigger] resolved@[x1],
                                d as int,
                            ) && self.lit_at_level(#[trigger] resolved@[y1], d as int);
                        let keep = if resolved@[x1].v_id != pivot {
                            x1
                        } else {
                            y1
                        };
                        assert(resolved@[keep].v_id != pivot) by {
                            assert(resolved@[x1].v_id != resolved@[y1].v_id);
                        }
                        assert(new_resolved@.contains(resolved@[keep]));
                        let kp = choose|kp: int|
                            0 <= kp < new_resolved@.len() && new_resolved@[kp] == resolved@[keep];
                        self.lemma_count_pos(new_resolved@, d as int, kp);
                        assert(self.analysis_inv(new_resolved@, new_origins@, i - 1));
                    }
                    push_vars(&mut bumps, &alits, self.formula.n_vars);
                    resolved = new_resolved;
                    origins = new_origins;
                    count = self.count_lits_at_level(&resolved, d);
                },
                None => {
                    proof {
                        // no literal of the resolvent is over this entry's
                        // variable, so positions below i - 1 still cover all
                        // conflict-level literals
                        assert forall|x2: int|
                            0 <= x2 < resolved@.len() && self.lit_at_level(
                                #[trigger] resolved@[x2],
                                d as int,
                            ) implies exists|j: int|
                            self.levels@[d as int] <= j < i - 1 && (#[trigger] self.trail@[j]).lit
                                == resolved@[x2].spec_negate() by {
                            let j = choose|j: int|
                                self.levels@[d as int] <= j < i && (#[trigger] self.trail@[j]).lit
                                    == resolved@[x2].spec_negate();
                            assert(j != i - 1) by {
                                if j == i - 1 {
                                    assert(self.trail@[j].lit.v_id == resolved@[x2].v_id);
                                }
                            }
                        }
                    }
                },
            }
            i = i - 1;
        }
        proof {
            self.lemma_count_one(resolved@, d as int);
            assert(resolved@.len() >= 1) by {
                self.lemma_count_some(resolved@, d as int);
                let x = choose|x: int|
                    0 <= x < resolved@.len() && self.lit_at_level(#[trigger] resolved@[x], d as int);
            }
            assert(clause_wf(resolved@, self.n()));
            assert(entails_on(self.fml(), self.n(), origins@, resolved@));
            assert(forall|x: int|
                0 <= x < resolved@.len() ==> lit_false(self.valuation@, #[trigger] resolved@[x]));
            assert(d as int == self.current_level());
            assert(exists|x: int|
                0 <= x < resolved@.len() && self.lit_at_level(#[trigger] resolved@[x], self.current_level())
                    && forall|y: int|
                    0 <= y < resolved@.len() && y != x ==> !self.lit_at_level(
                        #[trigger] resolved@[y],
                        self.current_level(),
                    ));
        }
        let result = AnalysisResult::AssertingClause(resolved, origins, bumps);
        proof {
            let dd = self.current_level();
            match &result {
                AnalysisResult::AssertingClause(lits, origins2, bumps2) => {
                    assert(clause_wf(lits@, self.n()));
                    assert(forall|x: int|
                        0 <= x < lits@.len() ==> lit_false(self.valuation@, #[trigger] lits@[x]));
                    assert(entails_on(self.fml(), self.n(), origins2@, lits@));
                    assert(forall|oi: int|
                        0 <= oi < origins2@.len() ==> #[trigger] origins2@[oi] < self.fml().len());
                    assert(exists|x: int|
                        0 <= x < lits@.len() && self.lit_at_level(#[trigger] lits@[x], dd)
                            && forall|y: int|
                            0 <= y < lits@.len() && y != x ==> !self.lit_at_level(
                                #[trigger] lits@[y],
                                dd,
                            ));
                    assert(forall|b: int| 0 <= b < bumps2@.len() ==> #[trigger] bumps2@[b] < self.n());
                },
            }
        }
        result
    }
}

} // verus!
