//! The input formula: a variable count and the ingested clauses.  The
//! builder validates each clause: an empty clause is rejected, a variable out
//! of range is rejected, a tautology is reported as trivially satisfied and
//! skipped, and repeated literals are dropped.

use vstd::prelude::*;

use crate::clause::{clause_wf, Clause, ClauseError};
use crate::literal::Literal;
use crate::semantics::clause_same_lits;

verus! {

/// What became of a clause handed to the builder.
#[derive(Clone, Copy, Debug, PartialEq, Eq, Structural)]
pub enum AddOutcome {
    /// The clause was ingested.
    Added,
    /// The clause held a literal and its negation: it is satisfied by every
    /// assignment and was skipped.
    Trivial,
}

/// The position of a literal over variable `v` in `kept`, if any.
pub(crate) fn find_var(kept: &Vec<Literal>, v: usize) -> (r: Option<usize>)
    ensures
        match r {
            Some(k) => k < kept@.len() && kept@[k as int].v_id == v,
            None => forall|k: int| 0 <= k < kept@.len() ==> (#[trigger] kept@[k]).v_id != v,
        },
{
    let n = kept.len();
    let mut k: usize = 0;
    while k < n
        invariant
            k <= n,
            n == kept@.len(),
            forall|k2: int| 0 <= k2 < k ==> (#[trigger] kept@[k2]).v_id != v,
        decreases n - k,
    {
        if kept[k].v_id == v {
            return Some(k);
        }
        k = k + 1;
    }
    None
}

/// Whether some literal's variable is at or above `n_vars`.
fn any_out_of_range(lits: &Vec<Literal>, n_vars: usize) -> (r: bool)
    ensures
        r == exists|i: int| 0 <= i < lits@.len() && (#[trigger] lits@[i]).v_id >= n_vars,
{
    let n = lits.len();
    let mut i: usize = 0;
    while i < n
        invariant
            i <= n,
            n == lits@.len(),
            forall|j: int| 0 <= j < i ==> (#[trigger] lits@[j]).v_id < n_vars,
        decreases n - i,
    {
        if lits[i].v_id >= n_vars {
            return true;
        }
        i = i + 1;
    }
    false
}

/// Drop repeated literals, keeping the first occurrence of each variable.
/// `None` when the clause holds a variable in both polarities.
fn dedup_clause(lits: &Vec<Literal>) -> (r: Option<Vec<Literal>>)
    ensures
        match r {
            None => exists|i: int, j: int|
                0 <= i < lits@.len() && 0 <= j < lits@.len() && (#[trigger] lits@[i]).v_id == (
                #[trigger] lits@[j]).v_id && lits@[i].polarity != lits@[j].polarity,
            Some(kept) => {
                &&& lits@.len() > 0 ==> kept@.len() > 0
                &&& forall|k: int| 0 <= k < kept@.len() ==> lits@.contains(#[trigger] kept@[k])
                &&& forall|j: int| 0 <= j < lits@.len() ==> kept@.contains(#[trigger] lits@[j])
                &&& forall|k1: int, k2: int|
                    0 <= k1 < k2 < kept@.len() ==> (#[trigger] kept@[k1]).v_id != (
                    #[trigger] kept@[k2]).v_id
                &&& forall|i: int, j: int|
                    0 <= i < lits@.len() && 0 <= j < lits@.len() && (#[trigger] lits@[i]).v_id == (
                    #[trigger] lits@[j]).v_id ==> lits@[i].polarity == lits@[j].polarity
                &&& clause_same_lits(kept@, lits@)
            },
        },
{
    let n = lits.len();
    let mut kept: Vec<Literal> = Vec::new();
    let mut i: usize = 0;
    while i < n
        invariant
            i <= n,
            n == lits@.len(),
            forall|k: int| 0 <= k < kept@.len() ==> lits@.contains(#[trigger] kept@[k]),
            forall|j: int| 0 <= j < i ==> kept@.contains(#[trigger] lits@[j]),
            forall|k1: int, k2: int|
                0 <= k1 < k2 < kept@.len() ==> (#[trigger] kept@[k1]).v_id != (
                #[trigger] kept@[k2]).v_id,
            forall|j1: int, j2: int|
                0 <= j1 < i && 0 <= j2 < i && (#[trigger] lits@[j1]).v_id == (
                #[trigger] lits@[j2]).v_id ==> lits@[j1].polarity == lits@[j2].polarity,
            i > 0 ==> kept@.len() > 0,
        decreases n - i,
    {
        let l = lits[i];
        match find_var(&kept, l.v_id) {
            Some(k) => {
                let rep = kept[k];
                proof {
                    assert(lits@.contains(kept@[k as int]));
                }
                if rep.polarity != l.polarity {
                    // a variable in both polarities: trivially satisfied
                    proof {
                        assert(lits@.contains(rep));
                        let ji = choose|j: int| 0 <= j < lits@.len() && lits@[j] == rep;
                        assert(lits@[ji].v_id == lits@[i as int].v_id && lits@[ji].polarity
                            != lits@[i as int].polarity);
                    }
                    return None;
                }
                // a repeated literal: skip it
                proof {
                    assert(rep == l);
                    assert(kept@.contains(lits@[i as int]));
                    assert forall|j1: int, j2: int|
                        0 <= j1 < i + 1 && 0 <= j2 < i + 1 && (#[trigger] lits@[j1]).v_id == (
                        #[trigger] lits@[j2]).v_id implies lits@[j1].polarity
                        == lits@[j2].polarity by {
                        if j1 == i && j2 < i && lits@[j2].v_id == l.v_id {
                            assert(kept@.contains(lits@[j2]));
                            lemma_same_var_in_kept(kept@, lits@[j2], rep);
                        }
                        if j2 == i && j1 < i && lits@[j1].v_id == l.v_id {
                            assert(kept@.contains(lits@[j1]));
                            lemma_same_var_in_kept(kept@, lits@[j1], rep);
                        }
                    }
                }
            },
            None => {
                proof {
                    assert forall|j1: int, j2: int|
                        0 <= j1 < i + 1 && 0 <= j2 < i + 1 && (#[trigger] lits@[j1]).v_id == (
                        #[trigger] lits@[j2]).v_id implies lits@[j1].polarity
                        == lits@[j2].polarity by {
                        if j1 == i && j2 < i && lits@[j2].v_id == l.v_id {
                            assert(kept@.contains(lits@[j2]));
                        }
                        if j2 == i && j1 < i && lits@[j1].v_id == l.v_id {
                            assert(kept@.contains(lits@[j1]));
                        }
                    }
                }
                let ghost pre_kept = kept@;
                kept.push(l);
                proof {
                    assert forall|j: int| 0 <= j < i + 1 implies kept@.contains(
                        #[trigger] lits@[j],
                    ) by {
                        if j < i {
                            let kx = choose|kx: int|
                                0 <= kx < pre_kept.len() && pre_kept[kx] == lits@[j];
                            assert(kept@[kx] == lits@[j]);
                        } else {
                            assert(kept@[kept@.len() - 1] == l);
                        }
                    }
                }
            },
        }
        i = i + 1;
    }
    proof {
        assert forall|l: Literal| #[trigger] kept@.contains(l) implies lits@.contains(l) by {
            let k = choose|k: int| 0 <= k < kept@.len() && kept@[k] == l;
            assert(lits@.contains(kept@[k]));
        }
        assert forall|l: Literal| #[trigger] lits@.contains(l) implies kept@.contains(l) by {
            let j = choose|j: int| 0 <= j < lits@.len() && lits@[j] == l;
            assert(kept@.contains(lits@[j]));
        }
    }
    Some(kept)
}

/// In a sequence with pairwise distinct variables, two members over the same
/// variable are the same literal.
proof fn lemma_same_var_in_kept(kept: Seq<Literal>, a: Literal, b: Literal)
    requires
        forall|k1: int, k2: int|
            0 <= k1 < k2 < kept.len() ==> (#[trigger] kept[k1]).v_id != (#[trigger] kept[k2]).v_id,
        kept.contains(a),
        kept.contains(b),
        a.v_id == b.v_id,
    ensures
        a == b,
{
    let ka = choose|ka: int| 0 <= ka < kept.len() && kept[ka] == a;
    let kb = choose|kb: int| 0 <= kb < kept.len() && kept[kb] == b;
    if ka != kb {
        assert(kept[ka].v_id != kept[kb].v_id);
    }
}

/// A formula in conjunctive normal form over variables `0 .. n_vars`.
#[derive(Debug)]
pub struct Formula {
    pub n_vars: usize,
    pub clauses: Vec<Clause>,
}

impl Formula {
    /// The mathematical formula: the literal sequence of each clause.
    pub open spec fn fml(&self) -> Seq<Seq<Literal>> {
        self.clauses@.map_values(|c: Clause| c.literals@)
    }

    pub open spec fn wf(&self) -> bool {
        forall|i: int| 0 <= i < self.fml().len() ==> clause_wf(#[trigger] self.fml()[i], self.n_vars as nat)
    }

    pub fn new(n_vars: usize) -> (f: Formula)
        ensures
            f.n_vars == n_vars,
            f.fml() =~= Seq::<Seq<Literal>>::empty(),
            f.wf(),
    {
        Formula { n_vars, clauses: Vec::new() }
    }

    pub fn n_vars(&self) -> (r: usize)
        ensures
            r == self.n_vars,
    {
        self.n_vars
    }

    pub fn clause_count(&self) -> (r: usize)
        ensures
            r == self.fml().len(),
    {
        self.clauses.len()
    }

    /// Validate and ingest one clause.
    ///
    /// An empty clause is rejected with `ClauseError::Empty`; a literal whose
    /// variable is not below `n_vars` is rejected with
    /// `ClauseError::OutOfRange`; a clause holding a variable in both
    /// polarities is reported `Trivial` and skipped; otherwise the clause is
    /// appended with its repeated literals dropped.
    pub fn add_clause(&mut self, lits: &Vec<Literal>) -> (r: Result<AddOutcome, ClauseError>)
        requires
            old(self).wf(),
        ensures
            final(self).n_vars == old(self).n_vars,
            final(self).wf(),
            match r {
                Err(ClauseError::Empty) => lits@.len() == 0 && final(self).fml() == old(self).fml(),
                Err(ClauseError::OutOfRange) => lits@.len() > 0 && (exists|i: int|
                    0 <= i < lits@.len() && (#[trigger] lits@[i]).v_id >= old(self).n_vars)
                    && final(self).fml() == old(self).fml(),
                Ok(AddOutcome::Trivial) => {
                    &&& lits@.len() > 0
                    &&& forall|i: int|
                        0 <= i < lits@.len() ==> (#[trigger] lits@[i]).v_id < old(self).n_vars
                    &&& exists|i: int, j: int|
                        0 <= i < lits@.len() && 0 <= j < lits@.len() && (#[trigger] lits@[i]).v_id
                            == (#[trigger] lits@[j]).v_id && lits@[i].polarity != lits@[j].polarity
                    &&& final(self).fml() == old(self).fml()
                },
                Ok(AddOutcome::Added) => {
                    &&& lits@.len() > 0
                    &&& forall|i: int|
                        0 <= i < lits@.len() ==> (#[trigger] lits@[i]).v_id < old(self).n_vars
                    &&& forall|i: int, j: int|
                        0 <= i < lits@.len() && 0 <= j < lits@.len() && (#[trigger] lits@[i]).v_id
                            == (#[trigger] lits@[j]).v_id ==> lits@[i].polarity
                            == lits@[j].polarity
                    &&& final(self).fml().len() == old(self).fml().len() + 1
                    &&& final(self).fml() =~= old(self).fml().push(final(self).fml().last())
                    &&& clause_same_lits(final(self).fml().last(), lits@)
                    &&& clause_wf(final(self).fml().last(), old(self).n_vars as nat)
                },
            },
    {
        if lits.len() == 0 {
            return Err(ClauseError::Empty);
        }
        if any_out_of_range(lits, self.n_vars) {
            return Err(ClauseError::OutOfRange);
        }
        let kept_opt = dedup_clause(lits);
        match kept_opt {
            None => Ok(AddOutcome::Trivial),
            Some(kept) => {
                let id = self.clauses.len();
                let clause = Clause { id, literals: kept };
                proof {
                    assert(clause.literals@.len() > 0);
                    assert forall|l: Literal| #[trigger] clause.literals@.contains(l)
                        implies lits@.contains(l) by {
                        let k = choose|k: int|
                            0 <= k < clause.literals@.len() && clause.literals@[k] == l;
                        assert(lits@.contains(clause.literals@[k]));
                    }
                    assert forall|k: int| 0 <= k < clause.literals@.len() implies (
                    #[trigger] clause.literals@[k]).v_id < self.n_vars by {
                        assert(lits@.contains(clause.literals@[k]));
                        let j = choose|j: int|
                            0 <= j < lits@.len() && lits@[j] == clause.literals@[k];
                        assert(lits@[j].v_id < self.n_vars);
                    }
                }
                let ghost pre = self.fml();
                self.clauses.push(clause);
                proof {
                    assert(self.fml() =~= pre.push(clause.literals@));
                    assert(self.fml().last() == clause.literals@);
                }
                Ok(AddOutcome::Added)
            },
        }
    }
}


} // verus!
