//! Reading DIMACS CNF text into a formula, and rendering results back in
//! DIMACS conventions.

use vstd::prelude::*;

use crate::formula::Formula;
use crate::literal::Literal;
use crate::solve::base::Solve;
use crate::solve::solves::SolveResult;

verus! {

/// Why DIMACS text was rejected.
#[derive(Clone, Copy, Debug, PartialEq, Eq, Structural)]
pub enum ParseError {
    /// No `p cnf <vars> <clauses>` header line.
    MissingHeader,
    /// A malformed or oversized header.
    BadHeader,
    /// A token that is not an integer, or one out of the supported range.
    BadLiteral,
    /// A clause with no literals.
    EmptyClause,
    /// A literal names a variable above the declared count.
    OutOfRange,
    /// Text ended inside a clause, before its terminating zero.
    UnterminatedClause,
}

/// Whether the byte is ASCII whitespace.
pub open spec fn spec_space(b: u8) -> bool {
    b == 32 || b == 9 || b == 10 || b == 13
}

/// Position `i` starts a line.
pub open spec fn spec_line_start(text: Seq<u8>, i: int) -> bool {
    i == 0 || text[i - 1] == 10 || text[i - 1] == 13
}

/// The position of the next token: whitespace and comment lines (a `c` at a
/// line start, up to the newline) are passed over.
pub open spec fn spec_skip(text: Seq<u8>, i: int, in_comment: bool) -> int
    decreases text.len() - i,
{
    if i < 0 || i >= text.len() {
        text.len() as int
    } else if in_comment {
        spec_skip(text, i + 1, text[i] != 10)
    } else if spec_space(text[i]) {
        spec_skip(text, i + 1, false)
    } else if text[i] == 99 && spec_line_start(text, i) {
        spec_skip(text, i + 1, true)
    } else {
        i
    }
}

/// The end of the token starting at `i`: the next whitespace or the end of
/// the text.
pub open spec fn spec_token_end(text: Seq<u8>, i: int) -> int
    decreases text.len() - i,
{
    if i < 0 || i >= text.len() || spec_space(text[i]) {
        i
    } else {
        spec_token_end(text, i + 1)
    }
}

/// Whether the byte is ASCII whitespace.
fn is_space(b: u8) -> (r: bool)
    ensures
        r == spec_space(b),
{
    b == 32 || b == 9 || b == 10 || b == 13
}

/// Advance past whitespace and comment lines to the next token start.
fn skip_blanks(text: &[u8], i: &mut usize)
    requires
        *old(i) <= text@.len(),
    ensures
        *final(i) <= text@.len(),
        *final(i) >= *old(i),
        *final(i) as int == spec_skip(text@, *old(i) as int, false),
        *final(i) < text@.len() ==> !spec_space(text@[*final(i) as int]),
{
    let n = text.len();
    loop
        invariant
            *i <= n,
            n == text@.len(),
            *i >= *old(i),
            spec_skip(text@, *old(i) as int, false) == spec_skip(text@, *i as int, false),
        ensures
            *i <= n,
            *i >= *old(i),
            *i as int == spec_skip(text@, *old(i) as int, false),
            *i < n ==> !spec_space(text@[*i as int]),
        decreases n - *i,
    {
        if *i >= n {
            return ;
        }
        let b = text[*i];
        let at_line_start = *i == 0 || text[*i - 1] == 10 || text[*i - 1] == 13;
        if is_space(b) {
            *i = *i + 1;
        } else if b == 99 && at_line_start {
            // a comment line: consume it up to the newline
            *i = *i + 1;
            let ghost mid = *i;
            while *i < n && text[*i] != 10
                invariant
                    mid <= *i <= n,
                    n == text@.len(),
                    spec_skip(text@, *old(i) as int, false) == spec_skip(text@, *i as int, true),
                decreases n - *i,
            {
                *i = *i + 1;
            }
            proof {
                // at the newline (or the end) the comment state is spent
                assert(spec_skip(text@, *i as int, true) == spec_skip(text@, *i as int, false));
            }
        } else {
            return ;
        }
    }
}

/// Read one token (a maximal run of non-space bytes) starting at `*i`.
fn next_token(text: &[u8], i: &mut usize) -> (r: Option<(usize, usize)>)
    requires
        *old(i) <= text@.len(),
    ensures
        *final(i) <= text@.len(),
        *final(i) >= *old(i),
        match r {
            Some((s, e)) => {
                &&& s < e && e <= text@.len() && e == *final(i) && *old(i) <= s
                &&& s as int == spec_skip(text@, *old(i) as int, false)
                &&& e as int == spec_token_end(text@, s as int)
            },
            None => spec_skip(text@, *old(i) as int, false) == text@.len(),
        },
{
    skip_blanks(text, i);
    let n = text.len();
    if *i >= n {
        return None;
    }
    let start = *i;
    proof {
        assert(!spec_space(text@[start as int]));
    }
    while *i < n && !is_space(text[*i])
        invariant
            start <= *i <= n,
            n == text@.len(),
            spec_token_end(text@, start as int) == spec_token_end(text@, *i as int),
        decreases n - *i,
    {
        *i = *i + 1;
    }
    proof {
        assert(spec_token_end(text@, *i as int) == *i);
        if *i == start {
            assert(spec_space(text@[start as int]) || start == n);
        }
    }
    Some((start, *i))
}

/// The value of a digit run, with the magnitude cut off as the reader cuts
/// it off.
pub open spec fn spec_int_from(text: Seq<u8>, i: int, end: int, acc: nat) -> Option<nat>
    decreases end - i,
{
    if i >= end {
        Some(acc)
    } else if text[i] < 48 || text[i] > 57 {
        None
    } else if acc > 100_000_000 {
        None
    } else {
        spec_int_from(text, i + 1, end, (acc * 10 + (text[i] - 48)) as nat)
    }
}

/// The token bytes read as a signed integer.
pub open spec fn spec_parse_int(text: Seq<u8>, start: int, end: int) -> Option<(bool, nat)> {
    let negative = start < end && text[start] == 45;
    let i0 = if negative {
        start + 1
    } else {
        start
    };
    if i0 >= end {
        None
    } else {
        match spec_int_from(text, i0, end, 0) {
            Some(v) => Some((negative, v)),
            None => None,
        }
    }
}

/// Parse the token bytes as a signed integer with magnitude below a billion.
fn parse_int(text: &[u8], start: usize, end: usize) -> (r: Option<(bool, usize)>)
    requires
        start <= end,
        end <= text@.len(),
    ensures
        match r {
            Some((neg, v)) => spec_parse_int(text@, start as int, end as int) == Some(
                (neg, v as nat),
            ),
            None => spec_parse_int(text@, start as int, end as int) is None,
        },
{
    let mut i = start;
    let mut negative = false;
    if i < end && text[i] == 45 {
        negative = true;
        i = i + 1;
    }
    if i >= end {
        return None;
    }
    let mut value: usize = 0;
    while i < end
        invariant
            start <= i <= end,
            end <= text@.len(),
            value <= 0x4000_0000,
            spec_int_from(
                text@,
                if negative {
                    start + 1
                } else {
                    start as int
                },
                end as int,
                0,
            ) == spec_int_from(text@, i as int, end as int, value as nat),
            negative == (start < end && text@[start as int] == 45),
            i >= start,
            negative ==> i >= start + 1,
        decreases end - i,
    {
        let b = text[i];
        if b < 48 || b > 57 {
            return None;
        }
        if value > 100_000_000 {
            return None;
        }
        value = value * 10 + ((b - 48) as usize);
        i = i + 1;
    }
    Some((negative, value))
}

/// The integers the text spells from position `i` on: each token read as a
/// signed integer, `None` when some token is not one (a minus-signed zero
/// included).
pub open spec fn spec_ints(text: Seq<u8>, i: int) -> Option<Seq<int>>
    decreases text.len() - i,
{
    let s = spec_skip(text, i, false);
    if s >= text.len() {
        Some(Seq::empty())
    } else if s < i {
        None  // cannot happen: skipping never moves backwards
    } else {
        let e = spec_token_end(text, s);
        if e <= i || e > text.len() {
            None  // cannot happen: the token is nonempty and inside the text
        } else {
            match spec_parse_int(text, s, e) {
                None => None,
                Some((neg, v)) => if neg && v == 0 {
                    None
                } else {
                    match spec_ints(text, e) {
                        None => None,
                        Some(rest) => Some(
                            seq![
                                if neg {
                                    0 - (v as int)
                                } else {
                                    v as int
                                },
                            ] + rest,
                        ),
                    }
                },
            }
        }
    }
}

/// Skipping never moves backwards, and a token is never empty.
proof fn lemma_skip_bounds(text: Seq<u8>, i: int, in_comment: bool)
    requires
        0 <= i <= text.len(),
    ensures
        spec_skip(text, i, in_comment) >= i,
        spec_skip(text, i, in_comment) <= text.len(),
    decreases text.len() - i,
{
    if i < text.len() {
        if in_comment {
            lemma_skip_bounds(text, i + 1, text[i] != 10);
        } else if spec_space(text[i]) {
            lemma_skip_bounds(text, i + 1, false);
        } else if text[i] == 99 && spec_line_start(text, i) {
            lemma_skip_bounds(text, i + 1, true);
        }
    }
}

proof fn lemma_token_end_bounds(text: Seq<u8>, i: int)
    requires
        0 <= i <= text.len(),
    ensures
        spec_token_end(text, i) >= i,
        spec_token_end(text, i) <= text.len(),
    decreases text.len() - i,
{
    if !(i >= text.len() || spec_space(text[i])) {
        lemma_token_end_bounds(text, i + 1);
    }
}

/// The first zero of an integer list, or a negative number if none.
pub open spec fn first_zero(ints: Seq<int>) -> int
    decreases ints.len(),
{
    if ints.len() == 0 {
        -1
    } else if ints[0] == 0 {
        0
    } else {
        let r = first_zero(ints.drop_first());
        if r < 0 {
            -1
        } else {
            r + 1
        }
    }
}

/// The zero-terminated groups of an integer list, `None` when the text ends
/// inside a group.
pub open spec fn spec_groups(ints: Seq<int>) -> Option<Seq<Seq<int>>>
    decreases ints.len(),
{
    if ints.len() == 0 {
        Some(Seq::empty())
    } else {
        let z = first_zero(ints);
        if z < 0 || z >= ints.len() {
            None
        } else {
            match spec_groups(ints.subrange(z + 1, ints.len() as int)) {
                Some(rest) => Some(seq![ints.subrange(0, z)] + rest),
                None => None,
            }
        }
    }
}

/// The literal a nonzero DIMACS integer denotes.
pub open spec fn spec_int_lit(k: int) -> Literal {
    if k > 0 {
        Literal { v_id: (k - 1) as usize, polarity: true }
    } else {
        Literal { v_id: (-k - 1) as usize, polarity: false }
    }
}

/// A group holding an integer and its negation is a tautology and is
/// skipped at ingest.
pub open spec fn spec_taut(g: Seq<int>) -> bool {
    exists|a: int, b: int| 0 <= a < g.len() && 0 <= b < g.len() && #[trigger] g[a] == -(#[trigger] g[b])
}

/// The header the text spells: `p`, `cnf`, then two unsigned integers.
pub open spec fn spec_header_ok(text: Seq<u8>) -> bool {
    let s0 = spec_skip(text, 0, false);
    let e0 = spec_token_end(text, s0);
    let s1 = spec_skip(text, e0, false);
    let e1 = spec_token_end(text, s1);
    let s2 = spec_skip(text, e1, false);
    let e2 = spec_token_end(text, s2);
    let s3 = spec_skip(text, e2, false);
    let e3 = spec_token_end(text, s3);
    &&& s0 < text.len() && e0 - s0 == 1 && text[s0] == 112
    &&& s1 < text.len() && e1 - s1 == 3 && text[s1] == 99 && text[s1 + 1] == 110 && text[s1 + 2]
        == 102
    &&& s2 < text.len()
    &&& spec_parse_int(text, s2, e2) matches Some((false, _))
    &&& s3 < text.len()
    &&& spec_parse_int(text, s3, e3) matches Some((false, _))
}

/// The declared variable count.
pub open spec fn spec_header_vars(text: Seq<u8>) -> nat {
    let s0 = spec_skip(text, 0, false);
    let e0 = spec_token_end(text, s0);
    let s1 = spec_skip(text, e0, false);
    let e1 = spec_token_end(text, s1);
    let s2 = spec_skip(text, e1, false);
    let e2 = spec_token_end(text, s2);
    match spec_parse_int(text, s2, e2) {
        Some((_, v)) => v,
        None => 0,
    }
}

/// Where the clause tokens begin: after the fourth header token.
pub open spec fn spec_body_start(text: Seq<u8>) -> int {
    let s0 = spec_skip(text, 0, false);
    let e0 = spec_token_end(text, s0);
    let s1 = spec_skip(text, e0, false);
    let e1 = spec_token_end(text, s1);
    let s2 = spec_skip(text, e1, false);
    let e2 = spec_token_end(text, s2);
    let s3 = spec_skip(text, e2, false);
    spec_token_end(text, s3)
}

/// The groups flattened back into a zero-terminated integer stream.
pub open spec fn join_groups(gs: Seq<Seq<int>>) -> Seq<int>
    decreases gs.len(),
{
    if gs.len() == 0 {
        Seq::empty()
    } else {
        gs.first() + seq![0int] + join_groups(gs.drop_first())
    }
}

/// The groups that are not tautologies: those ingest keeps.
pub open spec fn kept_groups(gs: Seq<Seq<int>>) -> Seq<Seq<int>>
    decreases gs.len(),
{
    if gs.len() == 0 {
        Seq::empty()
    } else {
        kept_groups(gs.drop_last()) + if spec_taut(gs.last()) {
            Seq::empty()
        } else {
            seq![gs.last()]
        }
    }
}

proof fn lemma_join_push(gs: Seq<Seq<int>>, g: Seq<int>)
    ensures
        join_groups(gs.push(g)) == join_groups(gs) + g + seq![0int],
    decreases gs.len(),
{
    if gs.len() == 0 {
        assert(gs.push(g).len() == 1);
        assert(gs.push(g).drop_first() =~= Seq::<Seq<int>>::empty());
        assert(gs.push(g).first() == g);
        assert(join_groups(gs.push(g)) == gs.push(g).first() + seq![0int] + join_groups(
            gs.push(g).drop_first(),
        ));
        assert(join_groups(Seq::<Seq<int>>::empty()) == Seq::<int>::empty());
        assert(join_groups(gs.push(g)) =~= join_groups(gs) + g + seq![0int]);
    } else {
        assert(gs.push(g).first() == gs.first());
        assert(gs.push(g).drop_first() =~= gs.drop_first().push(g));
        lemma_join_push(gs.drop_first(), g);
        assert(join_groups(gs.push(g)) == gs.first() + seq![0int] + join_groups(
            gs.drop_first().push(g),
        ));
        assert(join_groups(gs.push(g)) =~= join_groups(gs) + g + seq![0int]);
    }
}

proof fn lemma_first_zero_of(g: Seq<int>, rest: Seq<int>)
    requires
        forall|x: int| 0 <= x < g.len() ==> #[trigger] g[x] != 0,
    ensures
        first_zero(g + seq![0int] + rest) == g.len(),
    decreases g.len(),
{
    let whole = g + seq![0int] + rest;
    if g.len() == 0 {
        assert(whole[0] == 0);
    } else {
        assert(whole[0] == g[0]);
        assert(whole[0] != 0);
        assert(whole.drop_first() =~= g.drop_first() + seq![0int] + rest);
        assert forall|x: int| 0 <= x < g.drop_first().len() implies #[trigger] g.drop_first()[x]
            != 0 by {
            assert(g.drop_first()[x] == g[x + 1]);
        }
        lemma_first_zero_of(g.drop_first(), rest);
    }
}

/// Rebuilding the stream from zero-free groups parses back to the groups.
proof fn lemma_groups_join(gs: Seq<Seq<int>>)
    requires
        forall|a: int, x: int|
            0 <= a < gs.len() && 0 <= x < gs[a].len() ==> #[trigger] gs[a][x] != 0,
    ensures
        spec_groups(join_groups(gs)) == Some(gs),
    decreases gs.len(),
{
    if gs.len() == 0 {
    } else {
        let g0 = gs.first();
        let rest = join_groups(gs.drop_first());
        let whole = join_groups(gs);
        assert(whole == g0 + seq![0int] + rest);
        assert forall|x: int| 0 <= x < g0.len() implies #[trigger] g0[x] != 0 by {
            assert(gs[0][x] != 0);
        }
        lemma_first_zero_of(g0, rest);
        assert(first_zero(whole) == g0.len());
        assert(whole.len() > 0) by {
            assert(whole.len() == g0.len() + 1 + rest.len());
        }
        assert(whole.subrange(0, g0.len() as int) =~= g0);
        assert(whole.subrange(g0.len() as int + 1, whole.len() as int) =~= rest);
        assert forall|a: int, x: int|
            0 <= a < gs.drop_first().len() && 0 <= x
                < gs.drop_first()[a].len() implies #[trigger] gs.drop_first()[a][x] != 0 by {
            assert(gs.drop_first()[a] == gs[a + 1]);
        }
        lemma_groups_join(gs.drop_first());
        assert(seq![gs.first()] + gs.drop_first() =~= gs);
    }
}

proof fn lemma_kept_push(gs: Seq<Seq<int>>, g: Seq<int>)
    ensures
        spec_taut(g) ==> kept_groups(gs.push(g)) == kept_groups(gs),
        !spec_taut(g) ==> kept_groups(gs.push(g)) == kept_groups(gs).push(g),
{
    assert(gs.push(g).drop_last() =~= gs);
    assert(gs.push(g).last() == g);
    if spec_taut(g) {
        assert(kept_groups(gs.push(g)) =~= kept_groups(gs));
    } else {
        assert(kept_groups(gs.push(g)) =~= kept_groups(gs).push(g));
    }
}

/// Grouping a stream that starts with complete zero-free groups peels them
/// off the front.
proof fn lemma_groups_prefix(gd: Seq<Seq<int>>, tail: Seq<int>)
    requires
        forall|a: int, x: int|
            0 <= a < gd.len() && 0 <= x < gd[a].len() ==> #[trigger] gd[a][x] != 0,
    ensures
        spec_groups(join_groups(gd) + tail) == match spec_groups(tail) {
            Some(gs2) => Some(gd + gs2),
            None => None::<Seq<Seq<int>>>,
        },
    decreases gd.len(),
{
    if gd.len() == 0 {
        assert(join_groups(gd) + tail =~= tail);
        match spec_groups(tail) {
            Some(gs2) => {
                assert(gd + gs2 =~= gs2);
            },
            None => {},
        }
    } else {
        let g0 = gd.first();
        let rest = join_groups(gd.drop_first()) + tail;
        let whole = join_groups(gd) + tail;
        assert(whole =~= g0 + seq![0int] + rest);
        assert forall|x: int| 0 <= x < g0.len() implies #[trigger] g0[x] != 0 by {
            assert(gd[0][x] != 0);
        }
        lemma_first_zero_of(g0, rest);
        assert(whole.len() > 0) by {
            assert(whole.len() == g0.len() + 1 + rest.len());
        }
        assert(whole.subrange(0, g0.len() as int) =~= g0);
        assert(whole.subrange(g0.len() as int + 1, whole.len() as int) =~= rest);
        assert forall|a: int, x: int|
            0 <= a < gd.drop_first().len() && 0 <= x
                < gd.drop_first()[a].len() implies #[trigger] gd.drop_first()[a][x] != 0 by {
            assert(gd.drop_first()[a] == gd[a + 1]);
        }
        lemma_groups_prefix(gd.drop_first(), tail);
        match spec_groups(tail) {
            Some(gs2) => {
                assert(seq![g0] + (gd.drop_first() + gs2) =~= gd + gs2);
            },
            None => {},
        }
    }
}

/// Every nonzero integer of a grouped stream sits in one of its groups.
proof fn lemma_groups_cover(ints: Seq<int>, gs: Seq<Seq<int>>, i: int)
    requires
        spec_groups(ints) == Some(gs),
        0 <= i < ints.len(),
        ints[i] != 0,
    ensures
        exists|a: int, x: int|
            0 <= a < gs.len() && 0 <= x < gs[a].len() && #[trigger] gs[a][x] == ints[i],
    decreases ints.len(),
{
    let z = first_zero(ints);
    assert(0 <= z < ints.len());
    let rest = ints.subrange(z + 1, ints.len() as int);
    let gs2 = choose|gs2: Seq<Seq<int>>| spec_groups(rest) == Some::<Seq<Seq<int>>>(gs2);
    assert(spec_groups(rest) == Some(gs2));
    assert(gs == seq![ints.subrange(0, z)] + gs2);
    assert(ints[z] == 0) by {
        lemma_first_zero_is_zero(ints);
    }
    if i < z {
        assert(gs[0][i] == ints.subrange(0, z)[i]);
        assert(0 <= 0 < gs.len() && 0 <= i < gs[0].len() && gs[0][i] == ints[i]);
    } else {
        assert(i != z);
        lemma_groups_cover(rest, gs2, i - z - 1);
        let (a, x) = choose|a: int, x: int|
            0 <= a < gs2.len() && 0 <= x < gs2[a].len() && #[trigger] gs2[a][x] == rest[i - z - 1];
        assert(gs[a + 1] == gs2[a]);
        assert(0 <= a + 1 < gs.len() && 0 <= x < gs[a + 1].len() && gs[a + 1][x] == ints[i]);
    }
}

/// The first zero really is a zero.
proof fn lemma_first_zero_is_zero(ints: Seq<int>)
    requires
        0 <= first_zero(ints) < ints.len(),
    ensures
        ints[first_zero(ints)] == 0,
    decreases ints.len(),
{
    if ints.len() > 0 && ints[0] != 0 {
        lemma_first_zero_is_zero(ints.drop_first());
        assert(ints.drop_first()[first_zero(ints.drop_first())] == ints[first_zero(ints)]);
    }
}

/// Under a readable stream, consuming one integer token relates the whole
/// stream to the prefix read so far.
proof fn lemma_stream_step(
    text: Seq<u8>,
    body: int,
    pre_i: int,
    i: int,
    ints_done: Seq<int>,
    k: int,
)
    requires
        spec_ints(text, pre_i) is Some,
        spec_ints(text, pre_i)->0 =~= seq![k] + (spec_ints(text, i)->0),
        spec_ints(text, i) is Some,
        match spec_ints(text, pre_i) {
            Some(rest) => spec_ints(text, body) == Some(ints_done + rest),
            None => true,
        },
    ensures
        spec_ints(text, body) is Some,
        spec_ints(text, body)->0 == ints_done.push(k) + (spec_ints(text, i)->0),
{
    let rest = spec_ints(text, i)->0;
    assert(spec_ints(text, body) == Some(ints_done + (seq![k] + rest)));
    assert(ints_done + (seq![k] + rest) =~= ints_done.push(k) + rest);
}

/// A zero-free list has no first zero.
proof fn lemma_first_zero_none(g: Seq<int>)
    requires
        forall|x: int| 0 <= x < g.len() ==> #[trigger] g[x] != 0,
    ensures
        first_zero(g) < 0,
    decreases g.len(),
{
    if g.len() > 0 {
        assert(g[0] != 0);
        assert forall|x: int| 0 <= x < g.drop_first().len() implies #[trigger] g.drop_first()[x]
            != 0 by {
            assert(g.drop_first()[x] == g[x + 1]);
        }
        lemma_first_zero_none(g.drop_first());
    }
}

/// The text spells a well-formed instance: a proper header, a readable
/// integer stream, and zero-terminated groups that are nonempty and within
/// the declared variable range.
pub open spec fn spec_dimacs_ok(text: Seq<u8>) -> bool {
    &&& spec_header_ok(text)
    &&& spec_header_vars(text) + 2 < usize::MAX
    &&& spec_ints(text, spec_body_start(text)) matches Some(ints) && {
        &&& spec_groups(ints) matches Some(gs) && {
            &&& forall|a: int| 0 <= a < gs.len() ==> (#[trigger] gs[a]).len() >= 1
            &&& forall|a: int, x: int|
                0 <= a < gs.len() && 0 <= x < gs[a].len() ==> 1 <= abs_int(#[trigger] gs[a][x])
                    <= spec_header_vars(text)
        }
    }
}

impl Formula {
    /// Read DIMACS CNF text: comment lines under `c`, a `p cnf` header, then
    /// whitespace-separated literals with each clause closed by `0`.
    /// Repeated literals are dropped and tautological clauses skipped, as at
    /// any ingest; an empty clause is rejected.  On success the result is
    /// pinned to the bytes: the variable count is the header's, and the
    /// clause list is, clause for clause and up to repetition, the
    /// non-tautological zero-terminated groups the text spells.
    pub fn from_dimacs(text: &[u8]) -> (r: Result<Formula, ParseError>)
        ensures
            match r {
                Ok(f) => {
                    &&& f.wf()
                    &&& f.n_vars + 2 < usize::MAX
                    &&& spec_header_ok(text@)
                    &&& f.n_vars as nat == spec_header_vars(text@)
                    &&& spec_ints(text@, spec_body_start(text@)) matches Some(ints) && {
                        &&& spec_groups(ints) matches Some(gs) && {
                            &&& forall|a: int, x: int|
                                0 <= a < gs.len() && 0 <= x < gs[a].len() ==> 1 <= abs_int(
                                    #[trigger] gs[a][x],
                                ) <= f.n_vars
                            &&& forall|a: int| 0 <= a < gs.len() ==> (#[trigger] gs[a]).len() >= 1
                            &&& f.fml().len() == kept_groups(gs).len()
                            &&& forall|ci: int|
                                0 <= ci < f.fml().len() ==> crate::semantics::clause_same_lits(
                                    #[trigger] f.fml()[ci],
                                    kept_groups(gs)[ci].map_values(|k: int| spec_int_lit(k)),
                                )
                        }
                    }
                },
                Err(_) => !spec_dimacs_ok(text@),
            },
    {
        let mut i: usize = 0;
        // header
        let (hs, he) = match next_token(text, &mut i) {
            Some(t) => t,
            None => {
                return Err(ParseError::MissingHeader);
            },
        };
        if he - hs != 1 || text[hs] != 112 {
            return Err(ParseError::MissingHeader);
        }
        let (cs, ce) = match next_token(text, &mut i) {
            Some(t) => t,
            None => {
                return Err(ParseError::BadHeader);
            },
        };
        if ce - cs != 3 || text[cs] != 99 || text[cs + 1] != 110 || text[cs + 2] != 102 {
            return Err(ParseError::BadHeader);
        }
        let n_vars = match next_token(text, &mut i) {
            Some((s, e)) => match parse_int(text, s, e) {
                Some((false, v)) => v,
                _ => {
                    return Err(ParseError::BadHeader);
                },
            },
            None => {
                return Err(ParseError::BadHeader);
            },
        };
        let _declared_clauses = match next_token(text, &mut i) {
            Some((s, e)) => match parse_int(text, s, e) {
                Some((false, v)) => v,
                _ => {
                    return Err(ParseError::BadHeader);
                },
            },
            None => {
                return Err(ParseError::BadHeader);
            },
        };
        if n_vars >= usize::MAX - 2 {
            return Err(ParseError::BadHeader);
        }
        proof {
            assert(spec_header_ok(text@));
            assert(spec_header_vars(text@) == n_vars as nat);
            assert(spec_body_start(text@) == i as int);
        }
        let ghost body = i as int;
        let mut formula = Formula::new(n_vars);
        let mut lits: Vec<Literal> = Vec::new();
        let ghost mut groups_done: Seq<Seq<int>> = Seq::empty();
        let ghost mut ints_done: Seq<int> = Seq::empty();
        let ghost mut cur: Seq<int> = Seq::empty();
        proof {
            assert(ints_done =~= join_groups(groups_done) + cur);
        }
        loop
            invariant
                i <= text@.len(),
                body <= i as int,
                formula.wf(),
                formula.n_vars == n_vars,
                n_vars + 2 < usize::MAX,
                spec_header_ok(text@),
                spec_header_vars(text@) == n_vars as nat,
                body == spec_body_start(text@),
                // the stream seen so far plus the stream ahead is the body's
                match spec_ints(text@, i as int) {
                    Some(rest) => spec_ints(text@, body) == Some(ints_done + rest),
                    None => spec_ints(text@, body) is None || true,
                },
                spec_dimacs_ok(text@) ==> spec_ints(text@, i as int) is Some,
                ints_done == join_groups(groups_done) + cur,
                forall|a: int, x: int|
                    0 <= a < groups_done.len() && 0 <= x < groups_done[a].len() ==> 1 <= abs_int(
                        #[trigger] groups_done[a][x],
                    ) <= n_vars,
                forall|a: int| 0 <= a < groups_done.len() ==> (#[trigger] groups_done[a]).len() >= 1,
                forall|x: int| 0 <= x < cur.len() ==> 1 <= abs_int(#[trigger] cur[x]) <= n_vars,
                lits@.len() == cur.len(),
                forall|x: int| 0 <= x < cur.len() ==> lits@[x] == spec_int_lit(#[trigger] cur[x]),
                formula.fml().len() == kept_groups(groups_done).len(),
                forall|ci: int|
                    0 <= ci < formula.fml().len() ==> crate::semantics::clause_same_lits(
                        #[trigger] formula.fml()[ci],
                        kept_groups(groups_done)[ci].map_values(|k: int| spec_int_lit(k)),
                    ),
            decreases text@.len() - i + 1,
        {
            let ghost pre_i = i as int;
            let tok = next_token(text, &mut i);
            match tok {
                None => {
                    if lits.len() > 0 {
                        proof {
                            if spec_dimacs_ok(text@) {
                                assert(spec_skip(text@, pre_i, false) == text@.len());
                                assert(spec_ints(text@, pre_i) == Some(Seq::<int>::empty()));
                                assert(spec_ints(text@, body) == Some(
                                    ints_done + Seq::<int>::empty(),
                                ));
                                let ints = spec_ints(text@, body)->0;
                                assert(ints =~= join_groups(groups_done) + cur);
                                assert forall|a: int, x: int|
                                    0 <= a < groups_done.len() && 0 <= x
                                        < groups_done[a].len() implies #[trigger] groups_done[a][x]
                                    != 0 by {
                                    assert(1 <= abs_int(groups_done[a][x]));
                                }
                                lemma_groups_prefix(groups_done, cur);
                                assert forall|x: int| 0 <= x < cur.len() implies #[trigger] cur[x]
                                    != 0 by {
                                    assert(1 <= abs_int(cur[x]));
                                }
                                lemma_first_zero_none(cur);
                                assert(cur.len() > 0);
                                assert(spec_groups(cur) is None);
                                assert(spec_groups(ints) is None);
                                assert(false);
                            }
                        }
                        return Err(ParseError::UnterminatedClause);
                    }
                    proof {
                        assert(spec_skip(text@, pre_i, false) == text@.len());
                        assert(spec_ints(text@, pre_i) == Some(Seq::<int>::empty()));
                        assert(spec_ints(text@, body) == Some(ints_done + Seq::<int>::empty()));
                        assert(ints_done + Seq::<int>::empty() =~= ints_done);
                        assert(cur =~= Seq::<int>::empty());
                        assert(ints_done =~= join_groups(groups_done));
                        lemma_groups_join_ranged(groups_done, n_vars as int);
                        assert(spec_groups(ints_done) == Some(groups_done));
                    }
                    return Ok(formula);
                },
                Some((s, e)) => {
                    proof {
                        lemma_skip_bounds(text@, pre_i, false);
                        lemma_token_end_bounds(text@, s as int);
                        assert(spec_skip(text@, pre_i, false) == s as int);
                        assert(spec_token_end(text@, s as int) == e as int);
                    }
                    match parse_int(text, s, e) {
                        None => {
                            proof {
                                if spec_dimacs_ok(text@) {
                                    assert(spec_ints(text@, pre_i) is None);
                                    assert(false);
                                }
                            }
                            return Err(ParseError::BadLiteral);
                        },
                        Some((negative, value)) => {
                            if negative && value == 0 {
                                proof {
                                    if spec_dimacs_ok(text@) {
                                        assert(spec_ints(text@, pre_i) is None);
                                        assert(false);
                                    }
                                }
                                return Err(ParseError::BadLiteral);
                            }
                            let ghost k: int = if negative {
                                0 - (value as int)
                            } else {
                                value as int
                            };
                            proof {
                                match spec_ints(text@, i as int) {
                                    Some(rest) => {
                                        assert(spec_ints(text@, pre_i) == Some(seq![k] + rest));
                                        assert(ints_done + (seq![k] + rest) =~= (ints_done.push(k))
                                            + rest);
                                        assert(spec_ints(text@, body) == Some(
                                            (ints_done.push(k)) + rest,
                                        ));
                                    },
                                    None => {},
                                }
                            }
                            if value == 0 {
                                // end of clause
                                let ghost pre_fml = formula.fml();
                                proof {
                                    if spec_dimacs_ok(text@) {
                                        lemma_stream_step(text@, body, pre_i, i as int, ints_done, k);
                                    }
                                }
                                match formula.add_clause(&lits) {
                                    Ok(crate::formula::AddOutcome::Added) => {
                                        proof {
                                            lemma_kept_push(groups_done, cur);
                                            assert(!spec_taut(cur)) by {
                                                if spec_taut(cur) {
                                                    let (a, b) = choose|a: int, b: int|
                                                        0 <= a < cur.len() && 0 <= b < cur.len()
                                                            && #[trigger] cur[a] == -(
                                                        #[trigger] cur[b]);
                                                    assert(lits@[a].v_id == lits@[b].v_id
                                                        && lits@[a].polarity
                                                        != lits@[b].polarity);
                                                }
                                            }
                                            assert(formula.fml().last() =~= formula.fml()[
                                                formula.fml().len() - 1]);
                                            assert(lits@ =~= cur.map_values(
                                                |k2: int| spec_int_lit(k2),
                                            ));
                                            lemma_same_lits_trans(
                                                formula.fml().last(),
                                                lits@,
                                                cur.map_values(|k2: int| spec_int_lit(k2)),
                                            );
                                            assert forall|ci: int|
                                                0 <= ci < formula.fml().len() implies
                                                crate::semantics::clause_same_lits(
                                                #[trigger] formula.fml()[ci],
                                                kept_groups(groups_done.push(cur))[ci].map_values(
                                                    |k2: int| spec_int_lit(k2),
                                                ),
                                            ) by {
                                                if ci < formula.fml().len() - 1 {
                                                    assert(formula.fml()[ci] == pre_fml[ci]);
                                                    assert(kept_groups(groups_done.push(cur))[ci]
                                                        == kept_groups(groups_done)[ci]);
                                                } else {
                                                    assert(kept_groups(groups_done.push(cur))[ci]
                                                        == cur);
                                                }
                                            }
                                        }
                                        proof {
                                            let old_gd = groups_done;
                                            groups_done = groups_done.push(cur);
                                            ints_done = ints_done.push(0int);
                                            lemma_join_push(old_gd, cur);
                                            assert(ints_done =~= join_groups(groups_done)
                                                + Seq::<int>::empty());
                                            cur = Seq::empty();
                                        }
                                        lits = Vec::new();
                                    },
                                    Ok(crate::formula::AddOutcome::Trivial) => {
                                        proof {
                                            lemma_kept_push(groups_done, cur);
                                            assert(spec_taut(cur)) by {
                                                let (a, b) = choose|a: int, b: int|
                                                    0 <= a < lits@.len() && 0 <= b < lits@.len()
                                                        && (#[trigger] lits@[a]).v_id == (
                                                    #[trigger] lits@[b]).v_id && lits@[a].polarity
                                                        != lits@[b].polarity;
                                                assert(lits@[a] == spec_int_lit(cur[a]));
                                                assert(lits@[b] == spec_int_lit(cur[b]));
                                                assert(cur[a] == -cur[b]);
                                            }
                                            let old_gd = groups_done;
                                            groups_done = groups_done.push(cur);
                                            ints_done = ints_done.push(0int);
                                            lemma_join_push(old_gd, cur);
                                            assert(ints_done =~= join_groups(groups_done)
                                                + Seq::<int>::empty());
                                            cur = Seq::empty();
                                        }
                                        lits = Vec::new();
                                    },
                                    Err(crate::clause::ClauseError::Empty) => {
                                        proof {
                                            if spec_dimacs_ok(text@) {
                                                // the bytes spell an empty group
                                                let rest = spec_ints(text@, i as int)->0;
                                                let ints = spec_ints(
                                                    text@,
                                                    spec_body_start(text@),
                                                )->0;
                                                assert(ints == ints_done.push(0int) + rest);
                                                assert(cur.len() == 0);
                                                assert(ints =~= join_groups(groups_done) + (
                                                seq![0int] + rest));
                                                assert forall|a: int, x: int|
                                                    0 <= a < groups_done.len() && 0 <= x
                                                        < groups_done[a].len() implies
                                                    #[trigger] groups_done[a][x] != 0 by {
                                                    assert(1 <= abs_int(groups_done[a][x]));
                                                }
                                                lemma_groups_prefix(
                                                    groups_done,
                                                    seq![0int] + rest,
                                                );
                                                let tail = seq![0int] + rest;
                                                assert(tail[0] == 0);
                                                assert(first_zero(tail) == 0);
                                                assert(spec_groups(tail) is Some);
                                                let gs_tail = spec_groups(tail)->0;
                                                assert(gs_tail[0] =~= tail.subrange(0, 0));
                                                let gs = spec_groups(ints)->0;
                                                assert(gs == groups_done + gs_tail);
                                                assert(gs[groups_done.len() as int]
                                                    == gs_tail[0]);
                                                assert(gs[groups_done.len() as int].len() == 0);
                                                assert(false);
                                            }
                                        }
                                        return Err(ParseError::EmptyClause);
                                    },
                                    Err(crate::clause::ClauseError::OutOfRange) => {
                                        proof {
                                            // every current literal is in range
                                            let w = choose|w: int|
                                                0 <= w < lits@.len() && (#[trigger] lits@[w]).v_id
                                                    >= n_vars;
                                            assert(lits@[w] == spec_int_lit(cur[w]));
                                            assert(1 <= abs_int(cur[w]) <= n_vars);
                                            assert(false);
                                        }
                                        return Err(ParseError::OutOfRange);
                                    },
                                }
                            } else {
                                if value > n_vars {
                                    proof {
                                        if spec_dimacs_ok(text@) {
                                            lemma_stream_step(
                                                text@,
                                                body,
                                                pre_i,
                                                i as int,
                                                ints_done,
                                                k,
                                            );
                                            let ints = spec_ints(text@, spec_body_start(text@))->0;
                                            let rest = spec_ints(text@, i as int)->0;
                                            assert(ints == ints_done.push(k) + rest);
                                            assert(ints[ints_done.len() as int] == k);
                                            assert(k != 0);
                                            let gs = spec_groups(ints)->0;
                                            lemma_groups_cover(
                                                ints,
                                                gs,
                                                ints_done.len() as int,
                                            );
                                            let (a, x) = choose|a: int, x: int|
                                                0 <= a < gs.len() && 0 <= x < gs[a].len()
                                                    && #[trigger] gs[a][x] == ints[
                                                ints_done.len() as int];
                                            assert(abs_int(gs[a][x]) == value as int);
                                            assert(false);
                                        }
                                    }
                                    return Err(ParseError::OutOfRange);
                                }
                                lits.push(Literal { v_id: value - 1, polarity: !negative });
                                proof {
                                    ints_done = ints_done.push(k);
                                    cur = cur.push(k);
                                    assert(ints_done =~= join_groups(groups_done) + cur);
                                    assert(lits@[lits@.len() - 1] == spec_int_lit(k));
                                }
                            }
                        },
                    }
                },
            }
        }
    }
}

/// The magnitude of an integer.
pub open spec fn abs_int(k: int) -> int {
    if k >= 0 {
        k
    } else {
        -k
    }
}

/// Same-literal-set equality carries across an equal middle clause.
proof fn lemma_same_lits_trans(a: Seq<Literal>, b: Seq<Literal>, c: Seq<Literal>)
    requires
        crate::semantics::clause_same_lits(a, b),
        b == c,
    ensures
        crate::semantics::clause_same_lits(a, c),
{
}

/// Zero-free groups with in-range magnitudes parse back from their joined
/// stream.
proof fn lemma_groups_join_ranged(gs: Seq<Seq<int>>, n: int)
    requires
        forall|a: int, x: int|
            0 <= a < gs.len() && 0 <= x < gs[a].len() ==> 1 <= abs_int(#[trigger] gs[a][x]) <= n,
    ensures
        spec_groups(join_groups(gs)) == Some(gs),
{
    assert forall|a: int, x: int|
        0 <= a < gs.len() && 0 <= x < gs[a].len() implies #[trigger] gs[a][x] != 0 by {
        assert(1 <= abs_int(gs[a][x]));
    }
    lemma_groups_join(gs);
}

/// The decimal digits of a number, most significant first.
pub open spec fn spec_dec(n: nat) -> Seq<u8>
    decreases n,
{
    if n < 10 {
        seq![(48 + n) as u8]
    } else {
        spec_dec(n / 10).push((48 + n % 10) as u8)
    }
}

/// A literal in DIMACS convention: the one-based variable number, a leading
/// minus for a negation.
pub open spec fn spec_lit_bytes(l: Literal) -> Seq<u8> {
    if l.polarity {
        spec_dec((l.v_id + 1) as nat)
    } else {
        seq![45u8] + spec_dec((l.v_id + 1) as nat)
    }
}

/// Append the decimal digits of `v`.
fn dec_push(out: &mut Vec<u8>, v: usize)
    ensures
        final(out)@ == old(out)@ + spec_dec(v as nat),
    decreases v,
{
    let ghost pre = out@;
    if v >= 10 {
        dec_push(out, v / 10);
        out.push(48 + ((v % 10) as u8));
        proof {
            assert(final(out)@ =~= pre + spec_dec(v as nat));
        }
    } else {
        out.push(48 + (v as u8));
        proof {
            assert(final(out)@ =~= pre + spec_dec(v as nat));
        }
    }
}

/// The decimal digits of `value`.
pub fn dec_bytes(value: usize) -> (r: Vec<u8>)
    ensures
        r@ == spec_dec(value as nat),
{
    let mut digits: Vec<u8> = Vec::new();
    dec_push(&mut digits, value);
    proof {
        assert(digits@ =~= spec_dec(value as nat));
    }
    digits
}

/// Append `more` to `out`.
fn push_bytes(out: &mut Vec<u8>, more: &[u8])
    ensures
        final(out)@ == old(out)@ + more@,
{
    let n = more.len();
    let mut i: usize = 0;
    while i < n
        invariant
            i <= n,
            n == more@.len(),
            out@ == old(out)@ + more@.subrange(0, i as int),
        decreases n - i,
    {
        out.push(more[i]);
        proof {
            assert(out@ =~= old(out)@ + more@.subrange(0, i + 1));
        }
        i = i + 1;
    }
    proof {
        assert(out@ =~= old(out)@ + more@);
    }
}

/// Append one literal in DIMACS convention.
fn push_dimacs_literal(out: &mut Vec<u8>, l: Literal)
    requires
        l.v_id < usize::MAX,
    ensures
        final(out)@ == old(out)@ + spec_lit_bytes(l),
{
    let ghost pre = out@;
    if !l.polarity {
        out.push(45);
    }
    dec_push(out, l.v_id + 1);
    proof {
        assert(out@ =~= pre + spec_lit_bytes(l));
    }
}

/// The `c ASSIGNMENT:` entries for the first `upto` variables: a space and
/// the literal the valuation holds, per assigned variable.
pub open spec fn spec_model_entries(val: Seq<Option<bool>>, upto: int) -> Seq<u8>
    decreases upto,
{
    if upto <= 0 {
        Seq::empty()
    } else {
        spec_model_entries(val, upto - 1) + match val[upto - 1] {
            Some(p) => seq![32u8] + spec_lit_bytes(
                Literal { v_id: (upto - 1) as usize, polarity: p },
            ),
            None => Seq::empty(),
        }
    }
}

/// One clause as a DIMACS line body: each literal followed by a space, then
/// the terminating zero.
pub open spec fn spec_clause_line(lits: Seq<Literal>, upto: int) -> Seq<u8>
    decreases upto,
{
    if upto <= 0 {
        Seq::empty()
    } else {
        spec_clause_line(lits, upto - 1) + spec_lit_bytes(lits[upto - 1]) + seq![32u8]
    }
}

impl Solve {
    /// The `c ASSIGNMENT:` line for the current valuation: variable `k`
    /// appears as `k` when true and `-k` when false.
    pub fn model_line_bytes(&self) -> (r: Vec<u8>)
        requires
            self.wf(),
        ensures
            r@ == seq![99u8, 32u8]  // "c "
                + seq![65u8, 83u8, 83u8, 73u8, 71u8, 78u8, 77u8, 69u8, 78u8, 84u8, 58u8]  // "ASSIGNMENT:"
                + spec_model_entries(self.valuation@, self.n() as int) + seq![10u8],
    {
        let mut out: Vec<u8> = Vec::new();
        out.push(99);
        out.push(32);
        out.push(65);
        out.push(83);
        out.push(83);
        out.push(73);
        out.push(71);
        out.push(78);
        out.push(77);
        out.push(69);
        out.push(78);
        out.push(84);
        out.push(58);
        let ghost prefix = out@;
        let n = self.valuation.len();
        let mut v: usize = 0;
        while v < n
            invariant
                v <= n,
                n == self.valuation@.len(),
                self.wf(),
                n == self.n(),
                out@ == prefix + spec_model_entries(self.valuation@, v as int),
            decreases n - v,
        {
            let ghost pre = out@;
            match self.valuation.of_v_id(v) {
                Some(p) => {
                    out.push(32);
                    proof {
                        assert(self.n() < usize::MAX || self.n() == usize::MAX);
                    }
                    push_dimacs_literal(&mut out, Literal { v_id: v, polarity: p });
                },
                None => {},
            }
            proof {
                assert(out@ =~= prefix + spec_model_entries(self.valuation@, v + 1));
            }
            v = v + 1;
        }
        out.push(10);
        proof {
            assert(out@ =~= seq![99u8, 32u8]
                + seq![65u8, 83u8, 83u8, 73u8, 71u8, 78u8, 77u8, 69u8, 78u8, 84u8, 58u8]
                + spec_model_entries(self.valuation@, self.n() as int) + seq![10u8]);
        }
        out
    }

    /// The clauses of the recorded unsatisfiable core, one DIMACS line each,
    /// closed by `0`.
    pub fn core_lines_bytes(&self) -> (r: Vec<u8>)
        requires
            self.wf(),
            self.ingested(),
            forall|j: usize| #[trigger] self.unsat_core@.contains(j) ==> j < self.fml().len(),
        ensures
            r@ == self.spec_core_lines(self.unsat_core@.len() as int),
    {
        let mut out: Vec<u8> = Vec::new();
        let cn = self.unsat_core.len();
        let mut ci: usize = 0;
        while ci < cn
            invariant
                ci <= cn,
                cn == self.unsat_core@.len(),
                self.wf(),
                self.ingested(),
                forall|j: usize| #[trigger] self.unsat_core@.contains(j) ==> j < self.fml().len(),
                out@ == self.spec_core_lines(ci as int),
            decreases cn - ci,
        {
            let j = self.unsat_core[ci];
            proof {
                assert(self.unsat_core@.contains(self.unsat_core@[ci as int]));
                self.lemma_key_lits_wf(crate::stored_clause::ClauseKey::Formula(j));
            }
            let ghost line_start = out@;
            let clen = self.formula_clauses[j].lits.len();
            let mut x: usize = 0;
            while x < clen
                invariant
                    x <= clen,
                    j < self.formula_clauses@.len(),
                    clen == self.formula_clauses@[j as int].lits@.len(),
                    self.wf(),
                    crate::clause::clause_wf(self.formula_clauses@[j as int].lits@, self.n()),
                    out@ == line_start + spec_clause_line(
                        self.formula_clauses@[j as int].lits@,
                        x as int,
                    ),
                decreases clen - x,
            {
                let l = self.formula_clauses[j].lits[x];
                proof {
                    assert(self.formula_clauses@[j as int].lits@[x as int].v_id < self.n());
                }
                push_dimacs_literal(&mut out, l);
                out.push(32);
                proof {
                    assert(out@ =~= line_start + spec_clause_line(
                        self.formula_clauses@[j as int].lits@,
                        x + 1,
                    ));
                }
                x = x + 1;
            }
            out.push(48);
            out.push(10);
            proof {
                assert(self.fml()[j as int] == self.formula_clauses@[j as int].lits@);
                assert(out@ =~= self.spec_core_lines(ci + 1));
            }
            ci = ci + 1;
        }
        out
    }

    /// The core rendering of the first `upto` recorded clauses.
    pub open spec fn spec_core_lines(&self, upto: int) -> Seq<u8>
        decreases upto,
    {
        if upto <= 0 {
            Seq::empty()
        } else {
            let j = self.unsat_core@[upto - 1] as int;
            self.spec_core_lines(upto - 1) + spec_clause_line(
                self.fml()[j],
                self.fml()[j].len() as int,
            ) + seq![48u8, 10u8]
        }
    }
}

/// The final status line of a solve.
pub open spec fn spec_status_bytes(result: SolveResult) -> Seq<u8> {
    match result {
        // the SATISFIABLE status line
        SolveResult::Satisfiable => seq![
            115u8,
            32u8,
            83u8,
            65u8,
            84u8,
            73u8,
            83u8,
            70u8,
            73u8,
            65u8,
            66u8,
            76u8,
            69u8,
            10u8,
        ],
        // the UNSATISFIABLE status line
        SolveResult::Unsatisfiable => seq![
            115u8,
            32u8,
            85u8,
            78u8,
            83u8,
            65u8,
            84u8,
            73u8,
            83u8,
            70u8,
            73u8,
            65u8,
            66u8,
            76u8,
            69u8,
            10u8,
        ],
        // the Unknown status line
        SolveResult::Unknown => seq![115u8, 32u8, 85u8, 110u8, 107u8, 110u8, 111u8, 119u8, 110u8, 10u8],
    }
}

/// The final status line of a solve.
pub fn result_line_bytes(result: SolveResult) -> (r: Vec<u8>)
    ensures
        r@ == spec_status_bytes(result),
{
    let mut out: Vec<u8> = Vec::new();
    match result {
        SolveResult::Satisfiable => {
            out.push(115);
            out.push(32);
            out.push(83);
            out.push(65);
            out.push(84);
            out.push(73);
            out.push(83);
            out.push(70);
            out.push(73);
            out.push(65);
            out.push(66);
            out.push(76);
            out.push(69);
        },
        SolveResult::Unsatisfiable => {
            out.push(115);
            out.push(32);
            out.push(85);
            out.push(78);
            out.push(83);
            out.push(65);
            out.push(84);
            out.push(73);
            out.push(83);
            out.push(70);
            out.push(73);
            out.push(65);
            out.push(66);
            out.push(76);
            out.push(69);
        },
        SolveResult::Unknown => {
            out.push(115);
            out.push(32);
            out.push(85);
            out.push(110);
            out.push(107);
            out.push(110);
            out.push(111);
            out.push(119);
            out.push(110);
        },
    }
    out.push(10);
    proof {
        assert(out@ =~= spec_status_bytes(result));
    }
    out
}

/// The process exit status a result maps to.
pub fn exit_code(result: SolveResult) -> (r: i32)
    ensures
        r == match result {
            SolveResult::Satisfiable => 10i32,
            SolveResult::Unsatisfiable => 0i32,
            SolveResult::Unknown => 20i32,
        },
{
    match result {
        SolveResult::Satisfiable => 10i32,
        SolveResult::Unsatisfiable => 0i32,
        SolveResult::Unknown => 20i32,
    }
}

} // verus!
