//! Walking along a boundary: from each position to the next, changing over to
//! the other pass at every crossing.
use crate::boundary::{lemma_paired_position, occurrences, VertexRef};
use vstd::prelude::*;

verus! {

/// The first position at or behind `from` that holds `v`, or the length of
/// `refs` where there is none.
pub open spec fn first_match(refs: Seq<VertexRef>, v: VertexRef, from: int) -> int
    decreases refs.len() - from,
{
    if from < 0 || from >= refs.len() {
        refs.len() as int
    } else if refs[from] == v {
        from
    } else {
        first_match(refs, v, from + 1)
    }
}

/// The position that a walk jumps to from position `p`: the next position
/// behind `p` that holds the same reference, or, where there is none, the first
/// position of the sequence that holds it.
pub open spec fn partner(refs: Seq<VertexRef>, p: int) -> int {
    let later = first_match(refs, refs[p], p + 1);
    if later < refs.len() {
        later
    } else {
        first_match(refs, refs[p], 0)
    }
}

/// The position that follows `p` on a walk along the boundary.
///
/// From a raw point the walk goes on to the next position of the cyclic
/// sequence. At a crossing it changes over to the other pass through the
/// crossing and goes on from there.
pub open spec fn successor(refs: Seq<VertexRef>, p: int) -> int {
    let base = if refs[p] is Crossing {
        partner(refs, p)
    } else {
        p
    };
    if base + 1 == refs.len() {
        0
    } else {
        base + 1
    }
}

/// Whether every crossing that `refs` refers to is referred to exactly twice.
pub open spec fn paired(refs: Seq<VertexRef>) -> bool {
    forall|p: int|
        0 <= p < refs.len() && (#[trigger] refs[p]) is Crossing ==> occurrences(refs, refs[p])
            == 2
}

/// What `first_match` finds is the first match.
pub proof fn lemma_first_match(refs: Seq<VertexRef>, v: VertexRef, from: int)
    requires
        0 <= from <= refs.len(),
    ensures
        from <= first_match(refs, v, from) <= refs.len(),
        first_match(refs, v, from) < refs.len() ==> refs[first_match(refs, v, from)] == v,
        forall|i: int| from <= i < first_match(refs, v, from) ==> refs[i] != v,
    decreases refs.len() - from,
{
    if from < refs.len() && refs[from] != v {
        lemma_first_match(refs, v, from + 1);
    }
}

/// The partner of a position lies within the sequence and holds the same
/// reference.
pub proof fn lemma_partner_in_range(refs: Seq<VertexRef>, p: int)
    requires
        0 <= p < refs.len(),
    ensures
        0 <= partner(refs, p) < refs.len(),
        refs[partner(refs, p)] == refs[p],
{
    lemma_first_match(refs, refs[p], p + 1);
    lemma_first_match(refs, refs[p], 0);
}

/// The successor of a position lies within the sequence.
pub proof fn lemma_successor_in_range(refs: Seq<VertexRef>, p: int)
    requires
        0 <= p < refs.len(),
    ensures
        0 <= successor(refs, p) < refs.len(),
{
    lemma_partner_in_range(refs, p);
}

/// Where every crossing is referred to twice, the partner of a pass through a
/// crossing is the other pass through it, and the partner of that one is the
/// first again.
pub proof fn lemma_partner_is_other_pass(refs: Seq<VertexRef>, p: int)
    requires
        paired(refs),
        0 <= p < refs.len(),
        refs[p] is Crossing,
    ensures
        0 <= partner(refs, p) < refs.len(),
        partner(refs, p) != p,
        refs[partner(refs, p)] == refs[p],
        forall|r: int|
            0 <= r < refs.len() && refs[r] == refs[p] ==> r == p || r == partner(refs, p),
        partner(refs, partner(refs, p)) == p,
{
    let v = refs[p];
    let q = lemma_paired_position(refs, p);
    lemma_first_match(refs, v, p + 1);
    lemma_first_match(refs, v, 0);
    assert(partner(refs, p) == q);
    lemma_first_match(refs, v, q + 1);
    assert(partner(refs, q) == p);
}

/// Where every crossing is referred to twice, no two positions have the same
/// successor.
pub proof fn lemma_successor_injective(refs: Seq<VertexRef>, a: int, b: int)
    requires
        paired(refs),
        0 <= a < refs.len(),
        0 <= b < refs.len(),
        successor(refs, a) == successor(refs, b),
    ensures
        a == b,
{
    lemma_partner_in_range(refs, a);
    lemma_partner_in_range(refs, b);
    if refs[a] is Crossing {
        lemma_partner_is_other_pass(refs, a);
    }
    if refs[b] is Crossing {
        lemma_partner_is_other_pass(refs, b);
    }
}

/// The position that a walk jumps to from position `p`.
pub fn find_partner(refs: &Vec<VertexRef>, p: usize) -> (q: usize)
    requires
        p < refs@.len(),
    ensures
        q == partner(refs@, p as int),
        q < refs@.len(),
{
    let v = refs[p];
    let len = refs.len();
    let mut i: usize = p + 1;
    while i < len
        invariant
            len == refs@.len(),
            v == refs@[p as int],
            p < i <= len,
            first_match(refs@, v, p + 1) == first_match(refs@, v, i as int),
        decreases len - i,
    {
        if refs[i] == v {
            return i;
        }
        i += 1;
    }
    let mut j: usize = 0;
    while j < p
        invariant
            len == refs@.len(),
            v == refs@[p as int],
            j <= p < len,
            first_match(refs@, v, p + 1) == len,
            first_match(refs@, v, 0) == first_match(refs@, v, j as int),
        decreases p - j,
    {
        if refs[j] == v {
            return j;
        }
        j += 1;
    }
    p
}

/// The position that follows `p` on a walk along the boundary.
pub fn successor_of(refs: &Vec<VertexRef>, p: usize) -> (q: usize)
    requires
        p < refs@.len(),
    ensures
        q == successor(refs@, p as int),
        q < refs@.len(),
{
    let len = refs.len();
    let base = match refs[p] {
        VertexRef::Crossing(_) => find_partner(refs, p),
        VertexRef::Raw(_) => p,
    };
    if base + 1 == len {
        0
    } else {
        base + 1
    }
}

} // verus!
