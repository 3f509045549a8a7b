//! The closed regions that a boundary falls into when it is split at its
//! crossings.
use crate::boundary::{raw_refs, VertexRef};
use crate::walks::{
    lemma_successor_in_range, lemma_successor_injective, paired, successor, successor_of,
};
use vstd::prelude::*;
use vstd::set_lib::{lemma_int_range, lemma_len_subset, set_int_range};

verus! {

/// Whether `cycle` is one closed walk along `refs`, written from its smallest
/// position: each position is followed by its successor, the last by the
/// first, and no position comes twice.
pub open spec fn is_cycle(refs: Seq<VertexRef>, cycle: Seq<usize>) -> bool {
    &&& cycle.len() > 0
    &&& forall|i: int| 0 <= i < cycle.len() ==> (#[trigger] cycle[i]) < refs.len()
    &&& forall|i: int|
        0 <= i < cycle.len() - 1 ==> cycle[i + 1] == successor(refs, #[trigger] cycle[i] as int)
    &&& successor(refs, cycle.last() as int) == cycle[0]
    &&& cycle.no_duplicates()
    &&& forall|i: int| 0 <= i < cycle.len() ==> cycle[0] <= #[trigger] cycle[i]
}

/// Whether `regions` are the closed walks that `refs` falls into: every
/// position of `refs` lies on exactly one of them, and they are listed in the
/// order of their smallest positions.
pub open spec fn is_decomposition(refs: Seq<VertexRef>, regions: Seq<Vec<usize>>) -> bool {
    &&& forall|j: int| 0 <= j < regions.len() ==> is_cycle(refs, (#[trigger] regions[j])@)
    &&& forall|j: int, k: int|
        0 <= j < k < regions.len() ==> (#[trigger] regions[j])@[0] < (#[trigger] regions[k])@[0]
    &&& forall|j: int, k: int, p: usize|
        #![trigger regions[j]@.contains(p), regions[k]@.contains(p)]
        0 <= j < k < regions.len() && regions[j]@.contains(p) ==> !regions[k]@.contains(p)
    &&& forall|p: usize| p < refs.len() ==> #[trigger] lies_on_one(regions, p)
}

/// Whether one of `regions` passes position `p`.
pub open spec fn lies_on_one(regions: Seq<Vec<usize>>, p: usize) -> bool {
    exists|j: int| 0 <= j < regions.len() && (#[trigger] regions[j])@.contains(p)
}

/// Whether every position whose successor is marked is marked itself.
spec fn closed_backwards(refs: Seq<VertexRef>, marks: Seq<bool>) -> bool {
    forall|p: int| 0 <= p < refs.len() && marks[#[trigger] successor(refs, p)] ==> marks[p]
}

/// Whether `path` is a walk along `refs` from `start` that passes no position
/// twice.
spec fn is_path(refs: Seq<VertexRef>, start: usize, path: Seq<usize>) -> bool {
    &&& path.len() > 0
    &&& path[0] == start
    &&& forall|i: int| 0 <= i < path.len() ==> (#[trigger] path[i]) < refs.len()
    &&& forall|i: int|
        0 <= i < path.len() - 1 ==> path[i + 1] == successor(refs, #[trigger] path[i] as int)
    &&& path.no_duplicates()
}

/// Whether `after` marks what `before` marks and the positions of `path`, and
/// nothing else.
spec fn marks_grown_by(before: Seq<bool>, after: Seq<bool>, path: Seq<usize>) -> bool {
    forall|p: usize|
        p < after.len() ==> (#[trigger] after[p as int] <==> before[p as int] || path.contains(p))
}

/// What the regions found so far have to do with the marks: the marked
/// positions are those that lie on a region, all positions before `start` are
/// marked, and the regions are closed walks in the order of their smallest
/// positions, no two of which share a position.
spec fn found_up_to(
    refs: Seq<VertexRef>,
    regions: Seq<Vec<usize>>,
    marks: Seq<bool>,
    start: int,
) -> bool {
    &&& marks.len() == refs.len()
    &&& 0 <= start <= refs.len()
    &&& forall|p: usize| p < refs.len() ==> (marks[p as int] <==> #[trigger] lies_on_one(regions, p))
    &&& forall|p: int| 0 <= p < start ==> marks[p]
    &&& closed_backwards(refs, marks)
    &&& forall|j: int|
        0 <= j < regions.len() ==> is_cycle(refs, (#[trigger] regions[j])@) && regions[j]@[0]
            < start
    &&& forall|j: int, k: int|
        0 <= j < k < regions.len() ==> (#[trigger] regions[j])@[0] < (#[trigger] regions[k])@[0]
    &&& forall|j: int, k: int, p: usize|
        #![trigger regions[j]@.contains(p), regions[k]@.contains(p)]
        0 <= j < k < regions.len() && regions[j]@.contains(p) ==> !regions[k]@.contains(p)
}

/// Positions that are all different cannot be more than there are positions.
proof fn lemma_distinct_positions_bounded(positions: Seq<usize>, n: nat)
    requires
        positions.no_duplicates(),
        forall|i: int| 0 <= i < positions.len() ==> positions[i] < n,
    ensures
        positions.len() <= n,
{
    let widened = positions.map_values(|x: usize| x as int);
    assert(widened.no_duplicates());
    widened.unique_seq_to_set();
    lemma_int_range(0, n as int);
    assert forall|x: int| widened.to_set().contains(x) implies set_int_range(0, n as int).contains(
        x,
    ) by {
        let i = choose|i: int| 0 <= i < widened.len() && widened[i] == x;
        assert(positions[i] < n);
    }
    lemma_len_subset(widened.to_set(), set_int_range(0, n as int));
}

/// A path that so far has kept clear of the marked positions keeps clear of
/// them, and of itself, with its next step, unless that step closes it.
proof fn lemma_next_step_is_new(
    refs: Seq<VertexRef>,
    marks: Seq<bool>,
    start: usize,
    path: Seq<usize>,
)
    requires
        paired(refs),
        marks.len() == refs.len(),
        refs.len() <= usize::MAX,
        closed_backwards(refs, marks),
        is_path(refs, start, path),
        forall|i: int| 0 <= i < path.len() ==> !marks[(#[trigger] path[i]) as int],
        successor(refs, path.last() as int) != start,
    ensures
        0 <= successor(refs, path.last() as int) < refs.len(),
        !marks[successor(refs, path.last() as int)],
        forall|i: int|
            0 <= i < path.len() ==> (#[trigger] path[i]) != successor(refs, path.last() as int),
        path.len() < refs.len(),
{
    let last = path.last() as int;
    let next = successor(refs, last);
    assert(path[path.len() - 1] < refs.len());
    lemma_successor_in_range(refs, last);
    if marks[next] {
        assert(marks[last]);
        assert(!marks[path[path.len() - 1] as int]);
    }
    assert forall|i: int| 0 <= i < path.len() implies (#[trigger] path[i]) != next by {
        if path[i] == next {
            assert(i > 0);
            assert(path[i] == successor(refs, path[i - 1] as int));
            assert(path[i - 1] < refs.len());
            lemma_successor_injective(refs, last, path[i - 1] as int);
            assert(path[i - 1] == path[path.len() - 1]);
        }
    }
    let longer = path.push(next as usize);
    assert(longer.no_duplicates()) by {
        assert forall|i: int, j: int|
            0 <= i < longer.len() && 0 <= j < longer.len() && i != j implies longer[i]
            != longer[j] by {
            if i < path.len() && j < path.len() {
                assert(path[i] != path[j]);
            } else if i < path.len() {
                assert(path[i] != next);
            } else {
                assert(path[j] != next);
            }
        }
    }
    assert forall|i: int| 0 <= i < longer.len() implies longer[i] < refs.len() by {
        if i < path.len() {
            assert(path[i] < refs.len());
        }
    }
    lemma_distinct_positions_bounded(longer, refs.len());
}

/// Marking the positions of a closed path keeps the marks closed backwards.
proof fn lemma_closed_path_keeps_closure(
    refs: Seq<VertexRef>,
    before: Seq<bool>,
    after: Seq<bool>,
    start: usize,
    path: Seq<usize>,
)
    requires
        paired(refs),
        before.len() == refs.len(),
        after.len() == refs.len(),
        closed_backwards(refs, before),
        refs.len() <= usize::MAX,
        is_path(refs, start, path),
        successor(refs, path.last() as int) == start,
        marks_grown_by(before, after, path),
    ensures
        closed_backwards(refs, after),
{
    assert forall|p: int| 0 <= p < refs.len() && after[#[trigger] successor(refs, p)] implies after[p] by {
        let s = successor(refs, p);
        lemma_successor_in_range(refs, p);
        let s_pos = s as usize;
        let p_pos = p as usize;
        assert(after[s_pos as int]);
        if !before[s] {
            assert(path.contains(s_pos));
            let i = choose|i: int| 0 <= i < path.len() && path[i] == s_pos;
            if i == 0 {
                assert(path[path.len() - 1] < refs.len());
                lemma_successor_injective(refs, p, path.last() as int);
                assert(path[path.len() - 1] == p_pos);
            } else {
                assert(path[i] == successor(refs, path[i - 1] as int));
                assert(path[i - 1] < refs.len());
                lemma_successor_injective(refs, p, path[i - 1] as int);
                assert(path[i - 1] == p_pos);
            }
            assert(path.contains(p_pos));
        } else {
            assert(before[p]);
        }
        assert(after[p_pos as int]);
    }
}

/// Adding the closed walk from the first unmarked position to the regions
/// found so far gives the regions found up to the next position.
proof fn lemma_region_added(
    refs: Seq<VertexRef>,
    regions: Seq<Vec<usize>>,
    before: Seq<bool>,
    after: Seq<bool>,
    start: usize,
    path: Vec<usize>,
)
    requires
        paired(refs),
        found_up_to(refs, regions, before, start as int),
        start < refs.len(),
        !before[start as int],
        after.len() == refs.len(),
        refs.len() <= usize::MAX,
        is_path(refs, start, path@),
        successor(refs, path@.last() as int) == start,
        forall|i: int| 0 <= i < path@.len() ==> !before[(#[trigger] path@[i]) as int],
        marks_grown_by(before, after, path@),
    ensures
        found_up_to(refs, regions.push(path), after, start + 1),
{
    let grown = regions.push(path);
    let added = regions.len() as int;
    lemma_closed_path_keeps_closure(refs, before, after, start, path@);
    assert(is_cycle(refs, path@)) by {
        assert forall|i: int| 0 <= i < path@.len() implies path@[0] <= #[trigger] path@[i] by {
            if path@[i] < start {
                assert(before[path@[i] as int]);
            }
        }
    }
    assert forall|p: usize| p < refs.len() implies (after[p as int] <==> #[trigger] lies_on_one(
        grown,
        p,
    )) by {
        if before[p as int] {
            assert(lies_on_one(regions, p));
            let j = choose|j: int| 0 <= j < regions.len() && (#[trigger] regions[j])@.contains(p);
            assert(grown[j]@.contains(p));
        } else if path@.contains(p) {
            assert(grown[added]@.contains(p));
        } else if lies_on_one(grown, p) {
            let j = choose|j: int| 0 <= j < grown.len() && (#[trigger] grown[j])@.contains(p);
            assert(j < added);
            assert(regions[j]@.contains(p));
            assert(lies_on_one(regions, p));
        }
    }
    assert forall|p: int| 0 <= p < start + 1 implies after[p] by {
        if p == start {
            assert(path@.contains(path@[0]));
            assert(after[start as int]);
        } else {
            assert(before[p]);
            assert(after[(p as usize) as int]);
        }
    }
    assert forall|j: int| 0 <= j < grown.len() implies is_cycle(refs, (#[trigger] grown[j])@)
        && grown[j]@[0] < start + 1 by {
        if j < added {
            assert(grown[j] == regions[j]);
        }
    }
    assert forall|j: int, k: int| 0 <= j < k < grown.len() implies (#[trigger] grown[j])@[0] < (
    #[trigger] grown[k])@[0] by {
        assert(grown[j] == regions[j]);
        if k < added {
            assert(grown[k] == regions[k]);
        }
    }
    assert forall|j: int, k: int, p: usize|
        #![trigger grown[j]@.contains(p), grown[k]@.contains(p)]
        0 <= j < k < grown.len() && grown[j]@.contains(p) implies !grown[k]@.contains(p) by {
        assert(grown[j] == regions[j]);
        if k < added {
            assert(grown[k] == regions[k]);
        } else if path@.contains(p) {
            let i = choose|i: int| 0 <= i < path@.len() && path@[i] == p;
            assert(!before[path@[i] as int]);
            assert(is_cycle(refs, regions[j]@));
            let m = choose|m: int| 0 <= m < regions[j]@.len() && regions[j]@[m] == p;
            assert(regions[j]@[m] < refs.len());
            assert(lies_on_one(regions, p));
            assert(before[p as int]);
        }
    }
}

/// Once every position is marked, the regions found are the decomposition.
proof fn lemma_all_found(refs: Seq<VertexRef>, regions: Seq<Vec<usize>>, marks: Seq<bool>)
    requires
        found_up_to(refs, regions, marks, refs.len() as int),
    ensures
        is_decomposition(refs, regions),
{
    assert forall|p: usize| p < refs.len() implies #[trigger] lies_on_one(regions, p) by {
        assert(marks[p as int]);
    }
}

/// The closed walk along `refs` that starts at `start`, as the positions it
/// passes. Each of them is marked in `marks`.
fn walk_from(refs: &Vec<VertexRef>, start: usize, marks: &mut Vec<bool>) -> (path: Vec<usize>)
    requires
        paired(refs@),
        start < refs@.len(),
        old(marks)@.len() == refs@.len(),
        !old(marks)@[start as int],
        closed_backwards(refs@, old(marks)@),
    ensures
        final(marks)@.len() == refs@.len(),
        is_path(refs@, start, path@),
        successor(refs@, path@.last() as int) == start,
        forall|i: int| 0 <= i < path@.len() ==> !old(marks)@[(#[trigger] path@[i]) as int],
        marks_grown_by(old(marks)@, final(marks)@, path@),
{
    let n = refs.len();
    let mut path: Vec<usize> = Vec::new();
    path.push(start);
    marks.set(start, true);
    let mut at: usize = start;
    assert(path@.contains(path@[0]));
    loop
        invariant
            n == refs@.len(),
            paired(refs@),
            start < n,
            marks@.len() == n,
            old(marks)@.len() == n,
            closed_backwards(refs@, old(marks)@),
            is_path(refs@, start, path@),
            at == path@.last(),
            forall|i: int| 0 <= i < path@.len() ==> !old(marks)@[(#[trigger] path@[i]) as int],
            marks_grown_by(old(marks)@, marks@, path@),
        ensures
            successor(refs@, path@.last() as int) == start,
        decreases n - path@.len(),
    {
        let next = successor_of(refs, at);
        if next == start {
            break ;
        }
        proof {
            lemma_next_step_is_new(refs@, old(marks)@, start, path@);
        }
        let ghost shorter = path@;
        let ghost marks_before = marks@;
        path.push(next);
        marks.set(next, true);
        at = next;
        proof {
            assert forall|i: int| 0 <= i < path@.len() implies (#[trigger] path@[i]) < n
                && !old(marks)@[path@[i] as int] by {
                if i < shorter.len() {
                    assert(path@[i] == shorter[i]);
                }
            }
            assert forall|i: int| 0 <= i < path@.len() - 1 implies path@[i + 1] == successor(
                refs@,
                #[trigger] path@[i] as int,
            ) by {
                if i + 1 < shorter.len() {
                    assert(path@[i] == shorter[i]);
                    assert(path@[i + 1] == shorter[i + 1]);
                }
            }
            assert(path@.no_duplicates()) by {
                assert forall|i: int, j: int|
                    0 <= i < path@.len() && 0 <= j < path@.len() && i != j implies path@[i]
                    != path@[j] by {
                    if i < shorter.len() && j < shorter.len() {
                        assert(shorter[i] != shorter[j]);
                    } else if i < shorter.len() {
                        assert(shorter[i] != next);
                    } else {
                        assert(shorter[j] != next);
                    }
                }
            }
            assert forall|p: usize| p < n implies (#[trigger] marks@[p as int] <==> old(
                marks,
            )@[p as int] || path@.contains(p)) by {
                assert(marks_before[p as int] <==> old(marks)@[p as int] || shorter.contains(p));
                if p == next {
                    assert(path@[path@.len() - 1] == next);
                } else if shorter.contains(p) {
                    let i = choose|i: int| 0 <= i < shorter.len() && shorter[i] == p;
                    assert(path@[i] == p);
                } else if path@.contains(p) {
                    let i = choose|i: int| 0 <= i < path@.len() && path@[i] == p;
                    assert(shorter[i] == p);
                }
            }
        }
    }
    path
}

/// Splits a boundary into the closed walks that it consists of.
///
/// A walk starts at the smallest position that no earlier walk has passed,
/// follows the successors and ends when it is back at its start. Each walk is
/// returned as the positions it passes, in the order of the walk.
pub fn decompose(refs: &Vec<VertexRef>) -> (regions: Vec<Vec<usize>>)
    requires
        paired(refs@),
    ensures
        is_decomposition(refs@, regions@),
{
    let n = refs.len();
    let mut regions: Vec<Vec<usize>> = Vec::new();
    let mut marks: Vec<bool> = Vec::new();
    let mut filled: usize = 0;
    while filled < n
        invariant
            filled <= n,
            marks@.len() == filled,
            forall|p: int| 0 <= p < filled ==> !marks@[p],
        decreases n - filled,
    {
        marks.push(false);
        filled += 1;
    }
    let mut start: usize = 0;
    assert(found_up_to(refs@, regions@, marks@, 0)) by {
        assert forall|p: int| 0 <= p < refs@.len() && marks@[#[trigger] successor(
            refs@,
            p,
        )] implies marks@[p] by {
            lemma_successor_in_range(refs@, p);
        }
    }
    while start < n
        invariant
            n == refs@.len(),
            paired(refs@),
            found_up_to(refs@, regions@, marks@, start as int),
        decreases n - start,
    {
        if !marks[start] {
            let ghost before = marks@;
            let path = walk_from(refs, start, &mut marks);
            proof {
                lemma_region_added(refs@, regions@, before, marks@, start, path);
            }
            regions.push(path);
        }
        start += 1;
    }
    proof {
        lemma_all_found(refs@, regions@, marks@);
    }
    regions
}

/// Two closed walks from the same position pass the same positions as far as
/// both go.
proof fn lemma_walks_agree(refs: Seq<VertexRef>, x: Seq<usize>, y: Seq<usize>, i: int)
    requires
        is_cycle(refs, x),
        is_cycle(refs, y),
        x[0] == y[0],
        0 <= i < x.len(),
        i < y.len(),
    ensures
        x[i] == y[i],
    decreases i,
{
    if i > 0 {
        lemma_walks_agree(refs, x, y, i - 1);
        assert(x[i] == successor(refs, x[i - 1] as int));
        assert(y[i] == successor(refs, y[i - 1] as int));
    }
}

/// Of two closed walks from the same position neither is shorter than the
/// other.
proof fn lemma_walk_is_no_shorter(refs: Seq<VertexRef>, x: Seq<usize>, y: Seq<usize>)
    requires
        is_cycle(refs, x),
        is_cycle(refs, y),
        x[0] == y[0],
    ensures
        x.len() >= y.len(),
{
    if x.len() < y.len() {
        let end = x.len() - 1;
        lemma_walks_agree(refs, x, y, end);
        assert(y[end + 1] == successor(refs, y[end] as int));
        assert(y[end + 1] == y[0]);
    }
}

/// Where two decompositions agree on all regions before the `j`-th, the
/// `j`-th region of the first starts no later than that of the second.
proof fn lemma_start_is_least(
    refs: Seq<VertexRef>,
    a: Seq<Vec<usize>>,
    b: Seq<Vec<usize>>,
    j: int,
)
    requires
        is_decomposition(refs, a),
        is_decomposition(refs, b),
        0 <= j < a.len(),
        j < b.len(),
        forall|k: int| 0 <= k < j ==> (#[trigger] a[k])@ == b[k]@,
    ensures
        a[j]@[0] <= b[j]@[0],
{
    let start = b[j]@[0];
    assert(is_cycle(refs, a[j]@));
    assert(is_cycle(refs, b[j]@));
    if start < a[j]@[0] {
        assert(b[j]@.contains(start));
        assert(lies_on_one(a, start));
        let k = choose|k: int| 0 <= k < a.len() && (#[trigger] a[k])@.contains(start);
        let at = choose|at: int| 0 <= at < a[k]@.len() && a[k]@[at] == start;
        assert(is_cycle(refs, a[k]@));
        assert(a[k]@[0] <= a[k]@[at]);
        if k < j {
            assert(a[k]@ == b[k]@);
            assert(b[k]@.contains(start));
        } else if k > j {
            assert(a[j]@[0] < a[k]@[0]);
        }
        assert(false);
    }
}

/// Two decompositions of the same sequence agree on their first `n` regions.
proof fn lemma_decompositions_agree(
    refs: Seq<VertexRef>,
    a: Seq<Vec<usize>>,
    b: Seq<Vec<usize>>,
    n: int,
)
    requires
        is_decomposition(refs, a),
        is_decomposition(refs, b),
        0 <= n <= a.len(),
        n <= b.len(),
    ensures
        forall|k: int| 0 <= k < n ==> (#[trigger] a[k])@ == b[k]@,
    decreases n,
{
    if n > 0 {
        lemma_decompositions_agree(refs, a, b, n - 1);
        let j = n - 1;
        assert forall|k: int| 0 <= k < j implies (#[trigger] b[k])@ == a[k]@ by {
            assert(a[k]@ == b[k]@);
        }
        lemma_start_is_least(refs, a, b, j);
        lemma_start_is_least(refs, b, a, j);
        let x = a[j]@;
        let y = b[j]@;
        assert(is_cycle(refs, x));
        assert(is_cycle(refs, y));
        lemma_walk_is_no_shorter(refs, x, y);
        lemma_walk_is_no_shorter(refs, y, x);
        assert forall|i: int| 0 <= i < x.len() implies x[i] == y[i] by {
            lemma_walks_agree(refs, x, y, i);
        }
        assert(x =~= y);
    }
}

/// Of two decompositions of the same sequence neither has fewer regions than
/// the other.
proof fn lemma_decomposition_is_no_shorter(
    refs: Seq<VertexRef>,
    a: Seq<Vec<usize>>,
    b: Seq<Vec<usize>>,
)
    requires
        is_decomposition(refs, a),
        is_decomposition(refs, b),
    ensures
        a.len() >= b.len(),
{
    if a.len() < b.len() {
        let n = a.len() as int;
        lemma_decompositions_agree(refs, a, b, n);
        assert(is_cycle(refs, b[n]@));
        let start = b[n]@[0];
        assert(b[n]@.contains(start));
        assert(lies_on_one(a, start));
        let k = choose|k: int| 0 <= k < a.len() && (#[trigger] a[k])@.contains(start);
        assert(a[k]@ == b[k]@);
        assert(b[k]@.contains(start));
        assert(false);
    }
}

/// A sequence of references falls into closed walks in one way only: any two
/// decompositions of it have the same regions in the same order.
pub proof fn lemma_decomposition_is_unique(
    refs: Seq<VertexRef>,
    a: Seq<Vec<usize>>,
    b: Seq<Vec<usize>>,
)
    requires
        is_decomposition(refs, a),
        is_decomposition(refs, b),
    ensures
        a.len() == b.len(),
        forall|j: int| 0 <= j < a.len() ==> (#[trigger] a[j])@ == b[j]@,
{
    lemma_decomposition_is_no_shorter(refs, a, b);
    lemma_decomposition_is_no_shorter(refs, b, a);
    lemma_decompositions_agree(refs, a, b, a.len() as int);
}

/// A walk along an uncrossed boundary that starts at position 0 passes the
/// positions in their order.
proof fn lemma_walk_counts_up(n: nat, walk: Seq<usize>, i: int)
    requires
        n <= usize::MAX,
        walk.len() > 0,
        walk[0] == 0,
        forall|k: int|
            0 <= k < walk.len() - 1 ==> walk[k + 1] == successor(
                raw_refs(n),
                #[trigger] walk[k] as int,
            ),
        0 <= i < walk.len(),
        i < n,
    ensures
        walk[i] == i,
    decreases i,
{
    if i > 0 {
        lemma_walk_counts_up(n, walk, i - 1);
        assert(walk[i] == successor(raw_refs(n), walk[i - 1] as int));
    }
}

/// A boundary without a crossing is a single closed walk through all of its
/// points, in their order.
pub proof fn lemma_uncrossed_is_one_region(n: nat, regions: Seq<Vec<usize>>)
    requires
        0 < n <= usize::MAX,
        is_decomposition(raw_refs(n), regions),
    ensures
        regions.len() == 1,
        regions[0]@ == Seq::new(n, |i: int| i as usize),
{
    let refs = raw_refs(n);
    assert(lies_on_one(regions, 0usize));
    let j0 = choose|j: int| 0 <= j < regions.len() && (#[trigger] regions[j])@.contains(0usize);
    let first = regions[j0]@;
    assert(is_cycle(refs, first));
    let at0 = choose|i: int| 0 <= i < first.len() && first[i] == 0usize;
    assert(first[0] <= first[at0]);
    assert(first.len() <= n) by {
        lemma_distinct_positions_bounded(first, n);
    }
    if first.len() < n {
        let last = first.len() - 1;
        lemma_walk_counts_up(n, first, last);
        assert(successor(refs, first[last] as int) == first.len());
        assert(false);
    }
    assert forall|i: int| 0 <= i < n implies first[i] == i as usize by {
        lemma_walk_counts_up(n, first, i);
    }
    assert(first =~= Seq::new(n, |i: int| i as usize));
    if regions.len() > 1 {
        let j: int = if j0 == 0 {
            1
        } else {
            0
        };
        let other = regions[j]@;
        assert(is_cycle(refs, other));
        let p = other[0];
        assert(other.contains(p));
        assert(first[p as int] == p);
        assert(first.contains(p));
        assert(false);
    }
}

} // verus!
