//! The boundary of a contour under resolution: the points of the contour, the
//! points where it crosses itself, and the order in which the boundary passes
//! through both.
use crate::error::CombinatorialExplosionError;
use vstd::prelude::*;

verus! {

/// The largest number of crossings that one boundary may hold.
pub const MAX_CROSSINGS: usize = 3000;

/// A vertex of a boundary, named by where its coordinates are kept.
///
/// Two positions of a boundary that hold the same `Crossing` are the two
/// passes of the boundary through one point.
#[derive(Clone, Copy, Debug, PartialEq, Eq, Structural)]
pub enum VertexRef {
    /// A point of the raw contour, by its index there.
    Raw(usize),
    /// A point where the contour crosses itself, by its index among the
    /// crossings.
    Crossing(usize),
}

/// How many positions of `refs` hold `v`.
pub open spec fn occurrences(refs: Seq<VertexRef>, v: VertexRef) -> nat
    decreases refs.len(),
{
    if refs.len() == 0 {
        0
    } else {
        occurrences(refs.drop_last(), v) + if refs.last() == v {
            1nat
        } else {
            0nat
        }
    }
}

/// The references of a contour of `n` points that has not been resolved yet:
/// its own points, in order.
pub open spec fn raw_refs(n: nat) -> Seq<VertexRef> {
    Seq::new(n, |i: int| VertexRef::Raw(i as usize))
}

/// The references to raw points among `refs`, in their order.
pub open spec fn raw_part(refs: Seq<VertexRef>) -> Seq<VertexRef>
    decreases refs.len(),
{
    if refs.len() == 0 {
        Seq::empty()
    } else if refs.last() is Raw {
        raw_part(refs.drop_last()).push(refs.last())
    } else {
        raw_part(refs.drop_last())
    }
}

/// Where the second reference to a crossing goes.
///
/// The query edge starts at position `cursor` of a sequence of `len`
/// references, and the crossed edge is edge `hit` of the polyline that the
/// query edge was tested against. The result is a position in the sequence as
/// it is once the first reference stands behind `cursor`: `hit` positions on
/// from the third behind `cursor`, wrapped round the end of that sequence, and
/// one further where that lies behind `cursor`.
pub open spec fn partner_slot(cursor: int, hit: int, len: int) -> int {
    let wrapped = (cursor + 3 + hit) % (len + 1);
    if wrapped > cursor {
        wrapped + 1
    } else {
        wrapped
    }
}

/// Counting over a sequence in two parts adds up.
pub proof fn lemma_occurrences_concat(a: Seq<VertexRef>, b: Seq<VertexRef>, v: VertexRef)
    ensures
        occurrences(a + b, v) == occurrences(a, v) + occurrences(b, v),
    decreases b.len(),
{
    if b.len() == 0 {
        assert(a + b =~= a);
    } else {
        assert((a + b).drop_last() =~= a + b.drop_last());
        lemma_occurrences_concat(a, b.drop_last(), v);
    }
}

/// A sequence in which no position holds `v` counts none.
pub proof fn lemma_occurrences_absent(refs: Seq<VertexRef>, v: VertexRef)
    requires
        forall|i: int| 0 <= i < refs.len() ==> refs[i] != v,
    ensures
        occurrences(refs, v) == 0,
    decreases refs.len(),
{
    if refs.len() > 0 {
        lemma_occurrences_absent(refs.drop_last(), v);
    }
}

/// The count splits at any position into what lies before it, the position
/// itself and what lies behind it.
pub proof fn lemma_occurrences_split(refs: Seq<VertexRef>, p: int, v: VertexRef)
    requires
        0 <= p < refs.len(),
    ensures
        occurrences(refs, v) == occurrences(refs.subrange(0, p), v) + (if refs[p] == v {
            1nat
        } else {
            0nat
        }) + occurrences(refs.subrange(p + 1, refs.len() as int), v),
{
    let before = refs.subrange(0, p);
    let behind = refs.subrange(p + 1, refs.len() as int);
    let upto = before.push(refs[p]);
    assert(refs =~= upto + behind);
    assert(upto.drop_last() =~= before);
    lemma_occurrences_concat(upto, behind, v);
}

/// Putting one more reference into a sequence adds one to its own count and
/// leaves every other count as it was.
pub proof fn lemma_occurrences_insert(refs: Seq<VertexRef>, i: int, x: VertexRef, v: VertexRef)
    requires
        0 <= i <= refs.len(),
    ensures
        occurrences(refs.insert(i, x), v) == occurrences(refs, v) + (if x == v {
            1nat
        } else {
            0nat
        }),
{
    let before = refs.subrange(0, i);
    let behind = refs.subrange(i, refs.len() as int);
    assert(refs =~= before + behind);
    assert(before.push(x).drop_last() =~= before);
    lemma_occurrences_concat(before, behind, v);
    lemma_occurrences_concat(before.push(x), behind, v);
}

/// A position that holds `v`, in a sequence that counts at least one.
pub proof fn lemma_occurrence_position(refs: Seq<VertexRef>, v: VertexRef) -> (p: int)
    requires
        occurrences(refs, v) > 0,
    ensures
        0 <= p < refs.len(),
        refs[p] == v,
    decreases refs.len(),
{
    if refs.last() == v {
        refs.len() - 1
    } else {
        lemma_occurrence_position(refs.drop_last(), v)
    }
}

/// In a sequence that holds the reference at `p` exactly twice, the one other
/// position that holds it.
pub proof fn lemma_paired_position(refs: Seq<VertexRef>, p: int) -> (q: int)
    requires
        0 <= p < refs.len(),
        occurrences(refs, refs[p]) == 2,
    ensures
        0 <= q < refs.len(),
        q != p,
        refs[q] == refs[p],
        forall|r: int| 0 <= r < refs.len() && refs[r] == refs[p] ==> r == p || r == q,
{
    let v = refs[p];
    let n = refs.len() as int;
    let before = refs.subrange(0, p);
    let behind = refs.subrange(p + 1, n);
    lemma_occurrences_split(refs, p, v);
    if occurrences(before, v) > 0 {
        let q = lemma_occurrence_position(before, v);
        lemma_occurrences_split(before, q, v);
        assert forall|r: int| 0 <= r < n && refs[r] == v implies r == p || r == q by {
            if r < q {
                let part = before.subrange(0, q);
                if occurrences(part, v) == 0 {
                    assert(part[r] == v);
                    lemma_occurrences_split(part, r, v);
                }
            } else if q < r < p {
                let part = before.subrange(q + 1, p);
                if occurrences(part, v) == 0 {
                    assert(part[r - q - 1] == v);
                    lemma_occurrences_split(part, r - q - 1, v);
                }
            } else if r > p {
                if occurrences(behind, v) == 0 {
                    assert(behind[r - p - 1] == v);
                    lemma_occurrences_split(behind, r - p - 1, v);
                }
            }
        }
        q
    } else {
        let q0 = lemma_occurrence_position(behind, v);
        let q = q0 + p + 1;
        lemma_occurrences_split(behind, q0, v);
        assert forall|r: int| 0 <= r < n && refs[r] == v implies r == p || r == q by {
            if r < p {
                assert(before[r] == v);
                lemma_occurrences_split(before, r, v);
            } else if p < r < q {
                let part = behind.subrange(0, q0);
                if occurrences(part, v) == 0 {
                    assert(part[r - p - 1] == v);
                    lemma_occurrences_split(part, r - p - 1, v);
                }
            } else if r > q {
                let part = behind.subrange(q0 + 1, behind.len() as int);
                if occurrences(part, v) == 0 {
                    assert(part[r - q - 1] == v);
                    lemma_occurrences_split(part, r - q - 1, v);
                }
            }
        }
        q
    }
}

/// The raw part of a sequence in two parts is the raw parts of the two.
pub proof fn lemma_raw_part_concat(a: Seq<VertexRef>, b: Seq<VertexRef>)
    ensures
        raw_part(a + b) == raw_part(a) + raw_part(b),
    decreases b.len(),
{
    if b.len() == 0 {
        assert(a + b =~= a);
        assert(raw_part(a) + raw_part(b) =~= raw_part(a));
    } else {
        assert((a + b).drop_last() =~= a + b.drop_last());
        lemma_raw_part_concat(a, b.drop_last());
        if b.last() is Raw {
            assert(raw_part(a + b) =~= raw_part(a) + raw_part(b));
        }
    }
}

/// Putting a reference to a crossing into a sequence leaves its raw part as
/// it was.
pub proof fn lemma_raw_part_insert(refs: Seq<VertexRef>, i: int, x: VertexRef)
    requires
        0 <= i <= refs.len(),
        x is Crossing,
    ensures
        raw_part(refs.insert(i, x)) == raw_part(refs),
{
    let before = refs.subrange(0, i);
    let behind = refs.subrange(i, refs.len() as int);
    assert(refs =~= before + behind);
    assert(before.push(x).drop_last() =~= before);
    lemma_raw_part_concat(before, behind);
    lemma_raw_part_concat(before.push(x), behind);
}

/// An unresolved contour refers to raw points only.
pub proof fn lemma_raw_part_of_raw_refs(n: nat)
    ensures
        raw_part(raw_refs(n)) == raw_refs(n),
    decreases n,
{
    if n > 0 {
        assert(raw_refs(n).drop_last() =~= raw_refs((n - 1) as nat));
        lemma_raw_part_of_raw_refs((n - 1) as nat);
        assert(raw_part(raw_refs(n)) =~= raw_refs(n));
    } else {
        assert(raw_part(raw_refs(n)) =~= raw_refs(n));
    }
}

/// A sequence that refers to raw points only is its own raw part.
pub proof fn lemma_raw_part_of_raw_only(refs: Seq<VertexRef>)
    requires
        forall|p: int| 0 <= p < refs.len() ==> (#[trigger] refs[p]) is Raw,
    ensures
        raw_part(refs) == refs,
    decreases refs.len(),
{
    if refs.len() > 0 {
        assert forall|p: int| 0 <= p < refs.drop_last().len() implies (
        #[trigger] refs.drop_last()[p]) is Raw by {
            assert(refs[p] is Raw);
        }
        lemma_raw_part_of_raw_only(refs.drop_last());
        assert(refs[refs.len() - 1] is Raw);
        assert(raw_part(refs) =~= refs);
    } else {
        assert(raw_part(refs) =~= refs);
    }
}

/// A contour under resolution: its own points, the points where it was found
/// to cross itself, and the cyclic order in which the boundary passes through
/// both.
pub struct Boundary<P> {
    /// The points of the raw contour. The last is joined to the first.
    pub raw: Vec<P>,
    /// The crossings found so far.
    pub crossings: Vec<P>,
    /// The boundary as a cyclic sequence of references into `raw` and
    /// `crossings`.
    pub refs: Vec<VertexRef>,
}

impl<P: Copy> Boundary<P> {
    /// Whether `v` refers to a point that this boundary holds.
    pub open spec fn holds(&self, v: VertexRef) -> bool {
        match v {
            VertexRef::Raw(i) => i < self.raw@.len(),
            VertexRef::Crossing(k) => k < self.crossings@.len(),
        }
    }

    /// The point that `v` refers to.
    pub open spec fn point_of(&self, v: VertexRef) -> P {
        match v {
            VertexRef::Raw(i) => self.raw@[i as int],
            VertexRef::Crossing(k) => self.crossings@[k as int],
        }
    }

    /// The point at position `p` of the boundary.
    pub open spec fn point_at(&self, p: int) -> P {
        self.point_of(self.refs@[p])
    }

    /// What holds of every boundary: the crossings stay within the cap, every
    /// reference is to a point that is there, the raw points are passed once
    /// each and in their order, and every crossing is passed twice.
    pub open spec fn wf(&self) -> bool {
        &&& self.crossings@.len() <= MAX_CROSSINGS
        &&& self.refs@.len() == self.raw@.len() + 2 * self.crossings@.len()
        &&& forall|p: int| 0 <= p < self.refs@.len() ==> self.holds(#[trigger] self.refs@[p])
        &&& raw_part(self.refs@) == raw_refs(self.raw@.len())
        &&& forall|k: usize|
            k < self.crossings@.len() ==> #[trigger] occurrences(
                self.refs@,
                VertexRef::Crossing(k),
            ) == 2
    }

    /// A boundary without a crossing passes the raw points, one after the
    /// other, and nothing else.
    pub proof fn lemma_uncrossed_passes_raw_points(&self)
        requires
            self.wf(),
            self.crossings@.len() == 0,
        ensures
            self.refs@ == raw_refs(self.raw@.len()),
    {
        assert forall|p: int| 0 <= p < self.refs@.len() implies (#[trigger] self.refs@[p]) is Raw by {
            assert(self.holds(self.refs@[p]));
        }
        lemma_raw_part_of_raw_only(self.refs@);
    }

    /// The boundary of a contour in which no crossing has been looked for yet.
    pub fn new(raw: Vec<P>) -> (boundary: Self)
        ensures
            boundary.wf(),
            boundary.raw@ == raw@,
            boundary.crossings@.len() == 0,
            boundary.refs@ == raw_refs(raw@.len()),
    {
        let mut refs: Vec<VertexRef> = Vec::new();
        let mut i: usize = 0;
        while i < raw.len()
            invariant
                i <= raw@.len(),
                refs@ == raw_refs(i as nat),
            decreases raw@.len() - i,
        {
            refs.push(VertexRef::Raw(i));
            assert(refs@ =~= raw_refs((i + 1) as nat));
            i += 1;
        }
        let boundary = Boundary { raw, crossings: Vec::new(), refs };
        proof {
            lemma_raw_part_of_raw_refs(boundary.raw@.len());
        }
        boundary
    }

    /// The point that `v` refers to.
    pub fn lookup(&self, v: VertexRef) -> (point: P)
        requires
            self.holds(v),
        ensures
            point == self.point_of(v),
    {
        match v {
            VertexRef::Raw(i) => self.raw[i],
            VertexRef::Crossing(k) => self.crossings[k],
        }
    }

    /// The points of the boundary from position `from` up to position `to`.
    pub open spec fn points_between(&self, from: int, to: int) -> Seq<P> {
        Seq::new((to - from) as nat, |i: int| self.point_at(from + i))
    }

    /// The polyline that an edge is tested against: the boundary without the
    /// two ends of the edge that starts at `cursor`, beginning behind that
    /// edge and wrapping round to end in front of it.
    pub open spec fn rest_of(&self, cursor: int) -> Seq<P> {
        self.points_between(cursor + 2, self.refs@.len() as int) + self.points_between(0, cursor)
    }

    /// The polyline that the edge starting at `cursor` is tested against.
    pub fn rest_points(&self, cursor: usize) -> (rest: Vec<P>)
        requires
            self.wf(),
            cursor + 2 <= self.refs@.len(),
        ensures
            rest@ == self.rest_of(cursor as int),
    {
        let mut rest: Vec<P> = Vec::new();
        let len = self.refs.len();
        let mut i: usize = cursor + 2;
        while i < len
            invariant
                self.wf(),
                len == self.refs@.len(),
                cursor + 2 <= i <= len,
                rest@ == self.points_between(cursor + 2, i as int),
            decreases len - i,
        {
            rest.push(self.lookup(self.refs[i]));
            assert(rest@ =~= self.points_between(cursor + 2, i + 1));
            i += 1;
        }
        let mut j: usize = 0;
        while j < cursor
            invariant
                self.wf(),
                len == self.refs@.len(),
                j <= cursor < len,
                rest@ == self.points_between(cursor + 2, len as int) + self.points_between(
                    0,
                    j as int,
                ),
            decreases cursor - j,
        {
            rest.push(self.lookup(self.refs[j]));
            assert(rest@ =~= self.points_between(cursor + 2, len as int) + self.points_between(
                0,
                j + 1,
            ));
            j += 1;
        }
        rest
    }

    /// The closed ring that passes the given positions of the boundary: the
    /// points at these positions, and the first of them once more.
    pub open spec fn ring_through(&self, positions: Seq<usize>) -> Seq<P> {
        positions.map_values(|p: usize| self.point_at(p as int)).push(
            self.point_at(positions[0] as int),
        )
    }

    /// The whole boundary as a closed ring: the points at all its positions,
    /// and the first once more.
    pub open spec fn resolved(&self) -> Seq<P> {
        self.points_between(0, self.refs@.len() as int).push(self.point_at(0))
    }

    /// The closed ring that passes the given positions of the boundary.
    pub fn ring_of(&self, positions: &Vec<usize>) -> (ring: Vec<P>)
        requires
            self.wf(),
            positions@.len() > 0,
            forall|i: int| 0 <= i < positions@.len() ==> positions@[i] < self.refs@.len(),
        ensures
            ring@ == self.ring_through(positions@),
    {
        let mut ring: Vec<P> = Vec::new();
        let mut i: usize = 0;
        while i < positions.len()
            invariant
                self.wf(),
                i <= positions@.len(),
                forall|i: int| 0 <= i < positions@.len() ==> positions@[i] < self.refs@.len(),
                ring@ == positions@.subrange(0, i as int).map_values(
                    |p: usize| self.point_at(p as int),
                ),
            decreases positions@.len() - i,
        {
            ring.push(self.lookup(self.refs[positions[i]]));
            assert(ring@ =~= positions@.subrange(0, i + 1).map_values(
                |p: usize| self.point_at(p as int),
            ));
            i += 1;
        }
        assert(positions@.subrange(0, i as int) =~= positions@);
        ring.push(self.lookup(self.refs[positions[0]]));
        ring
    }

    /// The whole boundary as a closed ring.
    pub fn resolved_ring(&self) -> (ring: Vec<P>)
        requires
            self.wf(),
            self.refs@.len() > 0,
        ensures
            ring@ == self.resolved(),
    {
        let mut ring: Vec<P> = Vec::new();
        let len = self.refs.len();
        let mut i: usize = 0;
        while i < len
            invariant
                self.wf(),
                len == self.refs@.len(),
                i <= len,
                ring@ == self.points_between(0, i as int),
            decreases len - i,
        {
            ring.push(self.lookup(self.refs[i]));
            assert(ring@ =~= self.points_between(0, i + 1));
            i += 1;
        }
        ring.push(self.lookup(self.refs[0]));
        ring
    }

    /// Records that the edge starting at `cursor` crosses edge `hit` of its
    /// rest polyline at `point`.
    ///
    /// The crossing is added to the crossings, and two references to it are
    /// put into the boundary: one right behind `cursor`, the other where
    /// `partner_slot` places it for the crossed edge. A boundary that already
    /// holds as many crossings as the cap allows is left as it is, and the
    /// call fails.
    pub fn record_crossing(&mut self, cursor: usize, hit: usize, point: P) -> (result: Result<
        (),
        CombinatorialExplosionError,
    >)
        requires
            old(self).wf(),
            cursor + 1 < old(self).refs@.len(),
            hit + 3 < old(self).refs@.len(),
        ensures
            result is Err <==> old(self).crossings@.len() == MAX_CROSSINGS,
            result is Err ==> *final(self) == *old(self),
            result is Ok ==> final(self).wf(),
            result is Ok ==> final(self).raw@ == old(self).raw@,
            result is Ok ==> final(self).crossings@ == old(self).crossings@.push(point),
            result is Ok ==> final(self).refs@ == old(self).refs@.insert(
                cursor + 1,
                VertexRef::Crossing(old(self).crossings@.len() as usize),
            ).insert(
                partner_slot(cursor as int, hit as int, old(self).refs@.len() as int),
                VertexRef::Crossing(old(self).crossings@.len() as usize),
            ),
    {
        if self.crossings.len() >= MAX_CROSSINGS {
            return Err(CombinatorialExplosionError);
        }
        let ghost before = self.refs@;
        assert(before.len() == self.refs.len());
        let id = VertexRef::Crossing(self.crossings.len());
        self.crossings.push(point);
        self.refs.insert(cursor + 1, id);
        let ghost between = self.refs@;
        let len = self.refs.len();
        let first = cursor + 3;
        let room = len - first;
        let wrapped = if hit < room {
            first + hit
        } else {
            hit - room
        };
        let slot = if wrapped > cursor {
            wrapped + 1
        } else {
            wrapped
        };
        proof {
            if hit < room {
                vstd::arithmetic::div_mod::lemma_small_mod((first + hit) as nat, len as nat);
            } else {
                vstd::arithmetic::div_mod::lemma_small_mod((hit - room) as nat, len as nat);
                vstd::arithmetic::div_mod::lemma_mod_add_multiples_vanish(
                    (hit - room) as int,
                    len as int,
                );
            }
            assert(slot == partner_slot(cursor as int, hit as int, before.len() as int));
        }
        self.refs.insert(slot, id);
        proof {
            let after = self.refs@;
            assert forall|p: int| 0 <= p < after.len() implies self.holds(
                #[trigger] after[p],
            ) by {
                if p < slot {
                    assert(after[p] == between[p]);
                } else if p > slot {
                    assert(after[p] == between[p - 1]);
                }
                let m = if p < slot {
                    p
                } else {
                    p - 1
                };
                if p != slot {
                    if m < cursor + 1 {
                        assert(between[m] == before[m]);
                        assert(old(self).holds(before[m]));
                    } else if m > cursor + 1 {
                        assert(between[m] == before[m - 1]);
                        assert(old(self).holds(before[m - 1]));
                    }
                }
            }
            lemma_raw_part_insert(before, cursor + 1, id);
            lemma_raw_part_insert(between, slot as int, id);
            assert forall|k: usize| k < self.crossings@.len() implies #[trigger] occurrences(
                after,
                VertexRef::Crossing(k),
            ) == 2 by {
                lemma_occurrences_insert(before, cursor + 1, id, VertexRef::Crossing(k));
                lemma_occurrences_insert(between, slot as int, id, VertexRef::Crossing(k));
                if VertexRef::Crossing(k) == id {
                    assert forall|p: int| 0 <= p < before.len() implies before[p] != id by {
                        assert(old(self).holds(before[p]));
                    }
                    lemma_occurrences_absent(before, id);
                }
            }
        }
        Ok(())
    }
}

} // verus!
