//! The photon map: a bounded max-heap of neighbour candidates used as the
//! pruning radius of the search, and (further below) the balanced k-d index
//! over stored photons with its bounded k-nearest-neighbour query.

use vstd::prelude::*;

use vstd::multiset::Multiset;
use vstd::pervasive::VecAdditionalExecFns;

use crate::fixed::fx_mul;
use crate::material::{color_in_range, Color};
use crate::vector3::{dist_sq_spec, dot_raw, vec_bounded, Vector3, COORD_LIMIT, UNIT_LIMIT};

verus! {

/// Capacity of the default query heap: how many neighbours a radiance
/// estimate retains.
pub const N_PHOTON_RADIANCE: usize = 200;

/// Default squared search radius (100 world units), in raw units of
/// `1 / FX_ONE^2`.
pub const DEFAULT_MAX_DIST_SQ: u64 = 10000 * 65536 * 65536;

/// Hard bound on a heap's capacity, so that child indices never overflow.
pub const HEAP_CAP_LIMIT: usize = 0x1000_0000;

/// Bound on the capacity of a heap handed to a radiance query, so that the
/// gathered power fits in 64 bits.
pub const QUERY_CAP_LIMIT: usize = 0x10_0000;

#[derive(Clone, Copy, Debug, PartialEq, Eq, Structural)]
pub struct Neighbor {
    pub distance_squared: u64,
    pub index: usize,
}

/// Every non-root element is dominated by its parent — the shape that makes
/// the root the greatest element.
pub open spec fn heap_dominated(s: Seq<Neighbor>) -> bool {
    forall|j: int|
        1 <= j < s.len() ==> s[(j - 1) / 2].distance_squared >= (
        #[trigger] s[j]).distance_squared
}

/// Parent domination everywhere except along the edge into `hole`.
spec fn dominated_except(s: Seq<Neighbor>, hole: int) -> bool {
    forall|j: int|
        1 <= j < s.len() && j != hole ==> s[(j - 1) / 2].distance_squared >= (
        #[trigger] s[j]).distance_squared
}

/// Parent domination everywhere except along the edges out of `hole`.
spec fn dominated_except_below(s: Seq<Neighbor>, hole: int) -> bool {
    forall|j: int|
        1 <= j < s.len() && (j - 1) / 2 != hole ==> s[(j - 1) / 2].distance_squared >= (
        #[trigger] s[j]).distance_squared
}

/// The children of `i` are dominated by the parent of `i` (trivial at the
/// root, which has no parent).
spec fn children_below_parent(s: Seq<Neighbor>, i: int) -> bool {
    i > 0 ==> forall|c: int|
        (c == 2 * i + 1 || c == 2 * i + 2) && 0 <= c < s.len() ==> (
        #[trigger] s[c]).distance_squared <= s[(i - 1) / 2].distance_squared
}

/// Fixed-capacity max-heap of neighbour candidates: the root is the current
/// farthest retained candidate and serves as the search's pruning radius.
pub struct Heap {
    items: Vec<Neighbor>,
    capacity: usize,
    max_distance_squared: u64,
}

impl Heap {
    /// The retained candidates, in heap array order.
    pub closed spec fn contents(&self) -> Seq<Neighbor> {
        self.items@
    }

    /// How many candidates the heap retains at most.
    pub closed spec fn cap(&self) -> int {
        self.capacity as int
    }

    /// The current pruning radius: the root's squared distance once the heap
    /// holds anything, the initial search radius before that.
    pub closed spec fn bound(&self) -> u64 {
        self.max_distance_squared
    }

    pub open spec fn wf(&self) -> bool {
        &&& heap_dominated(self.contents())
        &&& self.contents().len() <= self.cap()
        &&& 1 <= self.cap() <= HEAP_CAP_LIMIT
        &&& (self.contents().len() > 0 ==> self.bound() == self.contents()[0].distance_squared)
    }

    pub fn new() -> (r: Heap)
        ensures
            r.wf(),
            r.contents().len() == 0,
            r.cap() == N_PHOTON_RADIANCE,
            r.bound() == DEFAULT_MAX_DIST_SQ,
    {
        Heap {
            items: Vec::new(),
            capacity: N_PHOTON_RADIANCE,
            max_distance_squared: DEFAULT_MAX_DIST_SQ,
        }
    }

    /// A heap for queries that retain up to `capacity` candidates.
    pub fn with_capacity(capacity: usize) -> (r: Heap)
        requires
            1 <= capacity <= HEAP_CAP_LIMIT,
        ensures
            r.wf(),
            r.contents().len() == 0,
            r.cap() == capacity,
            r.bound() == DEFAULT_MAX_DIST_SQ,
    {
        Heap { items: Vec::new(), capacity, max_distance_squared: DEFAULT_MAX_DIST_SQ }
    }

    /// Forget the previous query's candidates and restore the default
    /// search radius.  Must be called between queries.
    pub fn reset(&mut self)
        requires
            old(self).wf(),
        ensures
            final(self).wf(),
            final(self).contents().len() == 0,
            final(self).cap() == old(self).cap(),
            final(self).bound() == DEFAULT_MAX_DIST_SQ,
    {
        self.items.clear();
        self.max_distance_squared = DEFAULT_MAX_DIST_SQ;
    }

    pub fn size(&self) -> (r: usize)
        ensures
            r == self.contents().len(),
    {
        self.items.len()
    }

    pub fn capacity(&self) -> (r: usize)
        ensures
            r == self.cap(),
    {
        self.capacity
    }

    pub fn max_dist_sq(&self) -> (r: u64)
        ensures
            r == self.bound(),
    {
        self.max_distance_squared
    }

    pub fn item(&self, i: usize) -> (r: Neighbor)
        requires
            i < self.contents().len(),
        ensures
            r == self.contents()[i as int],
    {
        *vstd::std_specs::vec::vec_index(&self.items, i)
    }

    /// Admit a candidate: append while below capacity, otherwise evict the
    /// current farthest (the root) and insert the newcomer.  Afterwards the
    /// pruning radius is the new root's squared distance.
    pub fn add_photon(&mut self, index: usize, distance_squared: u64)
        requires
            old(self).wf(),
        ensures
            final(self).wf(),
            final(self).cap() == old(self).cap(),
            final(self).contents().len() > 0,
            final(self).bound() == final(self).contents()[0].distance_squared,
            old(self).contents().len() < old(self).cap() ==> {
                &&& final(self).contents().len() == old(self).contents().len() + 1
                &&& final(self).contents().to_multiset() == old(
                    self,
                ).contents().to_multiset().insert(Neighbor { distance_squared, index })
            },
            old(self).contents().len() == old(self).cap() ==> {
                &&& final(self).contents().len() == old(self).cap()
                &&& final(self).contents().to_multiset() == old(
                    self,
                ).contents().to_multiset().remove(old(self).contents()[0]).insert(
                    Neighbor { distance_squared, index },
                )
            },
    {
        if self.items.len() == self.capacity {
            self.heap_remove();
        }
        self.heap_add(index, distance_squared);
        self.max_distance_squared = self.item(0).distance_squared;
    }

    /// Insert below capacity: push at the end and sift up.
    fn heap_add(&mut self, index: usize, distance_squared: u64)
        requires
            heap_dominated(old(self).contents()),
            old(self).contents().len() < old(self).cap(),
            old(self).cap() <= HEAP_CAP_LIMIT,
        ensures
            heap_dominated(final(self).contents()),
            final(self).contents().len() == old(self).contents().len() + 1,
            final(self).contents().to_multiset() == old(self).contents().to_multiset().insert(
                Neighbor { distance_squared, index },
            ),
            final(self).cap() == old(self).cap(),
            final(self).bound() == old(self).bound(),
    {
        let ghost s0 = self.items@;
        let n = Neighbor { distance_squared, index };
        self.items.push(n);
        proof {
            s0.to_multiset_ensures();
            assert(dominated_except(self.items@, s0.len() as int));
            assert(children_below_parent(self.items@, s0.len() as int));
        }
        let i = self.items.len() - 1;
        self.sift_up(i);
    }

    /// Restore parent domination upward from position `i`.
    fn sift_up(&mut self, i: usize)
        requires
            i < old(self).contents().len(),
            dominated_except(old(self).contents(), i as int),
            children_below_parent(old(self).contents(), i as int),
        ensures
            heap_dominated(final(self).contents()),
            final(self).contents().len() == old(self).contents().len(),
            final(self).contents().to_multiset() == old(self).contents().to_multiset(),
            final(self).cap() == old(self).cap(),
            final(self).bound() == old(self).bound(),
        decreases i,
    {
        if i == 0 {
            return ;
        }
        let parent = (i - 1) / 2;
        let vi = self.item(i);
        let vp = self.item(parent);
        if vp.distance_squared >= vi.distance_squared {
            return ;
        }
        let ghost s = self.items@;
        self.items.set(i, vp);
        self.items.set(parent, vi);
        proof {
            lemma_swap_preserves_multiset(s, parent as int, i as int);
            assert(self.items@ =~= s.update(i as int, vp).update(parent as int, vi));
            assert(self.items@ =~= s.update(parent as int, s[i as int]).update(
                i as int,
                s[parent as int],
            ));
            assert(dominated_except(self.items@, parent as int)) by {
                assert forall|j: int|
                    1 <= j < self.items@.len() && j != parent implies self.items@[(j - 1)
                    / 2].distance_squared >= (#[trigger] self.items@[j]).distance_squared by {
                    if j == i {
                    } else if (j - 1) / 2 == i {
                        assert(s[j].distance_squared <= s[(i as int - 1)
                            / 2].distance_squared);
                    } else if (j - 1) / 2 == parent {
                        assert(s[j].distance_squared <= s[parent as int].distance_squared);
                    } else {
                    }
                }
            }
            assert(children_below_parent(self.items@, parent as int)) by {
                if parent > 0 {
                    assert forall|c: int|
                        (c == 2 * (parent as int) + 1 || c == 2 * (parent as int) + 2) && 0 <= c
                        < self.items@.len() implies (#[trigger] self.items@[c]).distance_squared
                        <= self.items@[((parent as int) - 1) / 2].distance_squared by {
                        let gp = ((parent as int) - 1) / 2;
                        assert(gp != i && gp != parent);
                        if c == i {
                            assert(s[parent as int].distance_squared <= s[gp].distance_squared);
                        } else {
                            assert(s[c].distance_squared <= s[parent as int].distance_squared);
                            assert(s[parent as int].distance_squared <= s[gp].distance_squared);
                        }
                    }
                }
            }
        }
        self.sift_up(parent);
    }

    /// Remove the root (the farthest candidate): move the last element into
    /// its place and sift down.
    fn heap_remove(&mut self)
        requires
            heap_dominated(old(self).contents()),
            old(self).contents().len() >= 1,
            old(self).contents().len() <= HEAP_CAP_LIMIT,
        ensures
            heap_dominated(final(self).contents()),
            final(self).contents().len() == old(self).contents().len() - 1,
            final(self).contents().to_multiset() == old(self).contents().to_multiset().remove(
                old(self).contents()[0],
            ),
            final(self).cap() == old(self).cap(),
            final(self).bound() == old(self).bound(),
    {
        let ghost s0 = self.items@;
        let ghost li = s0.len() - 1;
        let last = self.items.pop().unwrap();
        proof {
            s0.to_multiset_ensures();
            assert(self.items@ =~= s0.remove(li));
            assert(s0.remove(li).to_multiset() =~= s0.to_multiset().remove(s0[li]));
        }
        if self.items.len() == 0 {
            proof {
                assert(s0.len() == 1);
                assert(s0[li] == s0[0]);
            }
            return ;
        }
        let ghost s1 = self.items@;
        self.items.set(0, last);
        proof {
            s1.to_multiset_ensures();
            vstd::seq_lib::to_multiset_update(s1, 0, last);
            assert(last == s0[li]);
            assert(self.items@.to_multiset() =~= s0.to_multiset().remove(s0[0])) by {
                assert(s1.to_multiset() =~= s0.to_multiset().remove(last));
                assert(self.items@.to_multiset() =~= s1.to_multiset().insert(last).remove(
                    s1[0],
                ));
                assert(s1[0] == s0[0]);
                assert(s0.to_multiset().count(last) > 0);
                lemma_multiset_remove_insert_cancel(s0.to_multiset(), last, s0[0]);
            }
            assert(dominated_except_below(self.items@, 0)) by {
                assert forall|j: int|
                    1 <= j < self.items@.len() && (j - 1) / 2 != 0 implies self.items@[(j - 1)
                    / 2].distance_squared >= (#[trigger] self.items@[j]).distance_squared by {
                    assert(self.items@[j] == s0[j]);
                    assert(self.items@[(j - 1) / 2] == s0[(j - 1) / 2]);
                }
            }
            assert(children_below_parent(self.items@, 0));
        }
        self.sift_down(0);
    }

    /// Restore parent domination downward from position `i`.
    fn sift_down(&mut self, i: usize)
        requires
            i < old(self).contents().len(),
            old(self).contents().len() <= HEAP_CAP_LIMIT,
            dominated_except_below(old(self).contents(), i as int),
            children_below_parent(old(self).contents(), i as int),
        ensures
            heap_dominated(final(self).contents()),
            final(self).contents().len() == old(self).contents().len(),
            final(self).contents().to_multiset() == old(self).contents().to_multiset(),
            final(self).cap() == old(self).cap(),
            final(self).bound() == old(self).bound(),
        decreases old(self).contents().len() - i,
    {
        let n = self.items.len();
        let left = 2 * i + 1;
        if left >= n {
            return ;
        }
        let right = left + 1;
        let mut m = left;
        if right < n {
            if self.item(right).distance_squared > self.item(left).distance_squared {
                m = right;
            }
        }
        let vi = self.item(i);
        let vm = self.item(m);
        if vi.distance_squared >= vm.distance_squared {
            return ;
        }
        let ghost s = self.items@;
        self.items.set(i, vm);
        self.items.set(m, vi);
        proof {
            lemma_swap_preserves_multiset(s, i as int, m as int);
            assert(self.items@ =~= s.update(i as int, vm).update(m as int, vi));
            assert(dominated_except_below(self.items@, m as int)) by {
                assert forall|j: int|
                    1 <= j < self.items@.len() && (j - 1) / 2 != m implies self.items@[(j - 1)
                    / 2].distance_squared >= (#[trigger] self.items@[j]).distance_squared by {
                    if j == m {
                        assert(self.items@[(j - 1) / 2] == vm);
                    } else if j == i {
                        assert(s[j].distance_squared <= s[((i as int) - 1) / 2].distance_squared);
                    } else if (j - 1) / 2 == i {
                        assert(j == 2 * (i as int) + 1 || j == 2 * (i as int) + 2);
                        assert(s[j].distance_squared <= vm.distance_squared);
                    } else {
                        assert(self.items@[j] == s[j]);
                        assert(self.items@[(j - 1) / 2] == s[(j - 1) / 2]);
                    }
                }
            }
            assert(children_below_parent(self.items@, m as int)) by {
                assert forall|c: int|
                    (c == 2 * (m as int) + 1 || c == 2 * (m as int) + 2) && 0 <= c
                    < self.items@.len() implies (#[trigger] self.items@[c]).distance_squared
                    <= self.items@[((m as int) - 1) / 2].distance_squared by {
                    assert(((m as int) - 1) / 2 == i);
                    assert(s[c].distance_squared <= s[m as int].distance_squared);
                }
            }
        }
        self.sift_down(m);
    }
}

/// Swapping two positions leaves the multiset of elements unchanged.
proof fn lemma_swap_preserves_multiset<T>(s: Seq<T>, i: int, j: int)
    requires
        0 <= i < s.len(),
        0 <= j < s.len(),
        i != j,
    ensures
        s.update(i, s[j]).update(j, s[i]).to_multiset() == s.to_multiset(),
{
    vstd::seq_lib::to_multiset_update(s, i, s[j]);
    let s1 = s.update(i, s[j]);
    vstd::seq_lib::to_multiset_update(s1, j, s[i]);
    assert(s1[j] == s[j]);
    assert(s1.update(j, s[i]).to_multiset() =~= s.to_multiset()) by {
        assert(s1.to_multiset() =~= s.to_multiset().insert(s[j]).remove(s[i]));
        assert(s1.update(j, s[i]).to_multiset() =~= s1.to_multiset().insert(s[i]).remove(s[j]));
        s.to_multiset_ensures();
        assert(s.to_multiset().count(s[i]) > 0);
        assert(s.to_multiset().insert(s[j]).remove(s[i]).insert(s[i]).remove(s[j]) =~= s.to_multiset());
    }
}

/// Removing then re-inserting a present element, in either interleaving,
/// cancels out.
proof fn lemma_multiset_remove_insert_cancel<T>(m: Multiset<T>, a: T, b: T)
    requires
        m.count(a) > 0,
    ensures
        m.remove(a).insert(a).remove(b) =~= m.remove(b),
{
}

/// A property of every element of a sequence holds of every element of any
/// sequence with the same multiset.
proof fn lemma_multiset_all<T>(s1: Seq<T>, s2: Seq<T>, pred: spec_fn(T) -> bool)
    requires
        s1.to_multiset() == s2.to_multiset(),
        forall|i: int| 0 <= i < s1.len() ==> pred(#[trigger] s1[i]),
    ensures
        s1.len() == s2.len(),
        forall|i: int| 0 <= i < s2.len() ==> pred(#[trigger] s2[i]),
{
    s1.to_multiset_ensures();
    s2.to_multiset_ensures();
    assert forall|i: int| 0 <= i < s2.len() implies pred(#[trigger] s2[i]) by {
        assert(s2.to_multiset().count(s2[i]) > 0);
        assert(s1.contains(s2[i]));
        let j = choose|j: int| 0 <= j < s1.len() && s1[j] == s2[i];
        assert(pred(s1[j]));
    }
}

/// Every photon that passes the filter contributes its candidate record.
proof fn lemma_candidates_member(
    s: Seq<Photon>,
    pos: Vector3,
    normal: Vector3,
    b: int,
    e: int,
    j: int,
)
    requires
        b <= j < e,
        passes_filter(pos, normal, s[j]),
    ensures
        candidates(s, pos, normal, b, e).count(candidate(s, pos, j)) >= 1,
    decreases e - j,
{
    if e == j + 1 {
    } else {
        lemma_candidates_member(s, pos, normal, b, e - 1, j);
    }
}

/// When every photon of `[b, e)` passes the filter, the candidate multiset
/// holds one record per photon, each exactly once (indices distinguish
/// photons at equal positions).
proof fn lemma_candidates_all_pass(s: Seq<Photon>, pos: Vector3, normal: Vector3, b: int, e: int)
    requires
        0 <= b <= e <= usize::MAX,
        forall|j: int| b <= j < e ==> passes_filter(pos, normal, #[trigger] s[j]),
    ensures
        candidates(s, pos, normal, b, e).len() == e - b,
        forall|j: int|
            b <= j < e ==> candidates(s, pos, normal, b, e).count(
                #[trigger] candidate(s, pos, j),
            ) == 1,
    decreases e - b,
{
    if e <= b {
    } else {
        lemma_candidates_all_pass(s, pos, normal, b, e - 1);
        let idx_below = |x: Neighbor| x.index < e - 1;
        lemma_candidates_all(s, pos, normal, b, e - 1, idx_below);
        assert forall|j: int| b <= j < e implies candidates(s, pos, normal, b, e).count(
            #[trigger] candidate(s, pos, j),
        ) == 1 by {
            if j == e - 1 {
                assert(candidates(s, pos, normal, b, e - 1).count(candidate(s, pos, j)) == 0)
                    by {
                    if candidates(s, pos, normal, b, e - 1).count(candidate(s, pos, j)) > 0 {
                        assert(idx_below(candidate(s, pos, j)));
                    }
                }
            } else {
                assert(candidate(s, pos, e - 1).index == e - 1);
                assert(candidate(s, pos, j).index == j);
                assert(candidate(s, pos, e - 1) != candidate(s, pos, j));
            }
        }
    }
}

/// The heap invariant behind every query: the size never exceeds the
/// capacity, the root holds the greatest retained squared distance, and
/// the pruning radius is exactly that root.
pub proof fn lemma_heap_invariant(h: &Heap)
    requires
        h.wf(),
    ensures
        h.contents().len() <= h.cap(),
        forall|j: int|
            0 <= j < h.contents().len() ==> (#[trigger] h.contents()[j]).distance_squared
                <= h.contents()[0].distance_squared,
        h.contents().len() > 0 ==> h.bound() == h.contents()[0].distance_squared,
{
    lemma_root_is_max(h.contents());
}

/// After a query over a map whose photons all pass the filter and all fit
/// within the heap's capacity, the heap retains exactly one record per
/// stored photon: nothing is lost and nothing is duplicated.
pub proof fn lemma_query_complete(
    s: Seq<Photon>,
    pos: Vector3,
    normal: Vector3,
    cap: int,
    m: Multiset<Neighbor>,
    b0: u64,
    b1: u64,
)
    requires
        search_post(cap, Multiset::empty(), b0, m, b1, candidates(s, pos, normal, 0, s.len() as int)),
        forall|j: int| 0 <= j < s.len() ==> passes_filter(pos, normal, #[trigger] s[j]),
        s.len() <= cap,
        s.len() <= usize::MAX,
    ensures
        m.len() == s.len(),
        forall|j: int|
            0 <= j < s.len() ==> m.count(#[trigger] candidate(s, pos, j)) == 1,
{
    lemma_candidates_all_pass(s, pos, normal, 0, s.len() as int);
    let cands = candidates(s, pos, normal, 0, s.len() as int);
    assert(Multiset::<Neighbor>::empty().len() + cands.len() <= cap);
    assert(m == Multiset::<Neighbor>::empty().add(cands));
    assert forall|j: int| 0 <= j < s.len() implies m.count(#[trigger] candidate(s, pos, j))
        == 1 by {
        assert(cands.count(candidate(s, pos, j)) == 1);
    }
}

/// The bounded search returns the true nearest neighbours: any photon that
/// passes the filter and lies strictly closer than the final pruning bound
/// was retained.  Together with `lemma_heap_invariant` (the bound is the
/// farthest retained distance) and the size clause of `search_post`, the
/// retained set is a set of `min(capacity, passing)` photons none of which
/// can be beaten by an unretained one.
pub proof fn lemma_query_nearest(
    s: Seq<Photon>,
    pos: Vector3,
    normal: Vector3,
    cap: int,
    m: Multiset<Neighbor>,
    b0: u64,
    b1: u64,
    j: int,
)
    requires
        search_post(cap, Multiset::empty(), b0, m, b1, candidates(s, pos, normal, 0, s.len() as int)),
        0 <= j < s.len(),
        passes_filter(pos, normal, s[j]),
        vec_bounded(pos, COORD_LIMIT as int),
        vec_bounded(s[j].position, COORD_LIMIT as int),
        dist_sq_spec(pos, s[j].position) < b1,
    ensures
        m.count(candidate(s, pos, j)) >= 1,
{
    lemma_candidates_member(s, pos, normal, 0, s.len() as int, j);
    lemma_dist_sq_in_range(pos, s[j].position);
    assert(candidate(s, pos, j).distance_squared == dist_sq_spec(pos, s[j].position));
    assert(candidates(s, pos, normal, 0, s.len() as int).count(candidate(s, pos, j)) > 0);
}

/// The root of a parent-dominated heap holds the greatest squared distance:
/// every retained candidate is at most the root.
pub proof fn lemma_root_is_max(s: Seq<Neighbor>)
    requires
        heap_dominated(s),
    ensures
        forall|j: int|
            0 <= j < s.len() ==> (#[trigger] s[j]).distance_squared <= s[0].distance_squared,
{
    assert forall|j: int|
        0 <= j < s.len() implies (#[trigger] s[j]).distance_squared
        <= s[0].distance_squared by {
        lemma_le_root(s, j);
    }
}

proof fn lemma_le_root(s: Seq<Neighbor>, j: int)
    requires
        heap_dominated(s),
        0 <= j < s.len(),
    ensures
        s[j].distance_squared <= s[0].distance_squared,
    decreases j,
{
    if j > 0 {
        lemma_le_root(s, (j - 1) / 2);
    }
}

/// Bound on a photon's power channels, in units of `1 / FX_ONE`.
pub const POWER_LIMIT: i64 = 0x1_0000_0000;

/// Hard bound on how many photons a map may store, so that the balance
/// statistics fit in 128-bit intermediates.
pub const MAP_SIZE_LIMIT: usize = 0x1000_0000;

/// The split axis a balanced node was tagged with, or `Leaf`.
#[derive(Clone, Copy, Debug, PartialEq, Eq, Structural)]
pub enum Flag {
    XAxis,
    YAxis,
    ZAxis,
    Leaf,
}

#[derive(Clone, Copy, Debug, PartialEq, Eq, Structural)]
pub struct Photon {
    pub position: Vector3,
    pub direction: Vector3,
    pub power: Color,
    pub plane: Flag,
}

/// Position within limits, direction of unit magnitude, power channels
/// non-negative and bounded.
pub open spec fn photon_ok(p: Photon) -> bool {
    &&& vec_bounded(p.position, COORD_LIMIT as int)
    &&& vec_bounded(p.direction, UNIT_LIMIT as int)
    &&& color_in_range(p.power, 0, POWER_LIMIT as int)
}

/// The coordinate of a point along a split axis (`Leaf` reads as zero).
pub open spec fn vec_axis_coord(v: Vector3, f: Flag) -> int {
    match f {
        Flag::XAxis => v.x as int,
        Flag::YAxis => v.y as int,
        Flag::ZAxis => v.z as int,
        Flag::Leaf => 0,
    }
}

/// The coordinate of a photon along a split axis.
pub open spec fn axis_coord(p: Photon, f: Flag) -> int {
    vec_axis_coord(p.position, f)
}

/// The coordinate of a point along a split axis.
pub fn position_value(position: &Vector3, axis: Flag) -> (r: i64)
    ensures
        r as int == vec_axis_coord(*position, axis),
{
    match axis {
        Flag::XAxis => position.x,
        Flag::YAxis => position.y,
        Flag::ZAxis => position.z,
        Flag::Leaf => 0,
    }
}

/// What a photon carries apart from its split tag; balancing permutes and
/// retags photons but never changes a payload.
pub open spec fn payload(p: Photon) -> Photon {
    Photon { position: p.position, direction: p.direction, power: p.power, plane: Flag::Leaf }
}

/// The payloads of a photon sequence.
pub open spec fn payloads(s: Seq<Photon>) -> Seq<Photon> {
    s.map_values(|p: Photon| payload(p))
}

/// The range `[b, e)` is sorted by coordinate along `f`.
pub open spec fn sorted_range(s: Seq<Photon>, b: int, e: int, f: Flag) -> bool {
    forall|i: int, j: int|
        b <= i <= j < e ==> axis_coord(#[trigger] s[i], f) <= axis_coord(#[trigger] s[j], f)
}

/// The balanced shape of the range `[b, e)`: the middle element is tagged
/// with a split axis, everything left of it is at or below its coordinate
/// on that axis, everything right of it at or above, and both halves are
/// balanced in turn.  A single element is a leaf.
pub open spec fn wf_tree(s: Seq<Photon>, b: int, e: int) -> bool
    decreases e - b,
{
    if e - b <= 0 {
        true
    } else if e - b == 1 {
        s[b].plane == Flag::Leaf
    } else {
        let m = b + (e - b) / 2;
        &&& s[m].plane == chosen_axis(s, b, e)
        &&& s[m].plane != Flag::Leaf
        &&& forall|i: int|
            b <= i < m ==> axis_coord(#[trigger] s[i], s[m].plane) <= axis_coord(s[m], s[m].plane)
        &&& forall|i: int|
            m < i < e ==> axis_coord(#[trigger] s[i], s[m].plane) >= axis_coord(s[m], s[m].plane)
        &&& wf_tree(s, b, m)
        &&& wf_tree(s, m + 1, e)
    }
}

/// Sum of the coordinates along `f` over the range `[b, e)`.
pub open spec fn range_sum(s: Seq<Photon>, b: int, e: int, f: Flag) -> int
    decreases e - b,
{
    if e - b <= 0 {
        0
    } else {
        range_sum(s, b, e - 1, f) + axis_coord(s[e - 1], f)
    }
}

/// Sum of the squared coordinates along `f` over the range `[b, e)`.
pub open spec fn range_sum_sq(s: Seq<Photon>, b: int, e: int, f: Flag) -> int
    decreases e - b,
{
    if e - b <= 0 {
        0
    } else {
        range_sum_sq(s, b, e - 1, f) + axis_coord(s[e - 1], f) * axis_coord(s[e - 1], f)
    }
}

/// The positional variance over `[b, e)` along `f`, scaled by `(e - b)^2`:
/// ordering these scores orders the variances.
pub open spec fn var_score(s: Seq<Photon>, b: int, e: int, f: Flag) -> int {
    (e - b) * range_sum_sq(s, b, e, f) - range_sum(s, b, e, f) * range_sum(s, b, e, f)
}

/// The split axis balancing picks for `[b, e)`: the axis of greatest
/// positional variance, ties resolved in favour of z, then y (so the last
/// axis wins, as repeated re-sorting would leave it).
pub open spec fn chosen_axis(s: Seq<Photon>, b: int, e: int) -> Flag {
    let vx = var_score(s, b, e, Flag::XAxis);
    let vy = var_score(s, b, e, Flag::YAxis);
    let vz = var_score(s, b, e, Flag::ZAxis);
    if vz >= vx && vz >= vy {
        Flag::ZAxis
    } else if vy >= vx {
        Flag::YAxis
    } else {
        Flag::XAxis
    }
}

/// A sum of a per-photon measure over a sequence.
spec fn seq_measure_sum(q: Seq<Photon>, g: spec_fn(Photon) -> int) -> int
    decreases q.len(),
{
    if q.len() == 0 {
        0
    } else {
        seq_measure_sum(q.drop_last(), g) + g(q.last())
    }
}

/// Removing one element removes exactly its measure from the sum.
proof fn lemma_sum_remove(q: Seq<Photon>, g: spec_fn(Photon) -> int, i: int)
    requires
        0 <= i < q.len(),
    ensures
        seq_measure_sum(q.remove(i), g) == seq_measure_sum(q, g) - g(q[i]),
    decreases q.len(),
{
    if i == q.len() - 1 {
        assert(q.remove(i) =~= q.drop_last());
    } else {
        assert(q.remove(i).drop_last() =~= q.drop_last().remove(i));
        assert(q.remove(i).last() == q.last());
        lemma_sum_remove(q.drop_last(), g, i);
        assert(q.drop_last()[i] == q[i]);
    }
}

/// Sequences with the same multiset have the same measure sum: the sum is
/// permutation-invariant.
proof fn lemma_sum_permutation(q1: Seq<Photon>, q2: Seq<Photon>, g: spec_fn(Photon) -> int)
    requires
        q1.to_multiset() == q2.to_multiset(),
    ensures
        seq_measure_sum(q1, g) == seq_measure_sum(q2, g),
    decreases q1.len(),
{
    q1.to_multiset_ensures();
    q2.to_multiset_ensures();
    if q1.len() == 0 {
        assert(q2.len() == 0);
    } else {
        let x = q1.last();
        assert(q1.contains(x));
        assert(q1.to_multiset().count(x) > 0);
        assert(q2.contains(x));
        let j = choose|j: int| 0 <= j < q2.len() && q2[j] == x;
        assert(q1.drop_last() =~= q1.remove(q1.len() - 1));
        assert(q1.remove(q1.len() - 1).to_multiset() =~= q1.to_multiset().remove(x));
        assert(q2.remove(j).to_multiset() =~= q2.to_multiset().remove(x));
        lemma_sum_permutation(q1.drop_last(), q2.remove(j), g);
        lemma_sum_remove(q2, g, j);
    }
}

/// The range sums are the measure sums of the subrange.
proof fn lemma_range_sum_is_measure(s: Seq<Photon>, b: int, e: int, f: Flag)
    requires
        0 <= b <= e <= s.len(),
    ensures
        range_sum(s, b, e, f) == seq_measure_sum(s.subrange(b, e), |p: Photon| axis_coord(p, f)),
        range_sum_sq(s, b, e, f) == seq_measure_sum(
            s.subrange(b, e),
            |p: Photon| axis_coord(p, f) * axis_coord(p, f),
        ),
    decreases e - b,
{
    if e > b {
        lemma_range_sum_is_measure(s, b, e - 1, f);
        assert(s.subrange(b, e).drop_last() =~= s.subrange(b, e - 1));
        assert(s.subrange(b, e).last() == s[e - 1]);
    }
}

/// A measure that ignores the split tag sums equally over payloads.
proof fn lemma_sum_over_payloads(q: Seq<Photon>, g: spec_fn(Photon) -> int)
    requires
        forall|p: Photon| #[trigger] g(payload(p)) == g(p),
    ensures
        seq_measure_sum(payloads(q), g) == seq_measure_sum(q, g),
    decreases q.len(),
{
    if q.len() > 0 {
        assert(payloads(q).drop_last() =~= payloads(q.drop_last()));
        assert(payloads(q).last() == payload(q.last()));
        lemma_sum_over_payloads(q.drop_last(), g);
    }
}

/// Ranges with the same payload multiset have the same variance scores,
/// so balancing's axis choice carries over to any rearrangement.
proof fn lemma_var_scores_transport(s1: Seq<Photon>, s2: Seq<Photon>, b: int, e: int)
    requires
        0 <= b <= e <= s1.len(),
        e <= s2.len(),
        payloads(s1).subrange(b, e).to_multiset() == payloads(s2).subrange(b, e).to_multiset(),
    ensures
        forall|f: Flag| #[trigger] var_score(s1, b, e, f) == var_score(s2, b, e, f),
        chosen_axis(s1, b, e) == chosen_axis(s2, b, e),
{
    assert forall|f: Flag| #[trigger] var_score(s1, b, e, f) == var_score(s2, b, e, f) by {
        let lin = |p: Photon| axis_coord(p, f);
        let sq = |p: Photon| axis_coord(p, f) * axis_coord(p, f);
        lemma_range_sum_is_measure(s1, b, e, f);
        lemma_range_sum_is_measure(s2, b, e, f);
        assert(payloads(s1).subrange(b, e) =~= payloads(s1.subrange(b, e)));
        assert(payloads(s2).subrange(b, e) =~= payloads(s2.subrange(b, e)));
        lemma_sum_over_payloads(s1.subrange(b, e), lin);
        lemma_sum_over_payloads(s2.subrange(b, e), lin);
        lemma_sum_over_payloads(s1.subrange(b, e), sq);
        lemma_sum_over_payloads(s2.subrange(b, e), sq);
        lemma_sum_permutation(payloads(s1.subrange(b, e)), payloads(s2.subrange(b, e)), lin);
        lemma_sum_permutation(payloads(s1.subrange(b, e)), payloads(s2.subrange(b, e)), sq);
    }
}

/// Range sums read only the positions of `[b, e)`.
proof fn lemma_var_scores_congruence(s1: Seq<Photon>, s2: Seq<Photon>, b: int, e: int)
    requires
        0 <= b,
        e <= s1.len(),
        e <= s2.len(),
        forall|i: int| b <= i < e ==> (#[trigger] s1[i]).position == s2[i].position,
    ensures
        forall|f: Flag| #[trigger] var_score(s1, b, e, f) == var_score(s2, b, e, f),
        chosen_axis(s1, b, e) == chosen_axis(s2, b, e),
{
    assert forall|f: Flag| #[trigger] var_score(s1, b, e, f) == var_score(s2, b, e, f) by {
        lemma_range_sum_congruence(s1, s2, b, e, f);
    }
}

proof fn lemma_range_sum_congruence(s1: Seq<Photon>, s2: Seq<Photon>, b: int, e: int, f: Flag)
    requires
        forall|i: int| b <= i < e ==> (#[trigger] s1[i]).position == s2[i].position,
    ensures
        range_sum(s1, b, e, f) == range_sum(s2, b, e, f),
        range_sum_sq(s1, b, e, f) == range_sum_sq(s2, b, e, f),
    decreases e - b,
{
    if e > b {
        lemma_range_sum_congruence(s1, s2, b, e - 1, f);
    }
}

/// Coplanarity filter threshold: a candidate is rejected when the cosine
/// magnitude between the displacement to it and the query normal exceeds
/// `FILTER_NUM / FILTER_DEN`.
pub const FILTER_NUM: i64 = 33;

pub const FILTER_DEN: i64 = 1000;

/// The scalar product of the displacement from the photon to the query
/// point with the query normal, unscaled.
pub open spec fn filter_dot(pos: Vector3, normal: Vector3, p: Photon) -> int {
    (pos.x - p.position.x) * normal.x + (pos.y - p.position.y) * normal.y + (pos.z
        - p.position.z) * normal.z
}

/// The coplanarity filter: the displacement from the photon to the query
/// point must be nearly perpendicular to the query normal, so that photons
/// from other surfaces do not leak into the estimate.
pub open spec fn passes_filter(pos: Vector3, normal: Vector3, p: Photon) -> bool {
    let d = filter_dot(pos, normal, p);
    d * d * ((FILTER_DEN as int) * (FILTER_DEN as int)) <= ((FILTER_NUM as int) * (
    FILTER_NUM as int)) * (dist_sq_spec(pos, p.position) * dot_raw(normal, normal))
}

/// The neighbour record the search would admit for the photon at `j`.
pub open spec fn candidate(s: Seq<Photon>, pos: Vector3, j: int) -> Neighbor {
    Neighbor { distance_squared: dist_sq_spec(pos, s[j].position) as u64, index: j as usize }
}

/// The neighbour records of all photons in `[b, e)` that pass the filter.
pub open spec fn candidates(
    s: Seq<Photon>,
    pos: Vector3,
    normal: Vector3,
    b: int,
    e: int,
) -> Multiset<Neighbor>
    decreases e - b,
{
    if e <= b {
        Multiset::empty()
    } else {
        let rest = candidates(s, pos, normal, b, e - 1);
        if passes_filter(pos, normal, s[e - 1]) {
            rest.insert(candidate(s, pos, e - 1))
        } else {
            rest
        }
    }
}

/// One channel of a color: 0 is red, 1 is green, anything else blue.
pub open spec fn power_channel(c: Color, ch: int) -> int {
    if ch == 0 {
        c.r as int
    } else if ch == 1 {
        c.g as int
    } else {
        c.b as int
    }
}

/// The Lambertian weight of a photon in an estimate: the cosine between
/// the query normal and the photon's stored direction, clamped at zero.
pub open spec fn cos_weight(normal: Vector3, p: Photon) -> int {
    let c = crate::fixed::tdiv(dot_raw(normal, p.direction), crate::FX_ONE as int);
    if c > 0 {
        c
    } else {
        0
    }
}

/// The power gathered from the first `k` retained neighbours: each
/// photon's channel weighted by its clamped cosine.
pub open spec fn gather(
    s: Seq<Photon>,
    items: Seq<Neighbor>,
    normal: Vector3,
    k: int,
    ch: int,
) -> int
    decreases k,
{
    if k <= 0 {
        0
    } else {
        gather(s, items, normal, k - 1, ch) + crate::fixed::tdiv(
            power_channel(s[items[k - 1].index as int].power, ch) * cos_weight(
                normal,
                s[items[k - 1].index as int],
            ),
            crate::FX_ONE as int,
        )
    }
}

/// A non-negative value capped at the largest signed 64-bit integer.
pub open spec fn sat64(v: int) -> int {
    if v > i64::MAX {
        i64::MAX as int
    } else {
        v
    }
}

/// How a bounded query leaves a heap, relative to the candidates `cands`
/// it ran over: sizes, which candidates must have been retained, what may
/// have been evicted, and how the pruning bound moved.
pub open spec fn search_post(
    cap: int,
    m0: Multiset<Neighbor>,
    b0: u64,
    m1: Multiset<Neighbor>,
    b1: u64,
    cands: Multiset<Neighbor>,
) -> bool {
    &&& m1.len() == vstd::math::min(cap, m0.len() + cands.len() as int)
    &&& forall|x: Neighbor|
        cands.count(x) > 0 ==> m1.count(x) > 0 || (m1.len() == cap && x.distance_squared >= b1)
    &&& forall|x: Neighbor|
        m0.count(x) > m1.count(x) ==> (m1.len() == cap && x.distance_squared >= b1)
    &&& forall|x: Neighbor| #[trigger] m1.count(x) <= m0.count(x) + cands.count(x)
    &&& (m0.len() == cap ==> b1 <= b0)
    &&& m1.len() >= m0.len()
    &&& (m0.len() + cands.len() <= cap ==> m1 == m0.add(cands))
}

/// The candidates a single photon contributes: one record if it passes the
/// filter, none otherwise.
pub open spec fn single_candidate(
    s: Seq<Photon>,
    pos: Vector3,
    normal: Vector3,
    j: int,
) -> Multiset<Neighbor> {
    if passes_filter(pos, normal, s[j]) {
        Multiset::empty().insert(candidate(s, pos, j))
    } else {
        Multiset::empty()
    }
}

/// The candidates of `[b, e)` split at any inner position `m`.
proof fn lemma_candidates_split(
    s: Seq<Photon>,
    pos: Vector3,
    normal: Vector3,
    b: int,
    m: int,
    e: int,
)
    requires
        b <= m < e,
    ensures
        candidates(s, pos, normal, b, e) == candidates(s, pos, normal, b, m).add(
            single_candidate(s, pos, normal, m),
        ).add(candidates(s, pos, normal, m + 1, e)),
    decreases e - m,
{
    if e == m + 1 {
        assert(candidates(s, pos, normal, m + 1, e) =~= Multiset::<Neighbor>::empty());
        assert(candidates(s, pos, normal, b, e) =~= candidates(s, pos, normal, b, m).add(
            single_candidate(s, pos, normal, m),
        ).add(candidates(s, pos, normal, m + 1, e)));
    } else {
        lemma_candidates_split(s, pos, normal, b, m, e - 1);
        assert(candidates(s, pos, normal, b, e) == if passes_filter(pos, normal, s[e - 1]) {
            candidates(s, pos, normal, b, e - 1).insert(candidate(s, pos, e - 1))
        } else {
            candidates(s, pos, normal, b, e - 1)
        });
        assert(candidates(s, pos, normal, m + 1, e) == if passes_filter(pos, normal, s[e - 1]) {
            candidates(s, pos, normal, m + 1, e - 1).insert(candidate(s, pos, e - 1))
        } else {
            candidates(s, pos, normal, m + 1, e - 1)
        });
        assert(candidates(s, pos, normal, b, e) =~= candidates(s, pos, normal, b, m).add(
            single_candidate(s, pos, normal, m),
        ).add(candidates(s, pos, normal, m + 1, e)));
    }
}

/// A property of each passing photon's candidate holds of every element of
/// the candidate multiset.
proof fn lemma_candidates_all(
    s: Seq<Photon>,
    pos: Vector3,
    normal: Vector3,
    b: int,
    e: int,
    pred: spec_fn(Neighbor) -> bool,
)
    requires
        forall|j: int|
            b <= j < e && passes_filter(pos, normal, #[trigger] s[j]) ==> pred(
                candidate(s, pos, j),
            ),
    ensures
        forall|x: Neighbor| candidates(s, pos, normal, b, e).count(x) > 0 ==> pred(x),
    decreases e - b,
{
    if e <= b {
    } else {
        lemma_candidates_all(s, pos, normal, b, e - 1, pred);
        assert forall|x: Neighbor| candidates(s, pos, normal, b, e).count(x) > 0 implies pred(
            x,
        ) by {
            if passes_filter(pos, normal, s[e - 1]) {
                assert(candidates(s, pos, normal, b, e) == candidates(
                    s,
                    pos,
                    normal,
                    b,
                    e - 1,
                ).insert(candidate(s, pos, e - 1)));
                if x == candidate(s, pos, e - 1) {
                    assert(pred(candidate(s, pos, e - 1)));
                } else {
                    assert(candidates(s, pos, normal, b, e - 1).count(x) > 0);
                }
            } else {
                assert(candidates(s, pos, normal, b, e) == candidates(s, pos, normal, b, e - 1));
            }
        }
    }
}

/// A candidate multiset of size zero is empty.
proof fn lemma_candidates_empty(s: Seq<Photon>, pos: Vector3, normal: Vector3, b: int, e: int)
    requires
        candidates(s, pos, normal, b, e).len() == 0,
    ensures
        candidates(s, pos, normal, b, e) == Multiset::<Neighbor>::empty(),
    decreases e - b,
{
    if e <= b {
        assert(candidates(s, pos, normal, b, e) =~= Multiset::<Neighbor>::empty());
    } else {
        if passes_filter(pos, normal, s[e - 1]) {
            assert(candidates(s, pos, normal, b, e).len() > 0);
        }
        lemma_candidates_empty(s, pos, normal, b, e - 1);
    }
}

/// Every point on the far side of the splitting plane is at least the
/// perpendicular distance to that plane away from the query point.
proof fn lemma_far_side(q: Vector3, p: Photon, f: Flag, split: int)
    requires
        f != Flag::Leaf,
        vec_axis_coord(q, f) <= split <= axis_coord(p, f) || axis_coord(p, f) <= split
            <= vec_axis_coord(q, f),
    ensures
        dist_sq_spec(q, p.position) >= (split - vec_axis_coord(q, f)) * (split - vec_axis_coord(
            q,
            f,
        )),
{
    let qa = vec_axis_coord(q, f);
    let pa = axis_coord(p, f);
    assert((split - qa) * (split - qa) <= (pa - qa) * (pa - qa)) by (nonlinear_arith)
        requires
            qa <= split <= pa || pa <= split <= qa,
    ;
    match f {
        Flag::XAxis => {
            assert(dist_sq_spec(q, p.position) >= (pa - qa) * (pa - qa)) by (nonlinear_arith)
                requires
                    pa == p.position.x && qa == q.x,
            ;
        },
        Flag::YAxis => {
            assert(dist_sq_spec(q, p.position) >= (pa - qa) * (pa - qa)) by (nonlinear_arith)
                requires
                    pa == p.position.y && qa == q.y,
            ;
        },
        Flag::ZAxis => {
            assert(dist_sq_spec(q, p.position) >= (pa - qa) * (pa - qa)) by (nonlinear_arith)
                requires
                    pa == p.position.z && qa == q.z,
            ;
        },
        Flag::Leaf => {
        },
    }
}

/// A full heap whose bound is below the distance of every unvisited
/// candidate satisfies `search_post` for those candidates as well: pruning
/// a subtree is sound.
proof fn lemma_search_post_prune(
    cap: int,
    m0: Multiset<Neighbor>,
    b0: u64,
    m2: Multiset<Neighbor>,
    b2: u64,
    c_seen: Multiset<Neighbor>,
    c_far: Multiset<Neighbor>,
)
    requires
        search_post(cap, m0, b0, m2, b2, c_seen),
        m2.len() == cap,
        forall|x: Neighbor| c_far.count(x) > 0 ==> x.distance_squared >= b2,
    ensures
        search_post(cap, m0, b0, m2, b2, c_seen.add(c_far)),
{
    assert(c_seen.add(c_far).len() == c_seen.len() + c_far.len());
    assert(m0.len() + c_seen.len() >= cap);
    assert forall|x: Neighbor| c_seen.add(c_far).count(x) > 0 implies m2.count(x) > 0 || (
    m2.len() == cap && x.distance_squared >= b2) by {
        if c_seen.count(x) > 0 {
        } else {
            assert(c_far.count(x) > 0);
        }
    }
    assert forall|x: Neighbor| #[trigger] m2.count(x) <= m0.count(x) + c_seen.add(
        c_far,
    ).count(x) by {
        assert(m2.count(x) <= m0.count(x) + c_seen.count(x));
    }
    if m0.len() + c_seen.add(c_far).len() <= cap {
        assert(c_far.len() == 0);
        assert forall|x: Neighbor| c_far.count(x) == 0 by {
            vstd::multiset::axiom_count_le_len(c_far, x);
        }
        assert(c_seen.add(c_far) =~= c_seen);
    }
}

/// Two query steps in sequence satisfy `search_post` for the combined
/// candidates.
proof fn lemma_search_post_trans(
    cap: int,
    m0: Multiset<Neighbor>,
    b0: u64,
    m1: Multiset<Neighbor>,
    b1: u64,
    m2: Multiset<Neighbor>,
    b2: u64,
    c1: Multiset<Neighbor>,
    c2: Multiset<Neighbor>,
)
    requires
        search_post(cap, m0, b0, m1, b1, c1),
        search_post(cap, m1, b1, m2, b2, c2),
    ensures
        search_post(cap, m0, b0, m2, b2, c1.add(c2)),
{
    assert(c1.add(c2).len() == c1.len() + c2.len());
    assert forall|x: Neighbor| c1.add(c2).count(x) > 0 implies m2.count(x) > 0 || (m2.len()
        == cap && x.distance_squared >= b2) by {
        if c2.count(x) > 0 {
        } else {
            assert(c1.count(x) > 0);
            if m1.count(x) > 0 {
                if m2.count(x) == 0 {
                    assert(m1.count(x) > m2.count(x));
                }
            } else {
                assert(m1.len() == cap && x.distance_squared >= b1);
            }
        }
    }
    assert forall|x: Neighbor| m0.count(x) > m2.count(x) implies (m2.len() == cap
        && x.distance_squared >= b2) by {
        if m0.count(x) > m1.count(x) {
        } else {
            assert(m1.count(x) > m2.count(x));
        }
    }
    assert forall|x: Neighbor| #[trigger] m2.count(x) <= m0.count(x) + c1.add(c2).count(x) by {
        assert(m2.count(x) <= m1.count(x) + c2.count(x));
        assert(m1.count(x) <= m0.count(x) + c1.count(x));
    }
    if m0.len() + c1.add(c2).len() <= cap {
        assert(m1 == m0.add(c1));
        assert(m2 == m1.add(c2));
        assert(m0.add(c1).add(c2) =~= m0.add(c1.add(c2)));
    }
}

/// The photon map: an append-only store of photons that `init_balance`
/// turns, once, into an implicit median-split k-d tree held in array order.
pub struct PhotonMap {
    photons: Vec<Photon>,
    stored_photons: usize,
    prev_scale: usize,
    balanced: bool,
}

impl PhotonMap {
    /// The stored photons, in array order.
    pub closed spec fn photons_seq(&self) -> Seq<Photon> {
        self.photons@
    }

    /// Whether `init_balance` has already run.
    pub closed spec fn is_balanced(&self) -> bool {
        self.balanced
    }

    pub closed spec fn count(&self) -> int {
        self.stored_photons as int
    }

    pub open spec fn wf(&self) -> bool {
        &&& self.count() == self.photons_seq().len()
        &&& self.photons_seq().len() <= MAP_SIZE_LIMIT
        &&& forall|i: int| 0 <= i < self.photons_seq().len() ==> photon_ok(#[trigger] self.photons_seq()[i])
        &&& (self.is_balanced() ==> wf_tree(
            self.photons_seq(),
            0,
            self.photons_seq().len() as int,
        ))
    }

    pub fn new() -> (r: PhotonMap)
        ensures
            r.wf(),
            r.photons_seq().len() == 0,
            !r.is_balanced(),
            r.count() == 0,
    {
        PhotonMap { photons: Vec::new(), stored_photons: 0, prev_scale: 1, balanced: false }
    }

    pub fn stored_photons(&self) -> (r: usize)
        ensures
            r == self.count(),
    {
        self.stored_photons
    }

    pub fn balanced(&self) -> (r: bool)
        ensures
            r == self.is_balanced(),
    {
        self.balanced
    }

    /// Append a photon, tagged `Leaf` until balancing; valid only before
    /// `init_balance`.
    pub fn store(&mut self, position: &Vector3, direction: &Vector3, power: &Color)
        requires
            old(self).wf(),
            !old(self).is_balanced(),
            old(self).photons_seq().len() < MAP_SIZE_LIMIT,
            vec_bounded(*position, COORD_LIMIT as int),
            vec_bounded(*direction, UNIT_LIMIT as int),
            color_in_range(*power, 0, POWER_LIMIT as int),
        ensures
            final(self).wf(),
            !final(self).is_balanced(),
            final(self).photons_seq() == old(self).photons_seq().push(
                Photon {
                    position: *position,
                    direction: *direction,
                    power: *power,
                    plane: Flag::Leaf,
                },
            ),
            final(self).count() == old(self).count() + 1,
    {
        self.stored_photons = self.stored_photons + 1;
        let photon = Photon {
            position: *position,
            direction: *direction,
            power: *power,
            plane: Flag::Leaf,
        };
        self.photons.push(photon);
    }

    /// Scale every stored photon's power by the fixed-point factor `scale`
    /// (used to divide out the emission count after tracing).
    pub fn scale_photon_power(&mut self, scale: i64)
        requires
            old(self).wf(),
            0 <= scale <= crate::FX_ONE,
        ensures
            final(self).wf(),
            final(self).is_balanced() == old(self).is_balanced(),
            final(self).count() == old(self).count(),
            final(self).photons_seq().len() == old(self).photons_seq().len(),
            forall|i: int|
                0 <= i < old(self).photons_seq().len() ==> {
                    let p0 = old(self).photons_seq()[i];
                    let p1 = #[trigger] final(self).photons_seq()[i];
                    &&& p1.position == p0.position
                    &&& p1.direction == p0.direction
                    &&& p1.plane == p0.plane
                    &&& p1.power.r == crate::fixed::tdiv(p0.power.r * scale, crate::FX_ONE as int)
                    &&& p1.power.g == crate::fixed::tdiv(p0.power.g * scale, crate::FX_ONE as int)
                    &&& p1.power.b == crate::fixed::tdiv(p0.power.b * scale, crate::FX_ONE as int)
                },
    {
        let n = self.photons.len();
        let mut i: usize = 0;
        while i < n
            invariant
                n == self.photons@.len(),
                n == old(self).photons_seq().len(),
                0 <= i <= n,
                0 <= scale <= crate::FX_ONE,
                self.stored_photons == old(self).stored_photons,
                self.balanced == old(self).balanced,
                n <= MAP_SIZE_LIMIT,
                forall|k: int| 0 <= k < n ==> photon_ok(#[trigger] old(self).photons_seq()[k]),
                forall|k: int|
                    i <= k < n ==> #[trigger] self.photons@[k] == old(self).photons_seq()[k],
                forall|k: int|
                    0 <= k < i ==> {
                        let p0 = old(self).photons_seq()[k];
                        let p1 = #[trigger] self.photons@[k];
                        &&& p1.position == p0.position
                        &&& p1.direction == p0.direction
                        &&& p1.plane == p0.plane
                        &&& photon_ok(p1)
                        &&& p1.power.r == crate::fixed::tdiv(
                            p0.power.r * scale,
                            crate::FX_ONE as int,
                        )
                        &&& p1.power.g == crate::fixed::tdiv(
                            p0.power.g * scale,
                            crate::FX_ONE as int,
                        )
                        &&& p1.power.b == crate::fixed::tdiv(
                            p0.power.b * scale,
                            crate::FX_ONE as int,
                        )
                    },
            decreases n - i,
        {
            let p = *vstd::std_specs::vec::vec_index(&self.photons, i);
            proof {
                lemma_power_scale_stays(p.power.r as int, scale as int);
                lemma_power_scale_stays(p.power.g as int, scale as int);
                lemma_power_scale_stays(p.power.b as int, scale as int);
            }
            let scaled = Photon {
                position: p.position,
                direction: p.direction,
                power: p.power.scale(scale),
                plane: p.plane,
            };
            self.photons.set(i, scaled);
            i = i + 1;
        }
        proof {
            if self.balanced {
                lemma_wf_tree_frame(
                    old(self).photons_seq(),
                    self.photons_seq(),
                    0,
                    self.photons_seq().len() as int,
                );
            }
        }
        self.prev_scale = self.stored_photons;
    }

    /// The stored photon at `index`.
    pub fn photon(&self, index: usize) -> (r: Photon)
        requires
            index < self.photons_seq().len(),
        ensures
            r == self.photons_seq()[index as int],
    {
        *vstd::std_specs::vec::vec_index(&self.photons, index)
    }

    /// The coordinate of the stored photon at `index` along `axis`.
    pub fn split_value(&self, index: usize, axis: Flag) -> (r: i64)
        requires
            index < self.photons_seq().len(),
        ensures
            r as int == axis_coord(self.photons_seq()[index as int], axis),
    {
        position_value(&vstd::std_specs::vec::vec_index(&self.photons, index).position, axis)
    }

    /// Try to admit the photon at `index` as a neighbour candidate: it must
    /// pass the coplanarity filter, and once the heap is full it must lie
    /// closer than the current pruning radius.
    fn add_neighbor(&self, heap: &mut Heap, position: &Vector3, normal: &Vector3, index: usize)
        requires
            self.wf(),
            old(heap).wf(),
            index < self.photons_seq().len(),
            vec_bounded(*position, COORD_LIMIT as int),
            vec_bounded(*normal, UNIT_LIMIT as int),
        ensures
            final(heap).wf(),
            final(heap).cap() == old(heap).cap(),
            search_post(
                old(heap).cap(),
                old(heap).contents().to_multiset(),
                old(heap).bound(),
                final(heap).contents().to_multiset(),
                final(heap).bound(),
                single_candidate(self.photons_seq(), *position, *normal, index as int),
            ),
    {
        let ghost s = self.photons_seq();
        let ghost m0 = old(heap).contents().to_multiset();
        let ghost b0 = old(heap).bound();
        let ghost cap = old(heap).cap();
        proof {
            old(heap).contents().to_multiset_ensures();
        }
        let p = *vstd::std_specs::vec::vec_index(&self.photons, index);
        assert(photon_ok(p));
        let dx = position.x - p.position.x;
        let dy = position.y - p.position.y;
        let dz = position.z - p.position.z;
        proof {
            lemma_abs_mul(dx as int, normal.x as int, 0x2000_0000, UNIT_LIMIT as int);
            lemma_abs_mul(dy as int, normal.y as int, 0x2000_0000, UNIT_LIMIT as int);
            lemma_abs_mul(dz as int, normal.z as int, 0x2000_0000, UNIT_LIMIT as int);
            lemma_abs_mul(normal.x as int, normal.x as int, UNIT_LIMIT as int, UNIT_LIMIT as int);
            lemma_abs_mul(normal.y as int, normal.y as int, UNIT_LIMIT as int, UNIT_LIMIT as int);
            lemma_abs_mul(normal.z as int, normal.z as int, UNIT_LIMIT as int, UNIT_LIMIT as int);
        }
        let dot: i128 = (dx as i128) * (normal.x as i128) + (dy as i128) * (normal.y as i128) + (
        dz as i128) * (normal.z as i128);
        let nn: i128 = (normal.x as i128) * (normal.x as i128) + (normal.y as i128) * (
        normal.y as i128) + (normal.z as i128) * (normal.z as i128);
        let d2: u64 = position.dist_sq(&p.position);
        proof {
            lemma_abs_mul(dot as int, dot as int, 0x1_0000_0000_0000, 0x1_0000_0000_0000);
            lemma_abs_mul(
                (dot as int) * (dot as int),
                1000000,
                0x1_0000_0000_0000_0000_0000_0000,
                1000000,
            );
            lemma_abs_mul(d2 as int, nn as int, 0x1_0000_0000_0000_0000, 0x1_0000_0000_0000);
            lemma_abs_mul(
                1089,
                (d2 as int) * (nn as int),
                1089,
                0x1_0000_0000_0000_0000_0000_0000_0000,
            );
        }
        let den_sq: i128 = 1000000;
        let num_sq: i128 = 1089;
        proof {
            assert(den_sq == (FILTER_DEN as int) * (FILTER_DEN as int));
            assert(num_sq == (FILTER_NUM as int) * (FILTER_NUM as int));
        }
        let lhs: i128 = dot * dot * den_sq;
        let rhs: i128 = num_sq * ((d2 as i128) * nn);
        let ghost cnd = candidate(s, *position, index as int);
        let ghost single = single_candidate(s, *position, *normal, index as int);
        if lhs > rhs {
            proof {
                assert(!passes_filter(*position, *normal, p));
                assert(single =~= Multiset::<Neighbor>::empty());
                assert(m0.add(single) =~= m0);
                assert(m0.len() == old(heap).contents().len());
            }
            return ;
        }
        proof {
            assert(passes_filter(*position, *normal, p));
            assert(single =~= Multiset::<Neighbor>::empty().insert(cnd));
            assert(cnd.distance_squared == d2);
            assert(cnd.index == index);
            assert(m0.len() == old(heap).contents().len());
        }
        let sz = heap.size();
        let capacity = heap.capacity();
        if sz < capacity {
            heap.add_photon(index, d2);
            proof {
                let m1 = heap.contents().to_multiset();
                heap.contents().to_multiset_ensures();
                assert(m1 == m0.insert(cnd));
                assert(m1.len() == m0.len() + 1);
                assert(m0.add(single) =~= m0.insert(cnd));
                assert(search_post(cap, m0, b0, m1, heap.bound(), single));
            }
        } else if d2 < heap.max_dist_sq() {
            let ghost root = old(heap).contents()[0];
            proof {
                lemma_root_is_max(old(heap).contents());
                assert(old(heap).contents().contains(root));
                assert(m0.count(root) > 0);
                assert(root.distance_squared == b0);
            }
            heap.add_photon(index, d2);
            proof {
                let m1 = heap.contents().to_multiset();
                heap.contents().to_multiset_ensures();
                assert(m1 == m0.remove(root).insert(cnd));
                assert(m1.len() == m0.len());
                let newroot = heap.contents()[0];
                assert(heap.contents().contains(newroot));
                assert(m1.count(newroot) > 0);
                if newroot != cnd {
                    assert(m0.count(newroot) > 0);
                    lemma_member_le_root(old(heap).contents(), newroot);
                }
                assert(heap.bound() <= b0);
                assert forall|x: Neighbor| m0.count(x) > m1.count(x) implies (m1.len() == cap
                    && x.distance_squared >= heap.bound()) by {
                    assert(x == root);
                }
                assert(search_post(cap, m0, b0, m1, heap.bound(), single));
            }
        } else {
            proof {
                let m1 = heap.contents().to_multiset();
                assert(m1 == m0);
                assert(cnd.distance_squared >= b0);
                assert(search_post(cap, m0, b0, m1, heap.bound(), single));
            }
        }
    }

    /// Bounded k-nearest-neighbour search over the balanced range
    /// `[begin, end)`: descend into the near side of the splitting plane
    /// first, try to admit the midpoint, and visit the far side only while
    /// the candidate set is not yet full or the splitting plane lies closer
    /// than the current farthest retained candidate.
    fn lookup(
        &self,
        heap: &mut Heap,
        position: &Vector3,
        normal: &Vector3,
        begin: usize,
        end: usize,
    )
        requires
            self.wf(),
            old(heap).wf(),
            begin <= end,
            end as int <= self.photons_seq().len(),
            wf_tree(self.photons_seq(), begin as int, end as int),
            vec_bounded(*position, COORD_LIMIT as int),
            vec_bounded(*normal, UNIT_LIMIT as int),
        ensures
            final(heap).wf(),
            final(heap).cap() == old(heap).cap(),
            search_post(
                old(heap).cap(),
                old(heap).contents().to_multiset(),
                old(heap).bound(),
                final(heap).contents().to_multiset(),
                final(heap).bound(),
                candidates(self.photons_seq(), *position, *normal, begin as int, end as int),
            ),
        decreases end - begin,
    {
        let ghost s = self.photons_seq();
        let ghost cap = old(heap).cap();
        let ghost m0 = old(heap).contents().to_multiset();
        let ghost b0 = old(heap).bound();
        if begin == end {
            proof {
                old(heap).contents().to_multiset_ensures();
                assert(candidates(s, *position, *normal, begin as int, end as int)
                    =~= Multiset::<Neighbor>::empty());
                assert(m0.add(Multiset::<Neighbor>::empty()) =~= m0);
            }
            return ;
        }
        if begin + 1 == end {
            self.add_neighbor(heap, position, normal, begin);
            proof {
                assert(candidates(s, *position, *normal, begin as int, begin as int)
                    =~= Multiset::<Neighbor>::empty());
                assert(candidates(s, *position, *normal, begin as int, end as int)
                    =~= single_candidate(s, *position, *normal, begin as int));
            }
            return ;
        }
        let median = begin + (end - begin) / 2;
        let ghost m = median as int;
        let p_med = *vstd::std_specs::vec::vec_index(&self.photons, median);
        let flag = p_med.plane;
        assert(flag != Flag::Leaf);
        let split_v = self.split_value(median, flag);
        let pos_v = position_value(position, flag);
        proof {
            lemma_candidates_split(s, *position, *normal, begin as int, m, end as int);
            assert(photon_ok(s[m]));
            assert(-(COORD_LIMIT as int) <= split_v <= COORD_LIMIT as int);
            assert(-(COORD_LIMIT as int) <= pos_v <= COORD_LIMIT as int);
        }
        let ghost c_left = candidates(s, *position, *normal, begin as int, m);
        let ghost c_mid = single_candidate(s, *position, *normal, m);
        let ghost c_right = candidates(s, *position, *normal, m + 1, end as int);
        if pos_v <= split_v {
            self.lookup(heap, position, normal, begin, median);
            let ghost m1 = heap.contents().to_multiset();
            let ghost b1 = heap.bound();
            self.add_neighbor(heap, position, normal, median);
            let ghost m2 = heap.contents().to_multiset();
            let ghost b2 = heap.bound();
            proof {
                lemma_search_post_trans(cap, m0, b0, m1, b1, m2, b2, c_left, c_mid);
            }
            let sz = heap.size();
            let cp = heap.capacity();
            if sz >= cp {
                let diff = pos_v - split_v;
                assert(0 <= diff * diff <= 0x1000_0000_0000_0000) by (nonlinear_arith)
                    requires
                        -0x4000_0000 <= diff <= 0x4000_0000,
                ;
                let perp: u64 = (diff * diff) as u64;
                if perp > heap.max_dist_sq() {
                    proof {
                        heap.contents().to_multiset_ensures();
                        assert(m2.len() == cap);
                        let far_ok = |x: Neighbor| x.distance_squared >= b2;
                        assert forall|j: int|
                            m + 1 <= j < end && passes_filter(
                                *position,
                                *normal,
                                #[trigger] s[j],
                            ) implies far_ok(candidate(s, *position, j)) by {
                            assert(photon_ok(s[j]));
                            assert(axis_coord(s[j], flag) >= axis_coord(s[m], flag));
                            lemma_far_side(*position, s[j], flag, split_v as int);
                            lemma_dist_sq_in_range(*position, s[j].position);
                            assert((split_v - pos_v) * (split_v - pos_v) == (diff as int) * (
                            diff as int)) by (nonlinear_arith)
                                requires
                                    diff == pos_v - split_v,
                            ;
                            assert(dist_sq_spec(*position, s[j].position) >= perp);
                        }
                        lemma_candidates_all(s, *position, *normal, m + 1, end as int, far_ok);
                        lemma_search_post_prune(
                            cap,
                            m0,
                            b0,
                            m2,
                            b2,
                            c_left.add(c_mid),
                            c_right,
                        );
                        assert(c_left.add(c_mid).add(c_right) == candidates(
                            s,
                            *position,
                            *normal,
                            begin as int,
                            end as int,
                        ));
                    }
                    return ;
                }
            }
            self.lookup(heap, position, normal, median + 1, end);
            proof {
                lemma_search_post_trans(
                    cap,
                    m0,
                    b0,
                    m2,
                    b2,
                    heap.contents().to_multiset(),
                    heap.bound(),
                    c_left.add(c_mid),
                    c_right,
                );
            }
        } else {
            self.lookup(heap, position, normal, median + 1, end);
            let ghost m1 = heap.contents().to_multiset();
            let ghost b1 = heap.bound();
            self.add_neighbor(heap, position, normal, median);
            let ghost m2 = heap.contents().to_multiset();
            let ghost b2 = heap.bound();
            proof {
                lemma_search_post_trans(cap, m0, b0, m1, b1, m2, b2, c_right, c_mid);
            }
            let sz = heap.size();
            let cp = heap.capacity();
            if sz >= cp {
                let diff = pos_v - split_v;
                assert(0 <= diff * diff <= 0x1000_0000_0000_0000) by (nonlinear_arith)
                    requires
                        -0x4000_0000 <= diff <= 0x4000_0000,
                ;
                let perp: u64 = (diff * diff) as u64;
                if perp > heap.max_dist_sq() {
                    proof {
                        heap.contents().to_multiset_ensures();
                        assert(m2.len() == cap);
                        let far_ok = |x: Neighbor| x.distance_squared >= b2;
                        assert forall|j: int|
                            begin <= j < m && passes_filter(
                                *position,
                                *normal,
                                #[trigger] s[j],
                            ) implies far_ok(candidate(s, *position, j)) by {
                            assert(photon_ok(s[j]));
                            assert(axis_coord(s[j], flag) <= axis_coord(s[m], flag));
                            lemma_far_side(*position, s[j], flag, split_v as int);
                            lemma_dist_sq_in_range(*position, s[j].position);
                            assert((split_v - pos_v) * (split_v - pos_v) == (diff as int) * (
                            diff as int)) by (nonlinear_arith)
                                requires
                                    diff == pos_v - split_v,
                            ;
                            assert(dist_sq_spec(*position, s[j].position) >= perp);
                        }
                        lemma_candidates_all(s, *position, *normal, begin as int, m, far_ok);
                        lemma_search_post_prune(
                            cap,
                            m0,
                            b0,
                            m2,
                            b2,
                            c_right.add(c_mid),
                            c_left,
                        );
                        assert(c_right.add(c_mid).add(c_left) =~= candidates(
                            s,
                            *position,
                            *normal,
                            begin as int,
                            end as int,
                        ));
                    }
                    return ;
                }
            }
            self.lookup(heap, position, normal, begin, median);
            proof {
                lemma_search_post_trans(
                    cap,
                    m0,
                    b0,
                    m2,
                    b2,
                    heap.contents().to_multiset(),
                    heap.bound(),
                    c_right.add(c_mid),
                    c_left,
                );
                assert(c_right.add(c_mid).add(c_left) =~= candidates(
                    s,
                    *position,
                    *normal,
                    begin as int,
                    end as int,
                ));
            }
        }
    }

    /// Estimate the irradiance at `position` on a surface with the given
    /// normal: reset the caller's scratch heap, run the bounded search over
    /// the whole balanced map, sum the retained photons' power weighted by
    /// the clamped cosine against the normal, and normalise by the area of
    /// the bounding disc (`pi` times the farthest retained squared
    /// distance).  Black when nothing was retained or the disc is
    /// degenerate; channels saturate at the integer limit.
    pub fn irradiance_estimate(&self, heap: &mut Heap, position: &Vector3, normal: &Vector3) -> (r:
        Color)
        requires
            self.wf(),
            self.is_balanced(),
            old(heap).wf(),
            old(heap).cap() <= QUERY_CAP_LIMIT as int,
            vec_bounded(*position, COORD_LIMIT as int),
            vec_bounded(*normal, UNIT_LIMIT as int),
        ensures
            final(heap).wf(),
            final(heap).cap() == old(heap).cap(),
            search_post(
                old(heap).cap(),
                Multiset::empty(),
                DEFAULT_MAX_DIST_SQ,
                final(heap).contents().to_multiset(),
                final(heap).bound(),
                candidates(
                    self.photons_seq(),
                    *position,
                    *normal,
                    0,
                    self.photons_seq().len() as int,
                ),
            ),
            ({
                let s = self.photons_seq();
                let items = final(heap).contents();
                let d2fx = final(heap).bound() as int / (crate::FX_ONE as int);
                let denom = crate::fixed::tdiv(
                    (crate::fixed::PI_FX as int) * d2fx,
                    crate::FX_ONE as int,
                );
                if items.len() == 0 || denom <= 0 {
                    r == (Color { r: 0i64, g: 0i64, b: 0i64 })
                } else {
                    &&& r.r == sat64(
                        crate::fixed::tdiv(
                            gather(s, items, *normal, items.len() as int, 0) * (
                            crate::FX_ONE as int),
                            denom,
                        ),
                    )
                    &&& r.g == sat64(
                        crate::fixed::tdiv(
                            gather(s, items, *normal, items.len() as int, 1) * (
                            crate::FX_ONE as int),
                            denom,
                        ),
                    )
                    &&& r.b == sat64(
                        crate::fixed::tdiv(
                            gather(s, items, *normal, items.len() as int, 2) * (
                            crate::FX_ONE as int),
                            denom,
                        ),
                    )
                }
            }),
    {
        let ghost s = self.photons_seq();
        heap.reset();
        proof {
            heap.contents().to_multiset_ensures();
            assert forall|x: Neighbor| heap.contents().to_multiset().count(x) == 0 by {
                vstd::multiset::axiom_count_le_len(heap.contents().to_multiset(), x);
            }
            assert(heap.contents().to_multiset() =~= Multiset::<Neighbor>::empty());
        }
        let n = self.stored_photons;
        self.lookup(heap, position, normal, 0, n);
        let ghost h1 = *heap;
        let sz = heap.size();
        if sz == 0 {
            return Color::black();
        }
        proof {
            heap.contents().to_multiset_ensures();
            let in_range = |x: Neighbor| x.index < s.len();
            lemma_candidates_all(s, *position, *normal, 0, s.len() as int, in_range);
            assert forall|k: int| 0 <= k < heap.contents().len() implies (
            #[trigger] heap.contents()[k]).index < s.len() by {
                assert(heap.contents().contains(heap.contents()[k]));
                assert(heap.contents().to_multiset().count(heap.contents()[k]) > 0);
                assert(candidates(s, *position, *normal, 0, s.len() as int).count(
                    heap.contents()[k],
                ) > 0);
                assert(in_range(heap.contents()[k]));
            }
        }
        let mut sr: i64 = 0;
        let mut sg: i64 = 0;
        let mut sb: i64 = 0;
        let mut i: usize = 0;
        while i < sz
            invariant
                *heap == h1,
                0 <= i <= sz,
                sz == heap.contents().len(),
                self.wf(),
                s == self.photons_seq(),
                vec_bounded(*normal, UNIT_LIMIT as int),
                forall|k: int|
                    0 <= k < heap.contents().len() ==> (#[trigger] heap.contents()[k]).index
                        < s.len(),
                sr == gather(s, heap.contents(), *normal, i as int, 0),
                sg == gather(s, heap.contents(), *normal, i as int, 1),
                sb == gather(s, heap.contents(), *normal, i as int, 2),
                0 <= sr <= i * 0x10_0000_0000,
                0 <= sg <= i * 0x10_0000_0000,
                0 <= sb <= i * 0x10_0000_0000,
                sz <= QUERY_CAP_LIMIT,
            decreases sz - i,
        {
            let nb = heap.item(i);
            let photon = *vstd::std_specs::vec::vec_index(&self.photons, nb.index);
            assert(photon_ok(photon));
            proof {
                lemma_abs_mul(
                    normal.x as int,
                    photon.direction.x as int,
                    UNIT_LIMIT as int,
                    UNIT_LIMIT as int,
                );
                lemma_abs_mul(
                    normal.y as int,
                    photon.direction.y as int,
                    UNIT_LIMIT as int,
                    UNIT_LIMIT as int,
                );
                lemma_abs_mul(
                    normal.z as int,
                    photon.direction.z as int,
                    UNIT_LIMIT as int,
                    UNIT_LIMIT as int,
                );
                lemma_cos_weight_le(*normal, photon);
            }
            let cos = normal.inner_product(&photon.direction);
            let w = if cos > 0 {
                cos
            } else {
                0
            };
            proof {
                assert(w == cos_weight(*normal, photon));
                lemma_gather_term_bound(photon.power.r as int, w as int);
                lemma_gather_term_bound(photon.power.g as int, w as int);
                lemma_gather_term_bound(photon.power.b as int, w as int);
            }
            let tr = fx_mul(photon.power.r, w);
            let tg = fx_mul(photon.power.g, w);
            let tb = fx_mul(photon.power.b, w);
            proof {
                assert((i + 1) * 0x10_0000_0000 == i * 0x10_0000_0000 + 0x10_0000_0000)
                    by (nonlinear_arith);
                assert((i + 1) * 0x10_0000_0000 <= 0x100_0000_0000_0000) by (nonlinear_arith)
                    requires
                        i + 1 <= 0x10_0000,
                ;
            }
            sr = sr + tr;
            sg = sg + tg;
            sb = sb + tb;
            i = i + 1;
        }
        let bdd = heap.max_dist_sq();
        let d2fx_w: u64 = bdd / 65536;
        proof {
            assert(d2fx_w < 0x1_0000_0000_0000u64) by (bit_vector)
                requires
                    d2fx_w == bdd / 65536,
            ;
            lemma_pi_denom_bound(d2fx_w as int);
        }
        let d2fx: i64 = d2fx_w as i64;
        let denom: i64 = fx_mul(crate::fixed::PI_FX, d2fx);
        if denom <= 0 {
            return Color::black();
        }
        let rr = saturating_scale_div(sr, denom);
        let rg = saturating_scale_div(sg, denom);
        let rb = saturating_scale_div(sb, denom);
        Color { r: rr, g: rg, b: rb }
    }

    /// The axis of greatest positional variance over `[begin, end)`, ties
    /// resolved in favour of z, then y.
    fn choose_axis(&self, begin: usize, end: usize) -> (r: Flag)
        requires
            self.wf(),
            begin <= end,
            end as int <= self.photons_seq().len(),
        ensures
            r != Flag::Leaf,
            r == chosen_axis(self.photons_seq(), begin as int, end as int),
    {
        let ghost s = self.photons_seq();
        let mut sum_x: i128 = 0;
        let mut sum_y: i128 = 0;
        let mut sum_z: i128 = 0;
        let mut sq_x: i128 = 0;
        let mut sq_y: i128 = 0;
        let mut sq_z: i128 = 0;
        let mut i = begin;
        while i < end
            invariant
                begin <= i <= end,
                end as int <= self.photons_seq().len(),
                self.wf(),
                s == self.photons_seq(),
                sum_x == range_sum(s, begin as int, i as int, Flag::XAxis),
                sum_y == range_sum(s, begin as int, i as int, Flag::YAxis),
                sum_z == range_sum(s, begin as int, i as int, Flag::ZAxis),
                sq_x == range_sum_sq(s, begin as int, i as int, Flag::XAxis),
                sq_y == range_sum_sq(s, begin as int, i as int, Flag::YAxis),
                sq_z == range_sum_sq(s, begin as int, i as int, Flag::ZAxis),
                -((i - begin) * (COORD_LIMIT as int)) <= sum_x <= (i - begin) * (
                COORD_LIMIT as int),
                -((i - begin) * (COORD_LIMIT as int)) <= sum_y <= (i - begin) * (
                COORD_LIMIT as int),
                -((i - begin) * (COORD_LIMIT as int)) <= sum_z <= (i - begin) * (
                COORD_LIMIT as int),
                0 <= sq_x <= (i - begin) * ((COORD_LIMIT as int) * (COORD_LIMIT as int)),
                0 <= sq_y <= (i - begin) * ((COORD_LIMIT as int) * (COORD_LIMIT as int)),
                0 <= sq_z <= (i - begin) * ((COORD_LIMIT as int) * (COORD_LIMIT as int)),
            decreases end - i,
        {
            let p = *vstd::std_specs::vec::vec_index(&self.photons, i);
            assert(photon_ok(p));
            let cx = p.position.x;
            let cy = p.position.y;
            let cz = p.position.z;
            proof {
                lemma_axis_accum_step(
                    sum_x as int,
                    sq_x as int,
                    cx as int,
                    (i - begin) as int,
                );
                lemma_axis_accum_step(
                    sum_y as int,
                    sq_y as int,
                    cy as int,
                    (i - begin) as int,
                );
                lemma_axis_accum_step(
                    sum_z as int,
                    sq_z as int,
                    cz as int,
                    (i - begin) as int,
                );
            }
            sum_x = sum_x + (cx as i128);
            sum_y = sum_y + (cy as i128);
            sum_z = sum_z + (cz as i128);
            sq_x = sq_x + (cx as i128) * (cx as i128);
            sq_y = sq_y + (cy as i128) * (cy as i128);
            sq_z = sq_z + (cz as i128) * (cz as i128);
            i = i + 1;
        }
        let n: i128 = (end - begin) as i128;
        proof {
            lemma_var_score_fits(n as int, sum_x as int, sq_x as int);
            lemma_var_score_fits(n as int, sum_y as int, sq_y as int);
            lemma_var_score_fits(n as int, sum_z as int, sq_z as int);
        }
        let vx: i128 = n * sq_x - sum_x * sum_x;
        let vy: i128 = n * sq_y - sum_y * sum_y;
        let vz: i128 = n * sq_z - sum_z * sum_z;
        if vz >= vx && vz >= vy {
            Flag::ZAxis
        } else if vy >= vx {
            Flag::YAxis
        } else {
            Flag::XAxis
        }
    }

    /// Balance the range `[begin, end)` into a median-split tree: pick the
    /// axis of greatest variance, sort the range by it, tag the midpoint,
    /// and recurse on both halves.  Permutes and retags the range's photons
    /// but never changes a payload.
    pub fn balance(&mut self, begin: usize, end: usize)
        requires
            old(self).wf(),
            !old(self).is_balanced(),
            begin <= end,
            end as int <= old(self).photons_seq().len(),
        ensures
            final(self).wf(),
            final(self).is_balanced() == old(self).is_balanced(),
            final(self).count() == old(self).count(),
            final(self).photons_seq().len() == old(self).photons_seq().len(),
            forall|t: int|
                0 <= t < old(self).photons_seq().len() && !(begin <= t < end)
                    ==> final(self).photons_seq()[t] == old(self).photons_seq()[t],
            payloads(final(self).photons_seq()).subrange(begin as int, end as int).to_multiset()
                == payloads(old(self).photons_seq()).subrange(
                begin as int,
                end as int,
            ).to_multiset(),
            wf_tree(final(self).photons_seq(), begin as int, end as int),
        decreases end - begin,
    {
        let ghost s0 = self.photons_seq();
        if end - begin == 0 {
            return ;
        }
        if end - begin == 1 {
            let p = *vstd::std_specs::vec::vec_index(&self.photons, begin);
            self.photons.set(
                begin,
                Photon {
                    position: p.position,
                    direction: p.direction,
                    power: p.power,
                    plane: Flag::Leaf,
                },
            );
            proof {
                assert(payloads(self.photons_seq()).subrange(begin as int, end as int)
                    =~= payloads(s0).subrange(begin as int, end as int));
            }
            return ;
        }
        let axis = self.choose_axis(begin, end);
        sort_range(&mut self.photons, begin, end, axis);
        let ghost s1 = self.photons_seq();
        proof {
            lemma_payload_range_transport(
                s0,
                s1,
                begin as int,
                end as int,
                |q: Photon| photon_ok(q),
            );
        }
        let median = begin + (end - begin) / 2;
        let p = *vstd::std_specs::vec::vec_index(&self.photons, median);
        self.photons.set(
            median,
            Photon { position: p.position, direction: p.direction, power: p.power, plane: axis },
        );
        let ghost s2 = self.photons_seq();
        let ghost m = median as int;
        let ghost split = axis_coord(s2[m], axis);
        proof {
            assert(payloads(s2) =~= payloads(s1));
            assert(payloads(s2).subrange(begin as int, end as int) =~= payloads(s1).subrange(
                begin as int,
                end as int,
            ));
        }
        self.balance(begin, median);
        let ghost s3 = self.photons_seq();
        self.balance(median + 1, end);
        let ghost s4 = self.photons_seq();
        proof {
            // the midpoint's tag and position survive both recursive calls
            assert(s4[m] == s2[m]);
            assert(s4[m].plane == axis);
            // the range's payload multiset is carried through each step
            lemma_subrange_multiset_split(payloads(s2), begin as int, m, end as int);
            lemma_subrange_multiset_split(payloads(s3), begin as int, m, end as int);
            lemma_subrange_multiset_split(payloads(s3), begin as int, m + 1, end as int);
            lemma_subrange_multiset_split(payloads(s4), begin as int, m + 1, end as int);
            assert(payloads(s3).subrange(m, end as int) =~= payloads(s2).subrange(
                m,
                end as int,
            ));
            assert(payloads(s4).subrange(begin as int, m + 1) =~= payloads(s3).subrange(
                begin as int,
                m + 1,
            ));
            lemma_subrange_multiset_split(payloads(s3), begin as int, m, m + 1);
            lemma_subrange_multiset_split(payloads(s4), begin as int, m, m + 1);
            assert(payloads(s4).subrange(begin as int, end as int).to_multiset() =~= payloads(
                s2,
            ).subrange(begin as int, end as int).to_multiset());
            // everything left of the midpoint is at or below the split plane
            assert(forall|i: int|
                begin <= i < m ==> axis_coord(#[trigger] s2[i], axis) <= split);
            lemma_payload_range_transport(
                s2,
                s3,
                begin as int,
                m,
                |q: Photon| axis_coord(q, axis) <= split,
            );
            assert(forall|i: int|
                begin <= i < m ==> axis_coord(#[trigger] s4[i], axis) <= split);
            // everything right of it is at or above
            assert(forall|i: int|
                m < i < end ==> axis_coord(#[trigger] s3[i], axis) >= split);
            lemma_payload_range_transport(
                s3,
                s4,
                m + 1,
                end as int,
                |q: Photon| axis_coord(q, axis) >= split,
            );
            // the axis choice was made over the same payload multiset the
            // final range still holds, so it is the final range's choice too
            lemma_var_scores_transport(s0, s4, begin as int, end as int);
            assert(s4[m].plane == chosen_axis(s4, begin as int, end as int));
            // both halves are balanced in the final array
            lemma_wf_tree_frame(s3, s4, begin as int, m);
            assert(wf_tree(s4, begin as int, end as int));
        }
    }

    /// Balance the whole map; to be called exactly once, after the last
    /// `store`.  Afterwards the map answers radiance queries.
    pub fn init_balance(&mut self)
        requires
            old(self).wf(),
            !old(self).is_balanced(),
        ensures
            final(self).wf(),
            final(self).is_balanced(),
            final(self).count() == old(self).count(),
            final(self).photons_seq().len() == old(self).photons_seq().len(),
            payloads(final(self).photons_seq()).to_multiset() == payloads(
                old(self).photons_seq(),
            ).to_multiset(),
            wf_tree(final(self).photons_seq(), 0, final(self).photons_seq().len() as int),
    {
        let n = self.stored_photons;
        self.balance(0, n);
        self.balanced = true;
        proof {
            assert(payloads(final(self).photons_seq()).subrange(
                0,
                final(self).photons_seq().len() as int,
            ) =~= payloads(final(self).photons_seq()));
            assert(payloads(old(self).photons_seq()).subrange(
                0,
                old(self).photons_seq().len() as int,
            ) =~= payloads(old(self).photons_seq()));
        }
    }
}

/// A property of every payload in one range holds in any range with the
/// same payload multiset (positions `[b, e)` of both sequences).
proof fn lemma_payload_range_transport(
    s1: Seq<Photon>,
    s2: Seq<Photon>,
    b: int,
    e: int,
    pred: spec_fn(Photon) -> bool,
)
    requires
        0 <= b <= e <= s1.len(),
        e <= s2.len(),
        payloads(s1).subrange(b, e).to_multiset() == payloads(s2).subrange(b, e).to_multiset(),
        forall|i: int| b <= i < e ==> pred(payload(#[trigger] s1[i])),
        forall|q: Photon| pred(payload(q)) == pred(q),
    ensures
        forall|i: int| b <= i < e ==> pred(#[trigger] s2[i]),
{
    lemma_multiset_all(payloads(s1).subrange(b, e), payloads(s2).subrange(b, e), pred);
    assert forall|i: int| b <= i < e implies pred(#[trigger] s2[i]) by {
        assert(payloads(s2).subrange(b, e)[i - b] == payload(s2[i]));
        assert(pred(payload(s2[i])));
    }
}

/// The squared distance between two in-range points fits comfortably in 64
/// bits.
proof fn lemma_dist_sq_in_range(a: Vector3, b: Vector3)
    requires
        vec_bounded(a, COORD_LIMIT as int),
        vec_bounded(b, COORD_LIMIT as int),
    ensures
        0 <= dist_sq_spec(a, b) < 0x1000_0000_0000_0000,
{
    assert(0 <= dist_sq_spec(a, b) < 0x1000_0000_0000_0000) by (nonlinear_arith)
        requires
            vec_bounded(a, COORD_LIMIT as int),
            vec_bounded(b, COORD_LIMIT as int),
    ;
}

/// The clamped cosine weight of a unit-bounded direction pair is small.
proof fn lemma_cos_weight_le(normal: Vector3, p: Photon)
    requires
        vec_bounded(normal, UNIT_LIMIT as int),
        vec_bounded(p.direction, UNIT_LIMIT as int),
    ensures
        0 <= cos_weight(normal, p) <= 0xC_0000,
        -0xC_0000_0000 <= dot_raw(normal, p.direction) <= 0xC_0000_0000,
        -0xC_0000 <= crate::fixed::tdiv(
            dot_raw(normal, p.direction),
            crate::FX_ONE as int,
        ) <= 0xC_0000,
{
    lemma_abs_mul(normal.x as int, p.direction.x as int, UNIT_LIMIT as int, UNIT_LIMIT as int);
    lemma_abs_mul(normal.y as int, p.direction.y as int, UNIT_LIMIT as int, UNIT_LIMIT as int);
    lemma_abs_mul(normal.z as int, p.direction.z as int, UNIT_LIMIT as int, UNIT_LIMIT as int);
    let d = dot_raw(normal, p.direction);
    if d >= 0 {
        assert(d / (crate::FX_ONE as int) <= 0xC_0000_0000int / (crate::FX_ONE as int))
            by (nonlinear_arith)
            requires
                0 <= d <= 0xC_0000_0000,
        ;
        assert(d / (crate::FX_ONE as int) >= 0) by (nonlinear_arith)
            requires
                d >= 0,
        ;
    } else {
        assert((-d) / (crate::FX_ONE as int) <= 0xC_0000_0000int / (crate::FX_ONE as int))
            by (nonlinear_arith)
            requires
                0 <= -d <= 0xC_0000_0000,
        ;
        assert((-d) / (crate::FX_ONE as int) >= 0) by (nonlinear_arith)
            requires
                -d >= 0,
        ;
    }
}

/// One gathered term is non-negative and small.
proof fn lemma_gather_term_bound(c: int, w: int)
    requires
        0 <= c <= POWER_LIMIT,
        0 <= w <= 0xC_0000,
    ensures
        0 <= crate::fixed::tdiv(c * w, crate::FX_ONE as int) <= 0x10_0000_0000,
{
    assert(0 <= c * w <= 0xC_0000_0000_0000) by (nonlinear_arith)
        requires
            0 <= c <= POWER_LIMIT,
            0 <= w <= 0xC_0000,
    ;
    assert(c * w / (crate::FX_ONE as int) <= 0xC_0000_0000_0000int / (crate::FX_ONE as int))
        by (nonlinear_arith)
        requires
            0 <= c * w <= 0xC_0000_0000_0000,
    ;
    assert(c * w / (crate::FX_ONE as int) >= 0) by (nonlinear_arith)
        requires
            c * w >= 0,
    ;
}

/// The disc normalisation denominator is non-negative and fits in 64 bits.
proof fn lemma_pi_denom_bound(d2fx: int)
    requires
        0 <= d2fx < 0x1_0000_0000_0000,
    ensures
        0 <= crate::fixed::tdiv(
            (crate::fixed::PI_FX as int) * d2fx,
            crate::FX_ONE as int,
        ) <= 0x10_0000_0000_0000,
        0 <= (crate::fixed::PI_FX as int) * d2fx,
{
    assert(0 <= (crate::fixed::PI_FX as int) * d2fx <= 205887 * 0x1_0000_0000_0000)
        by (nonlinear_arith)
        requires
            0 <= d2fx < 0x1_0000_0000_0000,
    ;
    let p = (crate::fixed::PI_FX as int) * d2fx;
    assert(p / (crate::FX_ONE as int) <= (205887 * 0x1_0000_0000_0000int) / (crate::FX_ONE as int))
        by (nonlinear_arith)
        requires
            0 <= p <= 205887 * 0x1_0000_0000_0000,
    ;
    assert(p / (crate::FX_ONE as int) >= 0) by (nonlinear_arith)
        requires
            p >= 0,
    ;
}

/// Scale a non-negative sum by one in fixed point, divide by the
/// normalisation denominator, and saturate at the integer limit.
fn saturating_scale_div(a: i64, denom: i64) -> (r: i64)
    requires
        a >= 0,
        denom > 0,
    ensures
        r as int == sat64(crate::fixed::tdiv(a * crate::FX_ONE, denom as int)),
{
    let q: i128 = (a as i128) * 65536 / (denom as i128);
    proof {
        assert((a as int) * 65536 == a * crate::FX_ONE);
        assert(q >= 0) by (nonlinear_arith)
            requires
                q == (a as int) * 65536 / (denom as int),
                a >= 0,
                denom > 0,
        ;
    }
    if q > 0x7fff_ffff_ffff_ffff {
        i64::MAX
    } else {
        q as i64
    }
}

/// A product of bounded factors is bounded by the product of the bounds.
proof fn lemma_abs_mul(a: int, b: int, ba: int, bb: int)
    requires
        -ba <= a <= ba,
        -bb <= b <= bb,
        0 <= ba,
        0 <= bb,
    ensures
        -(ba * bb) <= a * b <= ba * bb,
{
    assert(-(ba * bb) <= a * b <= ba * bb) by (nonlinear_arith)
        requires
            -ba <= a <= ba,
            -bb <= b <= bb,
            0 <= ba,
            0 <= bb,
    ;
}

/// Any member of a parent-dominated heap is at most the root.
proof fn lemma_member_le_root(s: Seq<Neighbor>, x: Neighbor)
    requires
        heap_dominated(s),
        s.len() > 0,
        s.to_multiset().count(x) > 0,
    ensures
        x.distance_squared <= s[0].distance_squared,
{
    s.to_multiset_ensures();
    assert(s.contains(x));
    let j = choose|j: int| 0 <= j < s.len() && s[j] == x;
    lemma_root_is_max(s);
    assert(s[j].distance_squared <= s[0].distance_squared);
}

/// Accumulator bounds advance by one bounded coordinate.
proof fn lemma_axis_accum_step(sum: int, sq: int, c: int, k: int)
    requires
        -(COORD_LIMIT as int) <= c <= COORD_LIMIT as int,
        -(k * (COORD_LIMIT as int)) <= sum <= k * (COORD_LIMIT as int),
        0 <= sq <= k * ((COORD_LIMIT as int) * (COORD_LIMIT as int)),
        k >= 0,
    ensures
        -((k + 1) * (COORD_LIMIT as int)) <= sum + c <= (k + 1) * (COORD_LIMIT as int),
        0 <= sq + c * c <= (k + 1) * ((COORD_LIMIT as int) * (COORD_LIMIT as int)),
        0 <= c * c <= (COORD_LIMIT as int) * (COORD_LIMIT as int),
{
    assert(0 <= c * c <= (COORD_LIMIT as int) * (COORD_LIMIT as int)) by (nonlinear_arith)
        requires
            -(COORD_LIMIT as int) <= c <= COORD_LIMIT as int,
    ;
    assert((k + 1) * (COORD_LIMIT as int) == k * (COORD_LIMIT as int) + COORD_LIMIT)
        by (nonlinear_arith);
    assert((k + 1) * ((COORD_LIMIT as int) * (COORD_LIMIT as int)) == k * ((COORD_LIMIT as int)
        * (COORD_LIMIT as int)) + (COORD_LIMIT as int) * (COORD_LIMIT as int))
        by (nonlinear_arith);
}

/// The variance score's intermediate products fit in 128 bits.
proof fn lemma_var_score_fits(n: int, sum: int, sq: int)
    requires
        0 <= n <= MAP_SIZE_LIMIT,
        -(n * (COORD_LIMIT as int)) <= sum <= n * (COORD_LIMIT as int),
        0 <= sq <= n * ((COORD_LIMIT as int) * (COORD_LIMIT as int)),
    ensures
        0 <= n * sq < 0x1000_0000_0000_0000_0000_0000_0000_0000,
        0 <= sum * sum < 0x1000_0000_0000_0000_0000_0000_0000_0000,
{
    assert(0 <= n * sq <= n * (n * ((COORD_LIMIT as int) * (COORD_LIMIT as int))))
        by (nonlinear_arith)
        requires
            0 <= n,
            0 <= sq <= n * ((COORD_LIMIT as int) * (COORD_LIMIT as int)),
    ;
    assert(n * (n * ((COORD_LIMIT as int) * (COORD_LIMIT as int)))
        < 0x1000_0000_0000_0000_0000_0000_0000_0000) by (nonlinear_arith)
        requires
            0 <= n <= MAP_SIZE_LIMIT,
    ;
    assert(0 <= sum * sum <= (n * (COORD_LIMIT as int)) * (n * (COORD_LIMIT as int)))
        by (nonlinear_arith)
        requires
            -(n * (COORD_LIMIT as int)) <= sum <= n * (COORD_LIMIT as int),
    ;
    assert((n * (COORD_LIMIT as int)) * (n * (COORD_LIMIT as int))
        < 0x1000_0000_0000_0000_0000_0000_0000_0000) by (nonlinear_arith)
        requires
            0 <= n <= MAP_SIZE_LIMIT,
    ;
}

/// Sorted everywhere on `[b, k]` except that the element at `j` may still
/// be out of place with respect to its predecessors.
spec fn sorted_except(s: Seq<Photon>, b: int, k: int, j: int, f: Flag) -> bool {
    forall|a: int, c: int|
        b <= a < c <= k && c != j ==> axis_coord(#[trigger] s[a], f) <= axis_coord(
            #[trigger] s[c],
            f,
        )
}

/// The element at `j` is at or below everything after it, up to `k`.
spec fn hole_below_rest(s: Seq<Photon>, j: int, k: int, f: Flag) -> bool {
    forall|a: int| j < a <= k ==> axis_coord(s[j], f) <= axis_coord(#[trigger] s[a], f)
}

/// Move the element at `j` left by swaps until its predecessor is at or
/// below it, leaving `[begin, k]` sorted.
fn sift_left(photons: &mut Vec<Photon>, begin: usize, j: usize, k: usize, axis: Flag)
    requires
        begin <= j <= k < old(photons)@.len(),
        sorted_except(old(photons)@, begin as int, k as int, j as int, axis),
        hole_below_rest(old(photons)@, j as int, k as int, axis),
    ensures
        final(photons)@.len() == old(photons)@.len(),
        forall|t: int|
            0 <= t < old(photons)@.len() && !(begin <= t <= k) ==> final(photons)@[t] == old(
                photons,
            )@[t],
        payloads(final(photons)@).subrange(begin as int, k + 1).to_multiset() == payloads(
            old(photons)@,
        ).subrange(begin as int, k + 1).to_multiset(),
        sorted_range(final(photons)@, begin as int, k + 1, axis),
    decreases j,
{
    if j == begin {
        return ;
    }
    let prev = *vstd::std_specs::vec::vec_index(photons, j - 1);
    let cur = *vstd::std_specs::vec::vec_index(photons, j);
    let pv = position_value(&prev.position, axis);
    let cv = position_value(&cur.position, axis);
    if pv <= cv {
        return ;
    }
    let ghost s = photons@;
    photons.set(j - 1, cur);
    photons.set(j, prev);
    proof {
        assert(photons@ =~= s.update(j - 1, s[j as int]).update(j as int, s[j - 1]));
        lemma_subrange_swap_multiset(s, begin as int, k + 1, j - 1, j as int);
        assert(sorted_except(photons@, begin as int, k as int, j - 1, axis)) by {
            assert forall|a: int, c: int|
                begin <= a < c <= k && c != j - 1 implies axis_coord(
                #[trigger] photons@[a],
                axis,
            ) <= axis_coord(#[trigger] photons@[c], axis) by {
                if c == j {
                    if a == j - 1 {
                    } else {
                        assert(axis_coord(s[a], axis) <= axis_coord(s[j - 1], axis));
                    }
                } else if c > j {
                    if a == j - 1 {
                        assert(axis_coord(s[j as int], axis) <= axis_coord(s[c], axis));
                    } else if a == j {
                        assert(axis_coord(s[j - 1], axis) <= axis_coord(s[c], axis));
                    } else {
                        assert(axis_coord(s[a], axis) <= axis_coord(s[c], axis));
                    }
                } else {
                }
            }
        }
        assert(hole_below_rest(photons@, j - 1, k as int, axis)) by {
            assert forall|a: int| j - 1 < a <= k implies axis_coord(photons@[j - 1], axis)
                <= axis_coord(#[trigger] photons@[a], axis) by {
                if a == j {
                } else {
                    assert(axis_coord(s[j as int], axis) <= axis_coord(s[a], axis));
                }
            }
        }
    }
    sift_left(photons, begin, j - 1, k, axis);
}

/// Sort the range `[begin, end)` by coordinate along `axis`, leaving the
/// rest of the array and the range's payload multiset unchanged.
fn sort_range(photons: &mut Vec<Photon>, begin: usize, end: usize, axis: Flag)
    requires
        begin <= end,
        end as int <= old(photons)@.len(),
    ensures
        final(photons)@.len() == old(photons)@.len(),
        forall|t: int|
            0 <= t < old(photons)@.len() && !(begin <= t < end) ==> final(photons)@[t] == old(
                photons,
            )@[t],
        payloads(final(photons)@).subrange(begin as int, end as int).to_multiset() == payloads(
            old(photons)@,
        ).subrange(begin as int, end as int).to_multiset(),
        sorted_range(final(photons)@, begin as int, end as int, axis),
{
    let mut k = begin;
    while k < end
        invariant
            begin <= k <= end,
            end as int <= photons@.len(),
            photons@.len() == old(photons)@.len(),
            forall|t: int|
                0 <= t < old(photons)@.len() && !(begin <= t < end) ==> photons@[t] == old(
                    photons,
                )@[t],
            payloads(photons@).subrange(begin as int, end as int).to_multiset() == payloads(
                old(photons)@,
            ).subrange(begin as int, end as int).to_multiset(),
            sorted_range(photons@, begin as int, k as int, axis),
        decreases end - k,
    {
        let ghost s = photons@;
        proof {
            assert(sorted_except(s, begin as int, k as int, k as int, axis));
            assert(hole_below_rest(s, k as int, k as int, axis));
        }
        sift_left(photons, begin, k, k, axis);
        proof {
            lemma_subrange_multiset_split(payloads(s), begin as int, k + 1, end as int);
            lemma_subrange_multiset_split(payloads(photons@), begin as int, k + 1, end as int);
            assert(payloads(photons@).subrange(k + 1, end as int) =~= payloads(s).subrange(
                k + 1,
                end as int,
            ));
        }
        k = k + 1;
    }
}

/// Swapping two positions inside `[b, e)` leaves the range's payload
/// multiset unchanged.
proof fn lemma_subrange_swap_multiset(s: Seq<Photon>, b: int, e: int, i: int, j: int)
    requires
        0 <= b <= i < j < e <= s.len(),
    ensures
        payloads(s.update(i, s[j]).update(j, s[i])).subrange(b, e).to_multiset() == payloads(
            s,
        ).subrange(b, e).to_multiset(),
{
    let ps = payloads(s).subrange(b, e);
    let t = s.update(i, s[j]).update(j, s[i]);
    assert(payloads(t).subrange(b, e) =~= ps.update(i - b, payload(s[j])).update(
        j - b,
        payload(s[i]),
    ));
    assert(ps[i - b] == payload(s[i]));
    assert(ps[j - b] == payload(s[j]));
    lemma_swap_preserves_multiset(ps, i - b, j - b);
}

/// A range's multiset splits at any midpoint.
proof fn lemma_subrange_multiset_split<T>(s: Seq<T>, b: int, m: int, e: int)
    requires
        0 <= b <= m <= e <= s.len(),
    ensures
        s.subrange(b, e).to_multiset() == s.subrange(b, m).to_multiset().add(
            s.subrange(m, e).to_multiset(),
        ),
{
    assert(s.subrange(b, e) =~= s.subrange(b, m) + s.subrange(m, e));
    vstd::seq_lib::lemma_multiset_commutative(s.subrange(b, m), s.subrange(m, e));
}

/// `wf_tree` reads only the positions and tags of the range `[b, e)`.
proof fn lemma_wf_tree_frame(s1: Seq<Photon>, s2: Seq<Photon>, b: int, e: int)
    requires
        wf_tree(s1, b, e),
        0 <= b,
        e <= s1.len(),
        e <= s2.len(),
        forall|i: int|
            b <= i < e ==> (#[trigger] s1[i]).position == s2[i].position && s1[i].plane
                == s2[i].plane,
    ensures
        wf_tree(s2, b, e),
    decreases e - b,
{
    if e - b <= 0 {
    } else if e - b == 1 {
    } else {
        let m = b + (e - b) / 2;
        assert(s2[m].plane == s1[m].plane);
        lemma_var_scores_congruence(s1, s2, b, e);
        assert forall|i: int| b <= i < m implies axis_coord(#[trigger] s2[i], s2[m].plane)
            <= axis_coord(s2[m], s2[m].plane) by {
            assert(axis_coord(s1[i], s1[m].plane) <= axis_coord(s1[m], s1[m].plane));
        }
        assert forall|i: int| m < i < e implies axis_coord(#[trigger] s2[i], s2[m].plane)
            >= axis_coord(s2[m], s2[m].plane) by {
            assert(axis_coord(s1[i], s1[m].plane) >= axis_coord(s1[m], s1[m].plane));
        }
        lemma_wf_tree_frame(s1, s2, b, m);
        lemma_wf_tree_frame(s1, s2, m + 1, e);
    }
}

/// Scaling a power channel by a factor of at most one keeps it within range.
proof fn lemma_power_scale_stays(c: int, s: int)
    requires
        0 <= c <= POWER_LIMIT,
        0 <= s <= crate::FX_ONE,
    ensures
        0 <= crate::fixed::tdiv(c * s, crate::FX_ONE as int) <= c,
{
    assert(0 <= c * s <= c * crate::FX_ONE) by (nonlinear_arith)
        requires
            0 <= c,
            0 <= s <= crate::FX_ONE,
    ;
    assert(c * s / (crate::FX_ONE as int) <= c * crate::FX_ONE / (crate::FX_ONE as int))
        by (nonlinear_arith)
        requires
            c * s <= c * crate::FX_ONE,
    ;
    assert(c * crate::FX_ONE / (crate::FX_ONE as int) == c) by (nonlinear_arith);
    assert(c * s / (crate::FX_ONE as int) >= 0) by (nonlinear_arith)
        requires
            c * s >= 0,
    ;
}

} // verus!
