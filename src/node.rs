use vstd::prelude::*;
pub use crate::types::NodeLoc;

verus! {

/// `n` is a positive power of two.
pub open spec fn is_pow2(n: int) -> bool
    decreases n,
{
    if n <= 0 {
        false
    } else if n == 1 {
        true
    } else {
        n % 2 == 0 && is_pow2(n / 2)
    }
}

/// Index of the octant that holds an axis triple, inside a cube whose half edge is `half`.
/// Octants are ordered z-major, then y, then x: the lower corner is octant 0.
pub open spec fn octant_of(half: int, x: int, y: int, z: int) -> int {
    (if z >= half { 4int } else { 0int }) + (if y >= half { 2int } else { 0int }) + (if x
        >= half {
        1int
    } else {
        0int
    })
}

/// One axis value moved into the frame of the octant that holds it.
pub open spec fn lower(half: int, a: int) -> int {
    if a >= half {
        a - half
    } else {
        a
    }
}

/// The axis triple `c` moved into the frame of the octant that holds it.
pub open spec fn lower3(half: int, c: (int, int, int)) -> (int, int, int) {
    (lower(half, c.0), lower(half, c.1), lower(half, c.2))
}

/// `c` lies inside a cube of edge `e` whose lower corner is the origin.
pub open spec fn in_cube(e: int, c: (int, int, int)) -> bool {
    0 <= c.0 < e && 0 <= c.1 < e && 0 <= c.2 < e
}

/// One cell of an octree: a cube of edge `dimension` that is either a leaf
/// (one value, or none, for the whole cube) or split into eight octants.
#[derive(Debug)]
pub struct OctreeNode<T> {
    dimension: u16,
    leaf: bool,
    simplified: bool,
    children: Vec<Option<OctreeNode<T>>>,
    data: Option<T>,
}

impl<T> OctreeNode<T> {
    pub closed spec fn spec_dimension(self) -> int {
        self.dimension as int
    }

    pub closed spec fn spec_leaf(self) -> bool {
        self.leaf
    }

    /// The node stands for a uniform region of edge above one that was folded into a leaf.
    pub closed spec fn spec_simplified(self) -> bool {
        self.simplified
    }

    pub closed spec fn spec_data(self) -> Option<T> {
        self.data
    }

    /// `self` is a copy of `other`: the same kind of node, the same value, and
    /// the same value at every voxel.
    pub closed spec fn copy_of(self, other: OctreeNode<T>) -> bool {
        &&& self.wf()
        &&& self.dimension == other.dimension
        &&& self.leaf == other.leaf
        &&& self.simplified == other.simplified
        &&& self.data == other.data
        &&& forall|c: (int, int, int)| #[trigger] self.value_at(c) == other.value_at(c)
    }

    pub closed spec fn spec_children(self) -> Seq<Option<OctreeNode<T>>> {
        self.children@
    }

    /// Well-formedness: edges halve from parent to child down to one, a leaf has
    /// no children, an inner node no value, and a node is marked simplified
    /// exactly when it is a leaf of edge above one that holds a value.
    pub closed spec fn wf(self) -> bool
        decreases self,
    {
        &&& is_pow2(self.dimension as int)
        &&& self.children@.len() == 8
        &&& self.simplified <==> (self.leaf && self.data.is_some() && self.dimension > 1)
        &&& self.dimension == 1 ==> self.leaf
        &&& self.leaf ==> forall|i: int| 0 <= i < 8 ==> (#[trigger] self.children@[i]).is_none()
        &&& !self.leaf ==> self.data.is_none()
        &&& forall|i: int|
            0 <= i < 8 ==> match #[trigger] self.children@[i] {
                Some(c) => c.dimension == self.dimension / 2 && c.wf(),
                None => true,
            }
    }

    /// All eight children are leaves that hold one and the same value: the
    /// node could be folded into a simplified leaf.
    pub closed spec fn foldable(self) -> bool {
        forall|i: int|
            0 <= i < 8 ==> (#[trigger] self.children@[i]) is Some && self.children@[i]->0.leaf
                && self.children@[i]->0.data is Some && self.children@[i]->0.data
                == self.children@[0]->0.data
    }

    /// No inner node of the subtree could be folded: every region whose
    /// children are leaves of one value has been folded.
    pub closed spec fn compact(self) -> bool
        decreases self,
    {
        &&& (!self.leaf ==> !self.foldable())
        &&& forall|i: int|
            0 <= i < self.children@.len() ==> match #[trigger] self.children@[i] {
                Some(c) => c.compact(),
                None => true,
            }
    }

    /// `self` has the nodes of `other`: the same edges, the same leaf flags and
    /// the same child slots filled, all the way down.
    pub closed spec fn same_shape(self, other: OctreeNode<T>) -> bool
        decreases self,
    {
        &&& self.dimension == other.dimension
        &&& self.leaf == other.leaf
        &&& self.children@.len() == other.children@.len()
        &&& forall|i: int|
            0 <= i < self.children@.len() ==> match (#[trigger] self.children@[i], other.children@[i]) {
                (Some(a), Some(b)) => a.same_shape(b),
                (None, None) => true,
                _ => false,
            }
    }

    /// The value held at voxel `c`, in the node's own frame.
    pub closed spec fn value_at(self, c: (int, int, int)) -> Option<T>
        decreases self,
    {
        if self.leaf {
            self.data
        } else {
            let h = self.dimension / 2;
            let i = octant_of(h as int, c.0, c.1, c.2);
            if 0 <= i < self.children@.len() {
                match self.children@[i] {
                    Some(ch) => ch.value_at(lower3(h as int, c)),
                    None => None,
                }
            } else {
                None
            }
        }
    }
}


impl<T> OctreeNode<T> {
    /// Where a lookup of `c` leaves its coordinate: `c` in the frame of the
    /// node at which the descent stops.
    pub closed spec fn located(self, c: (int, int, int)) -> (int, int, int)
        decreases self,
    {
        if self.leaf {
            c
        } else {
            let h = self.dimension / 2;
            let i = octant_of(h as int, c.0, c.1, c.2);
            let c2 = lower3(h as int, c);
            if 0 <= i < self.children@.len() {
                match self.children@[i] {
                    Some(ch) => ch.located(c2),
                    None => c2,
                }
            } else {
                c2
            }
        }
    }

    /// Where an insert of `v` at `c` leaves its coordinate: `c` itself when the
    /// node is a simplified region that already holds `v`, `c` in the frame of
    /// the simplified region of `v` met further down, and else the origin of
    /// the unit voxel that is written.
    pub closed spec fn insert_frame(self, c: (int, int, int), v: T) -> (int, int, int)
        decreases self,
    {
        if self.simplified && self.data == Some(v) {
            c
        } else if !self.leaf && self.dimension > 2 {
            let h = self.dimension / 2;
            let i = octant_of(h as int, c.0, c.1, c.2);
            if 0 <= i < self.children@.len() {
                match self.children@[i] {
                    Some(ch) => ch.insert_frame(lower3(h as int, c), v),
                    None => (0, 0, 0),
                }
            } else {
                (0, 0, 0)
            }
        } else {
            (0, 0, 0)
        }
    }

    /// Voxels `c` and `d` lie in the region of one leaf of this node.
    pub closed spec fn shares_leaf(self, c: (int, int, int), d: (int, int, int)) -> bool
        decreases self,
    {
        if self.leaf {
            true
        } else {
            let h = self.dimension / 2;
            let i = octant_of(h as int, c.0, c.1, c.2);
            if 0 <= i < self.children@.len() && i == octant_of(h as int, d.0, d.1, d.2) {
                match self.children@[i] {
                    Some(ch) => ch.shares_leaf(lower3(h as int, c), lower3(h as int, d)),
                    None => false,
                }
            } else {
                false
            }
        }
    }

    /// The leaf whose region holds voxel `c`, if the path to it is complete.
    pub closed spec fn leaf_at(self, c: (int, int, int)) -> Option<OctreeNode<T>>
        decreases self,
    {
        if self.leaf {
            Some(self)
        } else {
            let h = self.dimension / 2;
            let i = octant_of(h as int, c.0, c.1, c.2);
            if 0 <= i < self.children@.len() {
                match self.children@[i] {
                    Some(ch) => ch.leaf_at(lower3(h as int, c)),
                    None => None,
                }
            } else {
                None
            }
        }
    }

    /// The values held by the nodes of this subtree, in the order a traversal
    /// records them: the node's own value, then the subtrees of octants 7 down to 0.
    pub closed spec fn values(self) -> Seq<T>
        decreases self, 9int,
    {
        let own = match self.data {
            Some(v) => seq![v],
            None => Seq::empty(),
        };
        own + self.values_top(0)
    }

    /// The values of the subtrees of octants 7 down to `k`.
    pub closed spec fn values_top(self, k: int) -> Seq<T>
        decreases self, 8 - k,
    {
        if k < 0 || k >= 8 || self.children@.len() != 8 {
            Seq::empty()
        } else {
            let rest = self.values_top(k + 1);
            match self.children@[k] {
                Some(ch) => rest + ch.values(),
                None => rest,
            }
        }
    }

    /// A well-formed inner node has an even edge of at least two, and its
    /// children are well-formed nodes of half its edge.
    proof fn lemma_inner(self)
        requires
            self.wf(),
            !self.leaf,
        ensures
            self.dimension >= 2,
            self.dimension % 2 == 0,
            is_pow2(self.dimension as int / 2),
    {
        reveal_with_fuel(is_pow2, 2);
    }
}

impl<T> OctreeNode<T> {
    /// After the child in octant `i` of inner node `before` was emptied at
    /// voxel `c` (in the parent's frame), the parent's voxels change as the
    /// child's do.
    proof fn lemma_replace_child(
        self,
        before: OctreeNode<T>,
        i: int,
        child_before: OctreeNode<T>,
        c: (int, int, int),
    )
        requires
            before.wf(),
            !before.leaf,
            in_cube(before.dimension as int, c),
            i == octant_of(before.dimension as int / 2, c.0, c.1, c.2),
            0 <= i < 8,
            before.children@[i] == Some(child_before),
            self.children@ == before.children@.update(i, self.children@[i]),
            self.children@[i] matches Some(ch) && ch.wf() && ch.dimension == before.dimension / 2
                && forall|d: (int, int, int)|
                in_cube(before.dimension as int / 2, d) ==> #[trigger] ch.value_at(d) == (
                if child_before.shares_leaf(lower3(before.dimension as int / 2, c), d) {
                    None
                } else {
                    child_before.value_at(d)
                }),
            self.dimension == before.dimension,
            self.leaf == before.leaf,
            self.simplified == before.simplified,
            self.data == before.data,
        ensures
            self.wf(),
            forall|d: (int, int, int)|
                in_cube(before.dimension as int, d) ==> #[trigger] self.value_at(d) == (
                if before.shares_leaf(c, d) {
                    None
                } else {
                    before.value_at(d)
                }),
    {
        before.lemma_inner();
        let h = before.dimension as int / 2;
        assert forall|d: (int, int, int)| in_cube(before.dimension as int, d) implies #[trigger] self.value_at(d)
            == (if before.shares_leaf(c, d) {
            None
        } else {
            before.value_at(d)
        }) by {
            let j = octant_of(h, d.0, d.1, d.2);
            assert(in_cube(h, lower3(h, d)));
            let ld = lower3(h, d);
            if j == i {
                let ch = self.children@[i]->0;
                assert(self.value_at(d) == ch.value_at(ld));
                assert(before.value_at(d) == child_before.value_at(ld));
                assert(before.shares_leaf(c, d) == child_before.shares_leaf(lower3(h, c), ld));
            } else {
                assert(self.children@[j] == before.children@[j]);
                assert(!before.shares_leaf(c, d));
            }
        }
    }
}

impl<T> OctreeNode<T> {
    /// An inner node stays compact when one child, compact itself, is replaced
    /// by an inner node or an empty leaf.
    proof fn lemma_compact_after_emptying(self, before: OctreeNode<T>, i: int)
        requires
            before.compact(),
            !before.leaf,
            !self.leaf,
            0 <= i < 8,
            before.children@.len() == 8,
            self.children@ == before.children@.update(i, self.children@[i]),
            self.children@[i] matches Some(ch) && ch.compact() && (ch.leaf ==> ch.data.is_none()),
        ensures
            self.compact(),
    {
        assert(self.children@[i] is Some);
        assert forall|j: int| 0 <= j < self.children@.len() implies match #[trigger] self.children@[j] {
            Some(c) => c.compact(),
            None => true,
        } by {
            if j != i {
                assert(self.children@[j] == before.children@[j]);
            }
        }
    }

    /// The leaf that holds a voxel is no larger than the node it lies under,
    /// and at most half of it under an inner node.
    pub proof fn lemma_leaf_at_size(self, c: (int, int, int))
        requires
            self.wf(),
            in_cube(self.spec_dimension(), c),
            self.leaf_at(c) is Some,
        ensures
            self.leaf_at(c)->0.spec_dimension() <= self.spec_dimension(),
            !self.spec_leaf() ==> 2 * self.leaf_at(c)->0.spec_dimension() <= self.spec_dimension(),
            self.leaf_at(c)->0.wf(),
            self.leaf_at(c)->0.spec_leaf(),
            is_pow2(self.leaf_at(c)->0.spec_dimension()),
            self.leaf_at(c)->0.spec_data() == self.value_at(c),
        decreases self,
    {
        if !self.leaf {
            self.lemma_inner();
            let h = self.dimension as int / 2;
            let ch = self.children@[octant_of(h, c.0, c.1, c.2)]->0;
            assert(in_cube(h, lower3(h, c)));
            ch.lemma_leaf_at_size(lower3(h, c));
        }
    }

    /// A leaf of edge one shares its region with no other voxel.
    pub proof fn lemma_unit_leaf_alone(self, c: (int, int, int), d: (int, int, int))
        requires
            self.wf(),
            in_cube(self.spec_dimension(), c),
            in_cube(self.spec_dimension(), d),
            self.leaf_at(c) matches Some(n) && n.spec_dimension() == 1,
            self.shares_leaf(c, d),
        ensures
            c == d,
        decreases self,
    {
        if !self.leaf {
            self.lemma_inner();
            let h = self.dimension as int / 2;
            let ch = self.children@[octant_of(h, c.0, c.1, c.2)]->0;
            assert(in_cube(h, lower3(h, c)));
            assert(in_cube(h, lower3(h, d)));
            ch.lemma_unit_leaf_alone(lower3(h, c), lower3(h, d));
            lemma_octant_unique(h, c, d);
        }
    }

    /// Where the path to a voxel is incomplete, the voxel holds no value.
    pub proof fn lemma_leaf_at_none(self, c: (int, int, int))
        requires
            self.wf(),
            in_cube(self.spec_dimension(), c),
            self.leaf_at(c) is None,
        ensures
            self.value_at(c) is None,
        decreases self,
    {
        if !self.leaf {
            self.lemma_inner();
            let h = self.dimension as int / 2;
            if let Some(ch) = self.children@[octant_of(h, c.0, c.1, c.2)] {
                assert(in_cube(h, lower3(h, c)));
                ch.lemma_leaf_at_none(lower3(h, c));
            }
        }
    }

    /// All voxels of the aligned block of edge `k` around `c` lie in the
    /// region of the leaf that holds `c`, when that leaf has edge `k` or more.
    pub proof fn lemma_leaf_covers_block(self, c: (int, int, int), d: (int, int, int), k: int)
        requires
            self.wf(),
            in_cube(self.spec_dimension(), c),
            in_cube(self.spec_dimension(), d),
            self.leaf_at(c) matches Some(n) && n.spec_dimension() >= k,
            same_block(self.spec_dimension(), k, c, d),
        ensures
            self.shares_leaf(c, d),
        decreases self,
    {
        if !self.leaf {
            self.lemma_inner();
            self.lemma_leaf_at_size(c);
            let h = self.dimension as int / 2;
            let ch = self.children@[octant_of(h, c.0, c.1, c.2)]->0;
            assert(in_cube(h, lower3(h, c)));
            assert(in_cube(h, lower3(h, d)));
            ch.lemma_leaf_covers_block(lower3(h, c), lower3(h, d), k);
        }
    }

    /// A compact node whose voxels all hold one value is a leaf.
    pub proof fn lemma_uniform_is_leaf(self, v: T)
        requires
            self.wf(),
            self.compact(),
            forall|d: (int, int, int)| in_cube(self.spec_dimension(), d) ==> #[trigger] self.value_at(d) == Some(v),
        ensures
            self.spec_leaf(),
        decreases self,
    {
        if !self.leaf {
            self.lemma_inner();
            let h = self.dimension as int / 2;
            assert forall|j: int| 0 <= j < 8 implies (#[trigger] self.children@[j]) is Some
                && self.children@[j]->0.leaf && self.children@[j]->0.data == Some(v) by {
                lemma_raise(h, j, (0, 0, 0));
                assert(self.value_at(raise3(h, j, (0, 0, 0))) == Some(v));
                let ch = self.children@[j]->0;
                assert forall|d: (int, int, int)| in_cube(ch.spec_dimension(), d) implies #[trigger] ch.value_at(d) == Some(v) by {
                    lemma_raise(h, j, d);
                    assert(self.value_at(raise3(h, j, d)) == Some(v));
                }
                ch.lemma_uniform_is_leaf(v);
                assert(ch.value_at((0, 0, 0)) == ch.data);
            }
            assert(self.foldable());
        }
    }

    /// In a compact node, when every voxel of the aligned block of edge `k`
    /// around `c` holds `v`, the leaf that holds `c` has edge `k` or more.
    pub proof fn lemma_uniform_block(self, c: (int, int, int), k: int, v: T)
        requires
            self.wf(),
            self.compact(),
            is_pow2(k),
            k <= self.spec_dimension(),
            in_cube(self.spec_dimension(), c),
            forall|d: (int, int, int)|
                in_cube(self.spec_dimension(), d) && same_block(self.spec_dimension(), k, c, d)
                    ==> #[trigger] self.value_at(d) == Some(v),
        ensures
            self.leaf_at(c) matches Some(n) && n.spec_dimension() >= k,
        decreases self,
    {
        if !self.leaf {
            self.lemma_inner();
            let e = self.dimension as int;
            let h = e / 2;
            if k == e {
                self.lemma_uniform_is_leaf(v);
            } else {
                lemma_pow2_below(k, e);
                let i = octant_of(h, c.0, c.1, c.2);
                let lc = lower3(h, c);
                assert(in_cube(h, lc));
                lemma_same_block_refl(e, k, c);
                assert(self.value_at(c) == Some(v));
                let ch = self.children@[i]->0;
                assert forall|d: (int, int, int)|
                    in_cube(h, d) && same_block(h, k, lc, d) implies #[trigger] ch.value_at(d) == Some(v) by {
                    lemma_raise(h, i, d);
                    assert(same_block(e, k, c, raise3(h, i, d)));
                    assert(self.value_at(raise3(h, i, d)) == Some(v));
                }
                ch.lemma_uniform_block(lc, k, v);
            }
        }
    }

    /// Every node has its own shape.
    pub proof fn lemma_same_shape_refl(self)
        ensures
            self.same_shape(self),
        decreases self,
    {
        assert forall|i: int| 0 <= i < self.children@.len() implies match (#[trigger] self.children@[i], self.children@[i]) {
            (Some(a), Some(b)) => a.same_shape(b),
            (None, None) => true,
            _ => false,
        } by {
            if let Some(a) = self.children@[i] {
                a.lemma_same_shape_refl();
            }
        }
    }

    /// A well-formed leaf is compact: it has no children.
    pub proof fn lemma_leaf_compact(self)
        requires
            self.wf(),
            self.spec_leaf(),
        ensures
            self.compact(),
    {
    }

    /// A voxel that holds a value lies in a leaf's region together with itself.
    pub proof fn lemma_shares_leaf_self(self, c: (int, int, int))
        requires
            self.wf(),
            in_cube(self.spec_dimension(), c),
            self.value_at(c).is_some(),
        ensures
            self.shares_leaf(c, c),
        decreases self,
    {
        if !self.leaf {
            self.lemma_inner();
            let h = self.dimension as int / 2;
            let i = octant_of(h, c.0, c.1, c.2);
            let ch = self.children@[i]->0;
            assert(in_cube(h, lower3(h, c)));
            ch.lemma_shares_leaf_self(lower3(h, c));
        }
    }

    /// All voxels in the region of one leaf hold the same value.
    pub proof fn lemma_leaf_uniform(self, c: (int, int, int), d: (int, int, int))
        requires
            self.wf(),
            in_cube(self.spec_dimension(), c),
            in_cube(self.spec_dimension(), d),
            self.shares_leaf(c, d),
        ensures
            self.value_at(c) == self.value_at(d),
        decreases self,
    {
        if !self.leaf {
            self.lemma_inner();
            let h = self.dimension as int / 2;
            let i = octant_of(h, c.0, c.1, c.2);
            let ch = self.children@[i]->0;
            assert(in_cube(h, lower3(h, c)));
            assert(in_cube(h, lower3(h, d)));
            ch.lemma_leaf_uniform(lower3(h, c), lower3(h, d));
        }
    }
}

/// `c` and `d` lie in one aligned block of edge `k` of a cube of edge `e`:
/// halving the cube until its parts have edge `k`, both fall in the same part.
pub open spec fn same_block(e: int, k: int, c: (int, int, int), d: (int, int, int)) -> bool
    decreases e,
{
    if e <= k || e < 2 {
        true
    } else {
        let h = e / 2;
        octant_of(h, c.0, c.1, c.2) == octant_of(h, d.0, d.1, d.2) && same_block(
            h,
            k,
            lower3(h, c),
            lower3(h, d),
        )
    }
}

/// Every voxel lies in its own block.
pub proof fn lemma_same_block_refl(e: int, k: int, c: (int, int, int))
    ensures
        same_block(e, k, c, c),
    decreases e,
{
    if !(e <= k || e < 2) {
        lemma_same_block_refl(e / 2, k, lower3(e / 2, c));
    }
}

/// A power of two below another power of two is at most half of it.
proof fn lemma_pow2_below(k: int, e: int)
    requires
        is_pow2(k),
        is_pow2(e),
        k < e,
    ensures
        k <= e / 2,
    decreases e,
{
    reveal_with_fuel(is_pow2, 2);
    if k > 1 {
        lemma_pow2_below(k / 2, e / 2);
    }
}

/// The voxel of a cube at position `c` inside octant `i`, whose half edge is `half`.
pub open spec fn raise3(half: int, i: int, c: (int, int, int)) -> (int, int, int) {
    (
        c.0 + if i % 2 == 1 {
            half
        } else {
            0
        },
        c.1 + if (i / 2) % 2 == 1 {
            half
        } else {
            0
        },
        c.2 + if i >= 4 {
            half
        } else {
            0
        },
    )
}

proof fn lemma_raise(half: int, i: int, c: (int, int, int))
    requires
        half >= 1,
        0 <= i < 8,
        in_cube(half, c),
    ensures
        in_cube(2 * half, raise3(half, i, c)),
        octant_of(half, raise3(half, i, c).0, raise3(half, i, c).1, raise3(half, i, c).2) == i,
        lower3(half, raise3(half, i, c)) == c,
{
}

impl<T> OctreeNode<T> {
    /// Some voxel of the node's region holds `v`.
    pub open spec fn holds(self, v: T) -> bool {
        exists|c: (int, int, int)| in_cube(self.spec_dimension(), c) && self.value_at(c) == Some(v)
    }

    /// No voxel of the node's region holds a value.
    pub open spec fn holds_nothing(self) -> bool {
        forall|c: (int, int, int)| in_cube(self.spec_dimension(), c) ==> #[trigger] self.value_at(c).is_none()
    }

    /// No two voxels of the node's region hold the same value.
    pub open spec fn distinct_voxels(self) -> bool {
        forall|c: (int, int, int), d: (int, int, int)|
            in_cube(self.spec_dimension(), c) && in_cube(self.spec_dimension(), d)
                && self.value_at(c).is_some() && #[trigger] self.value_at(c)
                == #[trigger] self.value_at(d) ==> c == d
    }

    proof fn lemma_leaf_top_empty(self, k: int)
        requires
            self.wf(),
            self.leaf,
            0 <= k <= 8,
        ensures
            self.values_top(k) == Seq::<T>::empty(),
        decreases 8 - k,
    {
        if k < 8 {
            self.lemma_leaf_top_empty(k + 1);
        }
    }

    proof fn lemma_top(self, k: int)
        requires
            self.children@.len() == 8,
            0 <= k <= 8,
            forall|j: int|
                0 <= j < 8 && (#[trigger] self.children@[j]) is Some ==> self.children@[j]->0.values().no_duplicates(),
            forall|i: int, j: int, v: T|
                #![trigger self.children@[i]->0.values().contains(v), self.children@[j]->0.values().contains(v)]
                0 <= i < 8 && 0 <= j < 8 && i != j && self.children@[i] is Some
                    && self.children@[j] is Some && self.children@[i]->0.values().contains(v)
                    ==> !self.children@[j]->0.values().contains(v),
        ensures
            self.values_top(k).no_duplicates(),
            forall|v: T|
                #[trigger] self.values_top(k).contains(v) <==> exists|j: int|
                    k <= j < 8 && (#[trigger] self.children@[j]) is Some
                        && self.children@[j]->0.values().contains(v),
        decreases 8 - k,
    {
        if k < 8 {
            self.lemma_top(k + 1);
            let rest = self.values_top(k + 1);
            match self.children@[k] {
                Some(ch) => {
                    assert forall|a: int, b: int|
                        0 <= a < rest.len() && 0 <= b < ch.values().len() implies rest[a]
                        != ch.values()[b] by {
                        assert(rest.contains(rest[a]));
                        assert(ch.values().contains(ch.values()[b]));
                    }
                    vstd::seq_lib::lemma_no_dup_in_concat(rest, ch.values());
                    assert forall|v: T|
                        #[trigger] self.values_top(k).contains(v) <==> exists|j: int|
                            k <= j < 8 && (#[trigger] self.children@[j]) is Some
                                && self.children@[j]->0.values().contains(v) by {
                        vstd::seq_lib::lemma_seq_concat_contains_all_elements(rest, ch.values(), v);
                    }
                },
                None => {
                    assert(self.values_top(k) == rest);
                },
            }
        } else {
            assert(self.values_top(k) =~= Seq::<T>::empty());
        }
    }

    /// When no two voxels hold the same value, the values a traversal records
    /// are pairwise distinct and are exactly the values some voxel holds.
    pub proof fn lemma_values_distinct(self)
        requires
            self.wf(),
            self.distinct_voxels(),
        ensures
            self.values().no_duplicates(),
            forall|v: T| #[trigger] self.values().contains(v) <==> self.holds(v),
        decreases self,
    {
        let e = self.dimension as int;
        if self.leaf {
            self.lemma_leaf_top_empty(0);
            assert(in_cube(e, (0, 0, 0))) by {
                reveal_with_fuel(is_pow2, 1);
            }
            assert(self.value_at((0, 0, 0)) == self.data);
            match self.data {
                Some(x) => {
                    assert(self.values() =~= seq![x]);
                    assert forall|v: T| #[trigger] self.values().contains(v) <==> self.holds(v) by {
                        if self.holds(v) {
                            let c = choose|c: (int, int, int)| in_cube(e, c) && self.value_at(c) == Some(v);
                            assert(self.value_at(c) == self.data);
                            assert(self.values()[0] == v);
                        }
                    }
                },
                None => {
                    assert(self.values() =~= Seq::<T>::empty());
                    assert forall|v: T| #[trigger] self.values().contains(v) <==> self.holds(v) by {
                        if self.holds(v) {
                            let c = choose|c: (int, int, int)| in_cube(e, c) && self.value_at(c) == Some(v);
                            assert(self.value_at(c) == self.data);
                        }
                    }
                },
            }
        } else {
            self.lemma_inner();
            let h = e / 2;
            assert forall|j: int|
                0 <= j < 8 && (#[trigger] self.children@[j]) is Some implies ({
                    let ch = self.children@[j]->0;
                    &&& ch.values().no_duplicates()
                    &&& forall|v: T| #[trigger] ch.values().contains(v) <==> ch.holds(v)
                }) by {
                let ch = self.children@[j]->0;
                assert forall|c: (int, int, int), d: (int, int, int)|
                    in_cube(ch.dimension as int, c) && in_cube(ch.dimension as int, d)
                        && ch.value_at(c).is_some() && #[trigger] ch.value_at(c)
                        == #[trigger] ch.value_at(d) implies c == d by {
                    lemma_raise(h, j, c);
                    lemma_raise(h, j, d);
                    assert(self.value_at(raise3(h, j, c)) == ch.value_at(c));
                    assert(self.value_at(raise3(h, j, d)) == ch.value_at(d));
                }
                ch.lemma_values_distinct();
            }
            assert forall|i: int, j: int, v: T|
                #![trigger self.children@[i]->0.values().contains(v), self.children@[j]->0.values().contains(v)]
                0 <= i < 8 && 0 <= j < 8 && i != j && self.children@[i] is Some
                    && self.children@[j] is Some && self.children@[i]->0.values().contains(v)
                    implies !self.children@[j]->0.values().contains(v) by {
                let ci = self.children@[i]->0;
                let cj = self.children@[j]->0;
                if cj.values().contains(v) {
                    assert(ci.holds(v));
                    assert(cj.holds(v));
                    let a = choose|c: (int, int, int)| in_cube(ci.dimension as int, c) && ci.value_at(c) == Some(v);
                    let b = choose|c: (int, int, int)| in_cube(cj.dimension as int, c) && cj.value_at(c) == Some(v);
                    lemma_raise(h, i, a);
                    lemma_raise(h, j, b);
                    assert(self.value_at(raise3(h, i, a)) == Some(v));
                    assert(self.value_at(raise3(h, j, b)) == Some(v));
                }
            }
            self.lemma_top(0);
            assert(self.values() =~= self.values_top(0));
            assert forall|v: T| #[trigger] self.values().contains(v) <==> self.holds(v) by {
                if self.values().contains(v) {
                    let j = choose|j: int|
                        0 <= j < 8 && (#[trigger] self.children@[j]) is Some
                            && self.children@[j]->0.values().contains(v);
                    let ch = self.children@[j]->0;
                    assert(ch.holds(v));
                    let a = choose|c: (int, int, int)| in_cube(ch.dimension as int, c) && ch.value_at(c) == Some(v);
                    lemma_raise(h, j, a);
                    assert(self.value_at(raise3(h, j, a)) == Some(v));
                }
                if self.holds(v) {
                    let c = choose|c: (int, int, int)| in_cube(e, c) && self.value_at(c) == Some(v);
                    let j = octant_of(h, c.0, c.1, c.2);
                    let ch = self.children@[j]->0;
                    assert(in_cube(h, lower3(h, c)));
                    assert(ch.value_at(lower3(h, c)) == Some(v));
                    assert(ch.holds(v));
                    assert(self.children@[j] is Some);
                }
            }
        }
    }
}

/// Two voxels of one cube that fall in the same octant and have the same
/// position inside it are the same voxel.
proof fn lemma_octant_unique(half: int, c: (int, int, int), d: (int, int, int))
    requires
        half >= 1,
        in_cube(2 * half, c),
        in_cube(2 * half, d),
        octant_of(half, c.0, c.1, c.2) == octant_of(half, d.0, d.1, d.2),
        lower3(half, c) == lower3(half, d),
    ensures
        c == d,
{
}

/// `a` and `b` are equal values, as `==` on them reports it.
fn same_value<T: PartialEq>(a: &T, b: &T) -> (r: bool)
    requires
        vstd::laws_eq::obeys_concrete_eq::<T>(),
    ensures
        r == (*a == *b),
{
    proof {
        reveal(vstd::laws_eq::obeys_concrete_eq);
    }
    a.eq(b)
}

impl<T: Copy + PartialEq> OctreeNode<T> {
    /// A leaf of half the given edge whose whole region holds `data`: a unit
    /// voxel when that half is one, else a simplified uniform region.
    pub fn new(curr_dimension: u16, data: T) -> (r: OctreeNode<T>)
        requires
            is_pow2(curr_dimension as int),
            curr_dimension >= 2,
        ensures
            r.wf(),
            r.spec_dimension() == curr_dimension / 2,
            r.spec_leaf(),
            r.spec_data() == Some(data),
            r.spec_simplified() == (curr_dimension / 2 > 1),
            forall|i: int| 0 <= i < 8 ==> (#[trigger] r.spec_children()[i]).is_none(),
            forall|c: (int, int, int)| #[trigger] r.value_at(c) == Some(data),
    {
        let dimension = curr_dimension / 2;
        OctreeNode::<T> {
            dimension,
            leaf: true,
            simplified: dimension > 1,
            children: no_children::<T>(),
            data: Some(data),
        }
    }

    /// An empty leaf of the given edge, the root of a fresh tree.
    pub fn construct_root(dimension: u16) -> (r: OctreeNode<T>)
        requires
            is_pow2(dimension as int),
        ensures
            r.wf(),
            r.spec_dimension() == dimension,
            r.spec_leaf(),
            !r.spec_simplified(),
            r.spec_data().is_none(),
            forall|i: int| 0 <= i < 8 ==> (#[trigger] r.spec_children()[i]).is_none(),
            forall|c: (int, int, int)| #[trigger] r.value_at(c).is_none(),
    {
        OctreeNode { dimension, leaf: true, simplified: false, children: no_children::<T>(), data: None }
    }

    /// Gives a leaf the value `data` for its whole region; an inner node is refused.
    pub fn set(&mut self, data: T) -> (r: Result<(), String>)
        requires
            old(self).wf(),
        ensures
            final(self).wf(),
            r.is_ok() == old(self).spec_leaf(),
            final(self).spec_dimension() == old(self).spec_dimension(),
            final(self).spec_leaf() == old(self).spec_leaf(),
            r.is_ok() ==> final(self).spec_data() == Some(data),
            r.is_ok() ==> forall|c: (int, int, int)| #[trigger] final(self).value_at(c) == Some(data),
            r.is_err() ==> *final(self) == *old(self),
    {
        if self.leaf {
            self.data = Some(data);
            self.simplified = self.dimension > 1;
            Ok(())
        } else {
            Err("Could not set octree node data: node is not a leaf".to_owned())
        }
    }

    /// The value the node holds itself (none for an inner node).
    pub fn get(&self) -> (r: Option<T>)
        ensures
            r == self.spec_data(),
    {
        self.data
    }

    pub fn leaf(&self) -> (r: bool)
        ensures
            r == self.spec_leaf(),
    {
        self.leaf
    }

    /// Edge length of the node's region.
    pub fn dimension(&self) -> (r: u16)
        ensures
            r == self.spec_dimension(),
    {
        self.dimension
    }

    /// Picks the octant that holds `loc` and moves `loc` into that octant's frame.
    fn get_child_loc(&self, loc: &mut NodeLoc) -> (r: usize)
        requires
            self.dimension >= 2,
            self.dimension % 2 == 0,
            in_cube(self.spec_dimension(), old(loc)@),
        ensures
            r < 8,
            r == octant_of(self.dimension as int / 2, old(loc)@.0, old(loc)@.1, old(loc)@.2),
            final(loc)@ == lower3(self.dimension as int / 2, old(loc)@),
            in_cube(self.dimension as int / 2, final(loc)@),
    {
        let comparator = self.dimension / 2;
        let mut r: usize = 0;
        if loc.z() >= comparator {
            loc.sub_z(comparator);
            r = r + 4;
        }
        if loc.y() >= comparator {
            loc.sub_y(comparator);
            r = r + 2;
        }
        if loc.x() >= comparator {
            loc.sub_x(comparator);
            r = r + 1;
        }
        r
    }

    /// The value at voxel `loc` of the node's region.
    pub fn at(&self, loc: &mut NodeLoc) -> (r: Option<T>)
        requires
            self.wf(),
            in_cube(self.spec_dimension(), old(loc)@),
        ensures
            r == self.value_at(old(loc)@),
            final(loc)@ == self.located(old(loc)@),
        decreases self,
    {
        if self.leaf {
            return self.data;
        }
        proof {
            self.lemma_inner();
        }
        let child_loc = self.get_child_loc(loc);
        match &self.children[child_loc] {
            None => None,
            Some(child) => {
                assert(self.children@[child_loc as int] == Some(*child));
                child.at(loc)
            },
        }
    }

    /// Writes `data` at voxel `loc`, creating the nodes on the way that are
    /// missing, unfolding a simplified region that held another value, and
    /// folding each node on the way back whose eight children came to hold
    /// `data` alike. Every other voxel keeps its value.
    pub fn insert(&mut self, loc: &mut NodeLoc, data: T)
        requires
            old(self).wf(),
            old(self).spec_dimension() >= 2,
            in_cube(old(self).spec_dimension(), old(loc)@),
            vstd::laws_eq::obeys_concrete_eq::<T>(),
        ensures
            final(self).wf(),
            final(self).spec_dimension() == old(self).spec_dimension(),
            forall|c: (int, int, int)|
                in_cube(old(self).spec_dimension(), c) ==> #[trigger] final(self).value_at(c) == (
                if c == old(loc)@ {
                    Some(data)
                } else {
                    old(self).value_at(c)
                }),
            final(loc)@ == old(self).insert_frame(old(loc)@, data),
            old(self).compact() ==> final(self).compact(),
        decreases old(self).spec_dimension(),
    {
        let ghost c0 = loc@;
        let ghost was_compact = self.compact();
        if self.simplified {
            let d = self.data.unwrap();
            if same_value(&d, &data) {
                return;
            }
            self.try_desimplify();
        } else if self.leaf {
            self.make_leaf(false);
        }
        let ghost inner = *self;
        assert(was_compact ==> forall|j: int|
            0 <= j < 8 ==> match #[trigger] inner.children@[j] {
                Some(ch) => ch.compact(),
                None => true,
            }) by {
            assert forall|j: int| was_compact && 0 <= j < 8 implies match #[trigger] inner.children@[j] {
                Some(ch) => ch.compact(),
                None => true,
            } by {
                if let Some(ch) = inner.children@[j] {
                    if ch.leaf {
                        ch.lemma_leaf_compact();
                    }
                }
            }
        }
        assert(forall|c: (int, int, int)|
            in_cube(old(self).dimension as int, c) ==> #[trigger] inner.value_at(c)
                == old(self).value_at(c));
        proof {
            self.lemma_inner();
        }
        let e = self.dimension;
        let child_loc = self.get_child_loc(loc);
        let ghost c1 = loc@;
        let taken = self.children[child_loc].take();
        let mut node = match taken {
            Some(n) => n,
            None => OctreeNode::construct_root(e / 2),
        };
        assert(node.wf() && node.dimension == e / 2);
        let ghost child_before = node;
        if e == 2 {
            node = OctreeNode::new(e, data);
        } else {
            node.insert(loc, data);
        }
        assert forall|x: (int, int, int)| in_cube(e as int / 2, x) implies #[trigger] node.value_at(x)
            == (if x == c1 {
            Some(data)
        } else {
            child_before.value_at(x)
        }) by {}
        assert forall|x: (int, int, int)| in_cube(e as int / 2, x) implies #[trigger] child_before.value_at(x)
            == match inner.children@[child_loc as int] {
            Some(n) => n.value_at(x),
            None => None,
        } by {}
        proof {
            if node.leaf {
                node.lemma_leaf_compact();
            }
        }
        assert(was_compact ==> node.compact());
        assert(node.value_at(c1) == Some(data));
        assert(node.leaf ==> node.data == Some(data));
        self.children[child_loc] = Some(node);
        let ghost placed = *self;
        assert(placed.children@ == inner.children@.update(child_loc as int, Some(node)));
        assert forall|c: (int, int, int)|
            in_cube(e as int, c) implies #[trigger] placed.value_at(c) == (if c == c0 {
                Some(data)
            } else {
                inner.value_at(c)
            }) by {
            let h = e as int / 2;
            let i = octant_of(h, c.0, c.1, c.2);
            let lc = lower3(h, c);
            assert(in_cube(h, lc));
            assert(placed.value_at(c) == match placed.children@[i] {
                Some(ch) => ch.value_at(lc),
                None => None,
            });
            assert(inner.value_at(c) == match inner.children@[i] {
                Some(ch) => ch.value_at(lc),
                None => None,
            });
            if i == child_loc as int {
                assert(placed.children@[i] == Some(node));
                if lc == c1 {
                    lemma_octant_unique(h, c, c0);
                } else {
                    assert(c != c0);
                }
            } else {
                assert(c != c0);
            }
        }
        assert(was_compact ==> forall|j: int|
            0 <= j < 8 ==> match #[trigger] placed.children@[j] {
                Some(ch) => ch.compact(),
                None => true,
            }) by {
            assert forall|j: int| was_compact && 0 <= j < 8 implies match #[trigger] placed.children@[j] {
                Some(ch) => ch.compact(),
                None => true,
            } by {
                if j != child_loc as int {
                    assert(placed.children@[j] == inner.children@[j]);
                }
            }
        }
        self.try_simplify(data, child_loc);
        proof {
            if self.leaf {
                self.lemma_leaf_compact();
            }
        }
    }

    /// Empties the leaf whose region holds voxel `loc` and returns the value it
    /// held. A simplified region is emptied as a whole; nothing is unfolded
    /// or folded.
    pub fn take(&mut self, loc: &mut NodeLoc) -> (r: Option<T>)
        requires
            old(self).wf(),
            in_cube(old(self).spec_dimension(), old(loc)@),
        ensures
            final(self).wf(),
            final(self).spec_dimension() == old(self).spec_dimension(),
            r == old(self).value_at(old(loc)@),
            forall|d: (int, int, int)|
                in_cube(old(self).spec_dimension(), d) ==> #[trigger] final(self).value_at(d) == (
                if old(self).shares_leaf(old(loc)@, d) {
                    None
                } else {
                    old(self).value_at(d)
                }),
            final(loc)@ == old(self).located(old(loc)@),
            final(self).spec_leaf() == old(self).spec_leaf(),
            old(self).spec_leaf() ==> final(self).spec_data().is_none(),
            old(self).compact() ==> final(self).compact(),
            final(self).same_shape(*old(self)),
        decreases old(self).spec_dimension(),
    {
        proof {
            self.lemma_same_shape_refl();
        }
        if self.leaf {
            let r = self.data;
            self.data = None;
            self.simplified = false;
            return r;
        }
        proof {
            self.lemma_inner();
        }
        let ghost before = *self;
        let ghost c0 = loc@;
        let e = self.dimension;
        let child_loc = self.get_child_loc(loc);
        let ghost c1 = loc@;
        let taken = self.children[child_loc].take();
        match taken {
            None => None,
            Some(child) => {
                let mut child = child;
                let ghost child_before = child;
                let r = child.take(loc);
                self.children[child_loc] = Some(child);
                assert(self.children@ =~= before.children@.update(child_loc as int, Some(child)));
                proof {
                    self.lemma_replace_child(before, child_loc as int, child_before, c0);
                    if before.compact() {
                        self.lemma_compact_after_emptying(before, child_loc as int);
                    }
                    assert forall|j: int| 0 <= j < self.children@.len() implies match (#[trigger] self.children@[j], before.children@[j]) {
                        (Some(a), Some(b)) => a.same_shape(b),
                        (None, None) => true,
                        _ => false,
                    } by {
                        if j != child_loc as int {
                            assert(self.children@[j] == before.children@[j]);
                        }
                    }
                }
                r
            },
        }
    }

    /// Empties voxel `loc` as `take` does, then folds each node on the way
    /// back whose children are all absent or empty leaves into an empty leaf.
    pub fn insert_none(&mut self, loc: &mut NodeLoc)
        requires
            old(self).wf(),
            in_cube(old(self).spec_dimension(), old(loc)@),
        ensures
            final(self).wf(),
            final(self).spec_dimension() == old(self).spec_dimension(),
            forall|d: (int, int, int)|
                in_cube(old(self).spec_dimension(), d) ==> #[trigger] final(self).value_at(d) == (
                if old(self).shares_leaf(old(loc)@, d) {
                    None
                } else {
                    old(self).value_at(d)
                }),
            final(loc)@ == old(self).located(old(loc)@),
            final(self).spec_leaf() ==> final(self).spec_data().is_none(),
            final(self).spec_leaf() <==> final(self).holds_nothing(),
            old(self).compact() ==> final(self).compact(),
        decreases old(self).spec_dimension(),
    {
        if self.leaf {
            self.data = None;
            self.simplified = false;
            return;
        }
        proof {
            self.lemma_inner();
        }
        let ghost before = *self;
        let ghost c0 = loc@;
        let child_loc = self.get_child_loc(loc);
        let taken = self.children[child_loc].take();
        match taken {
            None => {
                self.try_simplify_none();
                proof {
                    if self.leaf {
                        self.lemma_leaf_compact();
                    }
                }
            },
            Some(child) => {
                let mut child = child;
                let ghost child_before = child;
                child.insert_none(loc);
                self.children[child_loc] = Some(child);
                assert(self.children@ =~= before.children@.update(child_loc as int, Some(child)));
                proof {
                    self.lemma_replace_child(before, child_loc as int, child_before, c0);
                    if before.compact() {
                        self.lemma_compact_after_emptying(before, child_loc as int);
                    }
                }
                self.try_simplify_none();
                proof {
                    if self.leaf {
                        self.lemma_leaf_compact();
                    }
                }
            },
        }
    }

    /// Folds an inner node whose region holds no value into an empty leaf;
    /// otherwise leaves it as it is.
    fn try_simplify_none(&mut self)
        requires
            old(self).wf(),
            !old(self).leaf,
        ensures
            final(self).wf(),
            final(self).dimension == old(self).dimension,
            final(self).leaf == old(self).holds_nothing(),
            final(self).leaf ==> final(self).data.is_none(),
            !final(self).leaf ==> *final(self) == *old(self),
            forall|c: (int, int, int)|
                in_cube(old(self).dimension as int, c) ==> #[trigger] final(self).value_at(c)
                    == old(self).value_at(c),
    {
        if !self.region_is_empty() {
            return;
        }
        self.data = None;
        self.make_leaf(true);
        self.simplified = false;
    }

    /// Whether no voxel of the node's region holds a value.
    fn region_is_empty(&self) -> (r: bool)
        requires
            self.wf(),
        ensures
            r == self.holds_nothing(),
        decreases self.dimension,
    {
        if self.leaf {
            assert(in_cube(self.dimension as int, (0, 0, 0))) by {
                reveal_with_fuel(is_pow2, 1);
            }
            assert(self.value_at((0, 0, 0)) == self.data);
            return self.data.is_none();
        }
        proof {
            self.lemma_inner();
        }
        let h: u16 = self.dimension / 2;
        let mut i: usize = 0;
        while i < 8
            invariant
                0 <= i <= 8,
                self.wf(),
                !self.leaf,
                self.dimension >= 2,
                h == self.dimension / 2,
                forall|j: int|
                    0 <= j < i ==> match #[trigger] self.children@[j] {
                        Some(ch) => ch.holds_nothing(),
                        None => true,
                    },
            decreases 8 - i,
        {
            match &self.children[i] {
                Some(child) => {
                    assert(self.children@[i as int] == Some(*child));
                    if !child.region_is_empty() {
                        proof {
                            let d = choose|d: (int, int, int)|
                                in_cube(child.spec_dimension(), d) && !(child.value_at(d).is_none());
                            lemma_raise(h as int, i as int, d);
                            assert(self.value_at(raise3(h as int, i as int, d)) == child.value_at(d));
                        }
                        return false;
                    }
                },
                None => {},
            }
            i = i + 1;
        }
        assert forall|c: (int, int, int)| in_cube(self.spec_dimension(), c) implies #[trigger] self.value_at(c).is_none() by {
            let j = octant_of(h as int, c.0, c.1, c.2);
            assert(in_cube(h as int, lower3(h as int, c)));
            if let Some(ch) = self.children@[j] {
                assert(ch.value_at(lower3(h as int, c)).is_none());
            }
        }
        true
    }

    /// The leaf whose region holds voxel `loc`, if the path to it is complete.
    pub fn node_as_ref(&self, loc: &mut NodeLoc) -> (r: Option<&OctreeNode<T>>)
        requires
            self.wf(),
            in_cube(self.spec_dimension(), old(loc)@),
        ensures
            match r {
                Some(n) => self.leaf_at(old(loc)@) == Some(*n),
                None => self.leaf_at(old(loc)@).is_none(),
            },
            match r {
                Some(n) => n.wf() && n.spec_leaf() && n.spec_data() == self.value_at(old(loc)@)
                    && is_pow2(n.spec_dimension()) && n.spec_dimension() <= self.spec_dimension(),
                None => self.value_at(old(loc)@).is_none(),
            },
            final(loc)@ == self.located(old(loc)@),
        decreases self,
    {
        proof {
            if self.leaf_at(loc@) is Some {
                self.lemma_leaf_at_size(loc@);
            } else {
                self.lemma_leaf_at_none(loc@);
            }
        }
        if self.leaf {
            return Some(self);
        }
        proof {
            self.lemma_inner();
        }
        let child_loc = self.get_child_loc(loc);
        match &self.children[child_loc] {
            None => None,
            Some(child) => {
                assert(self.children@[child_loc as int] == Some(*child));
                child.node_as_ref(loc)
            },
        }
    }

    /// A copy of the eight child slots.
    pub fn children(&self) -> (r: Vec<Option<OctreeNode<T>>>)
        requires
            self.wf(),
        ensures
            r@.len() == 8,
            forall|i: int|
                0 <= i < 8 ==> match (#[trigger] r@[i], self.spec_children()[i]) {
                    (Some(a), Some(b)) => a.copy_of(b),
                    (None, None) => true,
                    _ => false,
                },
    {
        self.copy_children()
    }

    fn copy_children(&self) -> (r: Vec<Option<OctreeNode<T>>>)
        requires
            self.wf(),
        ensures
            r@.len() == 8,
            forall|i: int|
                0 <= i < 8 ==> match (#[trigger] r@[i], self.children@[i]) {
                    (Some(a), Some(b)) => a.copy_of(b),
                    (None, None) => true,
                    _ => false,
                },
        decreases self.dimension, 0int,
    {
        let mut r: Vec<Option<OctreeNode<T>>> = Vec::new();
        let mut i: usize = 0;
        while i < 8
            invariant
                0 <= i <= 8,
                self.wf(),
                r@.len() == i,
                forall|j: int|
                    0 <= j < i ==> match (#[trigger] r@[j], self.children@[j]) {
                        (Some(a), Some(b)) => a.copy_of(b),
                        (None, None) => true,
                        _ => false,
                    },
            decreases 8 - i,
        {
            match &self.children[i] {
                Some(child) => {
                    assert(self.children@[i as int] == Some(*child));
                    r.push(Some(child.copy_node()));
                },
                None => {
                    r.push(None);
                },
            }
            i = i + 1;
        }
        r
    }

    /// A deep copy of the node and everything below it.
    fn copy_node(&self) -> (r: OctreeNode<T>)
        requires
            self.wf(),
        ensures
            r.copy_of(*self),
        decreases self.dimension, 1int,
    {
        let children = if self.leaf {
            no_children()
        } else {
            proof {
                self.lemma_inner();
            }
            self.copy_children()
        };
        let r = OctreeNode {
            dimension: self.dimension,
            leaf: self.leaf,
            simplified: self.simplified,
            children,
            data: self.data,
        };
        assert forall|c: (int, int, int)| #[trigger] r.value_at(c) == self.value_at(c) by {
            if !self.leaf {
                let h = self.dimension as int / 2;
                let i = octant_of(h, c.0, c.1, c.2);
                assert(0 <= i < 8);
                if let Some(a) = r.children@[i] {
                    assert(a.value_at(lower3(h, c)) == self.children@[i]->0.value_at(lower3(h, c)));
                }
            }
        }
        r
    }

    /// Appends to `out` the values held by the nodes of this subtree, depth first.
    pub fn collect(&self, out: &mut Vec<T>)
        requires
            self.wf(),
        ensures
            final(out)@ == old(out)@ + self.values(),
        decreases self.spec_dimension(),
    {
        match self.data {
            Some(v) => out.push(v),
            None => {},
        }
        let ghost base = out@;
        if !self.leaf {
            proof {
                self.lemma_inner();
            }
        }
        let mut k: usize = 8;
        while k > 0
            invariant
                0 <= k <= 8,
                self.wf(),
                !self.leaf ==> self.dimension >= 2,
                out@ == base + self.values_top(k as int),
            decreases k,
        {
            k = k - 1;
            assert(self.values_top(k as int) == self.values_top(k as int + 1) + match self.children@[k as int] {
                Some(ch) => ch.values(),
                None => Seq::empty(),
            }) by {
                if self.children@[k as int] is None {
                    assert(self.values_top(k as int + 1) + Seq::<T>::empty() =~= self.values_top(k as int + 1));
                }
            }
            match &self.children[k] {
                Some(child) => {
                    assert(self.children@[k as int] == Some(*child));
                    child.collect(out);
                },
                None => {},
            }
            assert(out@ =~= base + self.values_top(k as int));
        }
    }

    /// Folds a simplified leaf back out: each of the eight octants becomes a
    /// leaf that holds the old value for its whole region.
    fn try_desimplify(&mut self)
        requires
            old(self).wf(),
            old(self).simplified,
        ensures
            final(self).wf(),
            !final(self).leaf,
            final(self).dimension == old(self).dimension,
            forall|i: int|
                0 <= i < 8 ==> match #[trigger] final(self).children@[i] {
                    Some(ch) => ch.leaf && ch.data == old(self).data,
                    None => false,
                },
            forall|c: (int, int, int)|
                in_cube(old(self).dimension as int, c) ==> #[trigger] final(self).value_at(c)
                    == old(self).value_at(c),
    {
        let d = self.data.unwrap();
        let e = self.dimension;
        proof {
            reveal_with_fuel(is_pow2, 2);
        }
        let mut children: Vec<Option<OctreeNode<T>>> = Vec::new();
        let mut i: usize = 0;
        while i < 8
            invariant
                0 <= i <= 8,
                children@.len() == i,
                is_pow2(e as int),
                e >= 2,
                forall|j: int|
                    0 <= j < i ==> match #[trigger] children@[j] {
                        Some(ch) => ch.wf() && ch.dimension == e / 2 && ch.leaf && ch.data == Some(
                            d,
                        ),
                        None => false,
                    },
            decreases 8 - i,
        {
            children.push(Some(OctreeNode::new(e, d)));
            i = i + 1;
        }
        self.children = children;
        self.leaf = false;
        self.simplified = false;
        self.data = None;
        assert forall|c: (int, int, int)|
            in_cube(old(self).dimension as int, c) implies #[trigger] self.value_at(c)
            == old(self).value_at(c) by {
            let i = octant_of(e as int / 2, c.0, c.1, c.2);
            let ch = self.children@[i]->0;
            assert(ch.value_at(lower3(e as int / 2, c)) == Some(d));
        }
    }

    /// Folds an inner node into a simplified leaf when all eight children are
    /// leaves that hold `data`; otherwise leaves it as it is.
    fn try_simplify(&mut self, data: T, written: usize)
        requires
            old(self).wf(),
            !old(self).leaf,
            vstd::laws_eq::obeys_concrete_eq::<T>(),
            written < 8,
            old(self).children@[written as int] matches Some(ch) && (ch.leaf ==> ch.data == Some(
                data,
            )),
        ensures
            final(self).wf(),
            final(self).dimension == old(self).dimension,
            final(self).leaf == old(self).foldable(),
            final(self).leaf ==> final(self).data == Some(data) && final(self).simplified,
            final(self).leaf ==> forall|i: int| 0 <= i < 8 ==> (#[trigger] final(self).children@[i]) is None,
            !final(self).leaf ==> *final(self) == *old(self),
            forall|c: (int, int, int)|
                in_cube(old(self).dimension as int, c) ==> #[trigger] final(self).value_at(c)
                    == old(self).value_at(c),
    {
        proof {
            self.lemma_inner();
        }
        let mut i: usize = 0;
        while i < 8
            invariant
                0 <= i <= 8,
                *self == *old(self),
                self.wf(),
                !self.leaf,
                self.dimension >= 2,
                vstd::laws_eq::obeys_concrete_eq::<T>(),
                written < 8,
                self.children@[written as int] matches Some(ch) && (ch.leaf ==> ch.data == Some(
                    data,
                )),
                forall|j: int|
                    0 <= j < i ==> match #[trigger] self.children@[j] {
                        Some(ch) => ch.leaf && ch.data == Some(data),
                        None => false,
                    },
            decreases 8 - i,
        {
            match &self.children[i] {
                Some(child) => {
                    if !child.leaf {
                        return;
                    }
                    match child.data {
                        Some(v) => {
                            if !same_value(&v, &data) {
                                return;
                            }
                        },
                        None => {
                            return;
                        },
                    }
                },
                None => {
                    return;
                },
            }
            i = i + 1;
        }
        let ghost before = *self;
        assert(before.foldable());
        self.data = Some(data);
        self.make_leaf(true);
        self.simplified = true;
        assert forall|c: (int, int, int)|
            in_cube(before.dimension as int, c) implies #[trigger] self.value_at(c)
            == before.value_at(c) by {
            let i = octant_of(before.dimension as int / 2, c.0, c.1, c.2);
            let ch = before.children@[i]->0;
            assert(ch.value_at(lower3(before.dimension as int / 2, c)) == Some(data));
        }
    }

    /// Marks the node a leaf or an inner node; a leaf loses its children.
    fn make_leaf(&mut self, state: bool)
        ensures
            final(self).leaf == state,
            final(self).dimension == old(self).dimension,
            final(self).simplified == old(self).simplified,
            final(self).data == old(self).data,
            state ==> final(self).children@.len() == 8,
            state ==> forall|i: int| 0 <= i < 8 ==> (#[trigger] final(self).children@[i]).is_none(),
            !state ==> final(self).children@ == old(self).children@,
    {
        self.leaf = state;
        if state {
            self.children = no_children();
        }
    }
}

/// Eight empty child slots.
fn no_children<T>() -> (r: Vec<Option<OctreeNode<T>>>)
    ensures
        r@.len() == 8,
        forall|i: int| 0 <= i < 8 ==> (#[trigger] r@[i]).is_none(),
{
    vec![None, None, None, None, None, None, None, None]
}

} // verus!
