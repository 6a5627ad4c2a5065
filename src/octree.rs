use vstd::prelude::*;
use crate::error::OctreeError;
use crate::node::{in_cube, is_pow2, lemma_same_block_refl, same_block, OctreeNode};
use crate::types::NodeLoc;

verus! {

/// Two raised to `k`.
pub open spec fn pow2_of(k: nat) -> int
    decreases k,
{
    if k == 0 {
        1
    } else {
        2 * pow2_of((k - 1) as nat)
    }
}

/// Edge lengths a tree can be built with: the powers of two from two up, so
/// that halving at each level ends at voxels of edge one.
pub open spec fn valid_dimension(d: int) -> bool {
    d >= 2 && is_pow2(d)
}

/// The axis triple of a position given as an array.
pub open spec fn coords(loc: [u16; 3]) -> (int, int, int) {
    (loc@[0] as int, loc@[1] as int, loc@[2] as int)
}

proof fn lemma_pow2_large(k: nat)
    requires
        k >= 16,
    ensures
        pow2_of(k) >= 65536,
    decreases k,
{
    if k > 16 {
        lemma_pow2_large((k - 1) as nat);
    } else {
        reveal_with_fuel(pow2_of, 17);
    }
}

proof fn lemma_pow2_positive(k: nat)
    ensures
        pow2_of(k) >= 1,
    decreases k,
{
    if k > 0 {
        lemma_pow2_positive((k - 1) as nat);
    }
}

/// Reading back what was written: after `insert` of `v` at a position inside
/// the tree, `at` of that position returns `v`.
pub proof fn law_insert_then_at<T>(t: Octree<T>, loc: [u16; 3], v: T)
    requires
        t.wf(),
        in_cube(t.spec_dimension(), coords(loc)),
    ensures
        t@.insert(coords(loc), v).get(coords(loc)) == Some(v),
{
}

/// Removal: after `insert` of `v` at a position, `take` there returns `v`,
/// and afterwards both `at` and a second `take` there return nothing.
/// `t1` is the tree as the insert left it.
pub proof fn law_take_after_insert<T>(t: Octree<T>, t1: Octree<T>, loc: [u16; 3], v: T)
    requires
        t.wf(),
        t1.wf(),
        in_cube(t.spec_dimension(), coords(loc)),
        t1.spec_dimension() == t.spec_dimension(),
        t1@ == t@.insert(coords(loc), v),
    ensures
        t1@.get(coords(loc)) == Some(v),
        t1@.remove_keys(Set::new(|d: (int, int, int)| t1.shares_leaf(coords(loc), d))).get(
            coords(loc),
        ).is_none(),
{
    t1.lemma_holder_shares_leaf(coords(loc));
}

/// Clearing: after `insert` of `v` at a position and `insert_none` there,
/// `at` there returns nothing. `t1` is the tree as the insert left it.
pub proof fn law_insert_none_after_insert<T>(t: Octree<T>, t1: Octree<T>, loc: [u16; 3], v: T)
    requires
        t.wf(),
        t1.wf(),
        in_cube(t.spec_dimension(), coords(loc)),
        t1.spec_dimension() == t.spec_dimension(),
        t1@ == t@.insert(coords(loc), v),
    ensures
        t1@.remove_keys(Set::new(|d: (int, int, int)| t1.shares_leaf(coords(loc), d))).get(
            coords(loc),
        ).is_none(),
{
    t1.lemma_holder_shares_leaf(coords(loc));
}

/// Unfolding a simplified region: when `v` is written at one voxel of a leaf's
/// region, that voxel reads `v` and every other voxel of the region still
/// reads the value the region held. `t1` is the tree as the insert left it.
pub proof fn law_insert_into_region<T>(
    t: Octree<T>,
    t1: Octree<T>,
    loc: [u16; 3],
    d: (int, int, int),
    v: T,
)
    requires
        t.wf(),
        in_cube(t.spec_dimension(), coords(loc)),
        t.shares_leaf(coords(loc), d),
        d != coords(loc),
        t1@ == t@.insert(coords(loc), v),
    ensures
        t1@.get(coords(loc)) == Some(v),
        t1@.get(d) == t@.get(coords(loc)),
{
    t.lemma_region_uniform(coords(loc), d);
}

/// Traversal completeness: when no two voxels of the tree hold the same value
/// (as after inserts of distinct values at distinct positions), a traversal
/// yields every held value exactly once and nothing else.
pub proof fn law_traversal_complete<T>(t: Octree<T>)
    requires
        t.wf(),
        forall|c: (int, int, int), d: (int, int, int)|
            t@.contains_key(c) && t@.contains_key(d) && #[trigger] t@[c] == #[trigger] t@[d] ==> c
                == d,
    ensures
        t.stored().no_duplicates(),
        t.stored().to_set() == t@.values(),
{
    let root = t.root_node();
    assert forall|c: (int, int, int), d: (int, int, int)|
        in_cube(root.spec_dimension(), c) && in_cube(root.spec_dimension(), d)
            && root.value_at(c).is_some() && #[trigger] root.value_at(c)
            == #[trigger] root.value_at(d) implies c == d by {
        assert(t@.contains_key(c) && t@.contains_key(d) && t@[c] == t@[d]);
    }
    root.lemma_values_distinct();
    assert forall|v: T| #[trigger] t.stored().to_set().contains(v) <==> t@.values().contains(v) by {
        if root.holds(v) {
            let c = choose|c: (int, int, int)| in_cube(root.spec_dimension(), c) && root.value_at(c) == Some(v);
            assert(t@.contains_key(c) && t@[c] == v);
        }
        if t@.values().contains(v) {
            let c = choose|c: (int, int, int)| t@.contains_key(c) && t@[c] == v;
            assert(root.value_at(c) == Some(v));
        }
    }
    assert(t.stored().to_set() =~= t@.values());
}

/// Uniform collapse: in a compact tree, when every voxel of the aligned block
/// of edge `k` around a position holds `v`, the leaf that holds the position
/// spans that block or more; `node_as_ref` then reports an edge of at least `k`.
pub proof fn law_uniform_block_folds<T>(t: Octree<T>, loc: [u16; 3], k: int, v: T)
    requires
        t.wf(),
        t.compact(),
        is_pow2(k),
        k <= t.spec_dimension(),
        in_cube(t.spec_dimension(), coords(loc)),
        forall|d: (int, int, int)|
            in_cube(t.spec_dimension(), d) && same_block(t.spec_dimension(), k, coords(loc), d)
                ==> #[trigger] t@.get(d) == Some(v),
    ensures
        t.root_node().leaf_at(coords(loc)) matches Some(n) && n.spec_dimension() >= k
            && n.spec_leaf() && n.spec_data() == Some(v) && is_pow2(n.spec_dimension()),
{
    let root = t.root_node();
    assert forall|d: (int, int, int)|
        in_cube(root.spec_dimension(), d) && same_block(root.spec_dimension(), k, coords(loc), d)
            implies #[trigger] root.value_at(d) == Some(v) by {
        assert(t@.get(d) == Some(v));
    }
    root.lemma_uniform_block(coords(loc), k, v);
    root.lemma_leaf_at_size(coords(loc));
    lemma_same_block_refl(t.spec_dimension(), k, coords(loc));
    assert(t@.get(coords(loc)) == Some(v));
}

/// No early collapse: when the leaf that holds a position has edge `k` or
/// more, every voxel of the aligned block of edge `k` around it holds the
/// same value. So while one voxel of an edge-two block differs (seven of eight
/// written), the leaf there has edge one.
pub proof fn law_leaf_block_uniform<T>(t: Octree<T>, loc: [u16; 3], d: (int, int, int), k: int)
    requires
        t.wf(),
        in_cube(t.spec_dimension(), coords(loc)),
        in_cube(t.spec_dimension(), d),
        t.root_node().leaf_at(coords(loc)) matches Some(n) && n.spec_dimension() >= k,
        same_block(t.spec_dimension(), k, coords(loc), d),
    ensures
        t@.get(coords(loc)) == t@.get(d),
{
    t.root_node().lemma_leaf_covers_block(coords(loc), d, k);
    t.lemma_region_uniform(coords(loc), d);
}

/// A cubic volume of voxels of edge `dimension`, each of which may hold a
/// value; regions whose voxels all hold one value are stored as one node.
#[derive(Debug)]
pub struct Octree<T> {
    dimension: u16,
    max_depth: u8,
    root: Box<OctreeNode<T>>,
}

impl<T> Octree<T> {
    pub closed spec fn spec_dimension(self) -> int {
        self.dimension as int
    }

    pub closed spec fn spec_max_depth(self) -> int {
        self.max_depth as int
    }

    pub closed spec fn root_node(self) -> OctreeNode<T> {
        *self.root
    }

    /// The edge is valid, the depth is the number of halvings from the edge
    /// down to one, and the root is a well-formed node of the tree's edge.
    pub closed spec fn wf(self) -> bool {
        &&& valid_dimension(self.dimension as int)
        &&& pow2_of(self.max_depth as nat) == self.dimension
        &&& self.root.wf()
        &&& self.root.spec_dimension() == self.dimension
    }

    /// Voxels `c` and `d` both lie inside the tree and in the region of one leaf.
    pub closed spec fn shares_leaf(self, c: (int, int, int), d: (int, int, int)) -> bool {
        in_cube(self.dimension as int, c) && in_cube(self.dimension as int, d)
            && self.root.shares_leaf(c, d)
    }

    /// The values held by the tree's nodes, in the order a traversal records them.
    pub closed spec fn stored(self) -> Seq<T> {
        self.root.values()
    }

    /// Every region whose eight parts are leaves of one value has been folded.
    /// A new tree is compact, and every operation keeps it so.
    pub closed spec fn compact(self) -> bool {
        self.root.compact()
    }

    /// A voxel that holds a value shares a leaf with itself.
    pub proof fn lemma_holder_shares_leaf(self, c: (int, int, int))
        requires
            self.wf(),
            self@.contains_key(c),
        ensures
            self.shares_leaf(c, c),
    {
        self.root.lemma_shares_leaf_self(c);
    }

    /// Only voxels inside the tree hold values.
    pub proof fn lemma_view_in_cube(self, c: (int, int, int))
        requires
            self@.contains_key(c),
        ensures
            in_cube(self.spec_dimension(), c),
    {
    }

    /// The region of a leaf of edge one is its own voxel alone: `take` and
    /// `insert_none` there leave every other voxel as it was.
    pub proof fn lemma_unit_leaf_alone(self, c: (int, int, int), d: (int, int, int))
        requires
            self.wf(),
            self.root_node().leaf_at(c) matches Some(n) && n.spec_dimension() == 1,
            self.shares_leaf(c, d),
        ensures
            c == d,
    {
        self.root.lemma_unit_leaf_alone(c, d);
    }

    /// Voxels that share a leaf hold the same value.
    pub proof fn lemma_region_uniform(self, c: (int, int, int), d: (int, int, int))
        requires
            self.wf(),
            self.shares_leaf(c, d),
        ensures
            self@.get(c) == self@.get(d),
    {
        self.root.lemma_leaf_uniform(c, d);
    }
}

impl<T> View for Octree<T> {
    type V = Map<(int, int, int), T>;

    /// The voxels inside the tree that hold a value, each with its value.
    closed spec fn view(&self) -> Map<(int, int, int), T> {
        Map::new(
            |c: (int, int, int)| in_cube(self.dimension as int, c) && self.root.value_at(c).is_some(),
            |c: (int, int, int)| self.root.value_at(c)->0,
        )
    }
}

impl<T: Copy + PartialEq> Octree<T> {
    /// An empty tree of edge `dimension`, refused unless the edge is a power of
    /// two of at least two.
    pub fn new(dimension: u16) -> (r: Result<Octree<T>, OctreeError>)
        ensures
            r.is_ok() <==> valid_dimension(dimension as int),
            match r {
                Ok(t) => t.wf() && t.compact() && t.spec_dimension() == dimension && t@ == Map::<
                    (int, int, int),
                    T,
                >::empty() && pow2_of(t.spec_max_depth() as nat) == dimension,
                Err(e) => e == OctreeError::DimensionError,
            },
    {
        let mut n: u16 = dimension;
        let mut depth: u8 = 0;
        while n > 1 && n % 2 == 0
            invariant
                pow2_of(depth as nat) * n == dimension,
                is_pow2(n as int) == is_pow2(dimension as int),
            decreases n,
        {
            proof {
                lemma_pow2_positive(depth as nat);
                assert(pow2_of(depth as nat) * 2 <= dimension) by (nonlinear_arith)
                    requires
                        pow2_of(depth as nat) * n == dimension,
                        n >= 2,
                        pow2_of(depth as nat) >= 1,
                ;
                if depth >= 16 {
                    lemma_pow2_large(depth as nat);
                }
                assert(pow2_of((depth + 1) as nat) * (n / 2) == dimension) by (nonlinear_arith)
                    requires
                        pow2_of(depth as nat) * n == dimension,
                        pow2_of((depth + 1) as nat) == 2 * pow2_of(depth as nat),
                        n % 2 == 0,
                ;
            }
            n = n / 2;
            depth = depth + 1;
        }
        if n == 1 && dimension >= 2 {
            let root = OctreeNode::construct_root(dimension);
            proof {
                root.lemma_leaf_compact();
            }
            let t = Octree { dimension, max_depth: depth, root: Box::new(root) };
            assert(t@ =~= Map::<(int, int, int), T>::empty()) by {
                assert forall|c: (int, int, int)| !t@.dom().contains(c) by {
                    assert(root.value_at(c).is_none());
                }
            }
            Ok(t)
        } else {
            proof {
                if n == 0 {
                    assert(dimension == 0) by (nonlinear_arith)
                        requires
                            pow2_of(depth as nat) * n == dimension,
                            n == 0,
                    ;
                }
            }
            Err(OctreeError::DimensionError)
        }
    }

    /// Writes `data` at voxel `loc`; a position outside the tree is refused
    /// and the tree is left as it was.
    pub fn insert(&mut self, loc: [u16; 3], data: T) -> (r: Result<(), OctreeError>)
        requires
            old(self).wf(),
            vstd::laws_eq::obeys_concrete_eq::<T>(),
        ensures
            final(self).wf(),
            final(self).spec_dimension() == old(self).spec_dimension(),
            old(self).compact() ==> final(self).compact(),
            r.is_ok() <==> in_cube(old(self).spec_dimension(), coords(loc)),
            r.is_ok() ==> final(self)@ == old(self)@.insert(coords(loc), data),
            r.is_err() ==> r == Err::<(), OctreeError>(OctreeError::OutOfBoundsError),
            r.is_err() ==> *final(self) == *old(self),
    {
        let mut node_loc = self.loc_from_array(loc);
        if self.contains_loc(&node_loc) {
            let ghost before = *self;
            self.root.insert(&mut node_loc, data);
            assert(self@ =~= before@.insert(coords(loc), data));
            Ok(())
        } else {
            Err(OctreeError::OutOfBoundsError)
        }
    }

    /// The value at voxel `loc`; none outside the tree.
    pub fn at(&self, loc: [u16; 3]) -> (r: Option<T>)
        requires
            self.wf(),
        ensures
            r == self@.get(coords(loc)),
            !in_cube(self.spec_dimension(), coords(loc)) ==> r.is_none(),
    {
        let mut node_loc = self.loc_from_array(loc);
        if self.contains_loc(&node_loc) {
            self.root.at(&mut node_loc)
        } else {
            None
        }
    }

    /// Empties the leaf whose region holds voxel `loc` and returns the value
    /// voxel `loc` held; outside the tree nothing changes.
    pub fn take(&mut self, loc: [u16; 3]) -> (r: Option<T>)
        requires
            old(self).wf(),
        ensures
            final(self).wf(),
            final(self).spec_dimension() == old(self).spec_dimension(),
            r == old(self)@.get(coords(loc)),
            !in_cube(old(self).spec_dimension(), coords(loc)) ==> r.is_none() && *final(self)
                == *old(self),
            final(self).root_node().same_shape(old(self).root_node()),
            old(self).compact() ==> final(self).compact(),
            final(self)@ == old(self)@.remove_keys(
                Set::new(|d: (int, int, int)| old(self).shares_leaf(coords(loc), d)),
            ),
    {
        let mut node_loc = self.loc_from_array(loc);
        let ghost before = *self;
        proof {
            self.root.lemma_same_shape_refl();
        }
        if self.contains_loc(&node_loc) {
            let r = self.root.take(&mut node_loc);
            assert(self@ =~= before@.remove_keys(
                Set::new(|d: (int, int, int)| before.shares_leaf(coords(loc), d)),
            ));
            r
        } else {
            assert(self@ =~= before@.remove_keys(
                Set::new(|d: (int, int, int)| before.shares_leaf(coords(loc), d)),
            ));
            None
        }
    }

    /// Empties voxel `loc` as `take` does, discarding the value, and folds
    /// the nodes on the way that came to hold nothing.
    pub fn insert_none(&mut self, loc: [u16; 3])
        requires
            old(self).wf(),
        ensures
            final(self).wf(),
            final(self).spec_dimension() == old(self).spec_dimension(),
            old(self).compact() ==> final(self).compact(),
            !in_cube(old(self).spec_dimension(), coords(loc)) ==> *final(self) == *old(self),
            in_cube(old(self).spec_dimension(), coords(loc)) ==> (final(self).root_node().spec_leaf()
                <==> final(self)@ == Map::<(int, int, int), T>::empty()),
            final(self)@ == old(self)@.remove_keys(
                Set::new(|d: (int, int, int)| old(self).shares_leaf(coords(loc), d)),
            ),
    {
        let mut node_loc = self.loc_from_array(loc);
        let ghost before = *self;
        if self.contains_loc(&node_loc) {
            self.root.insert_none(&mut node_loc);
            let ghost root = *self.root;
            assert(root.holds_nothing() <==> self@ =~= Map::<(int, int, int), T>::empty()) by {
                if !root.holds_nothing() {
                    let c = choose|c: (int, int, int)| in_cube(root.spec_dimension(), c) && !(root.value_at(c).is_none());
                    assert(self@.contains_key(c));
                }
                if root.holds_nothing() {
                    assert forall|c: (int, int, int)| !self@.contains_key(c) by {
                        if in_cube(root.spec_dimension(), c) {
                            assert(root.value_at(c).is_none());
                        }
                    }
                }
            }
        }
        assert(self@ =~= before@.remove_keys(
            Set::new(|d: (int, int, int)| before.shares_leaf(coords(loc), d)),
        ));
    }

    /// Edge length of the tree.
    pub fn dimension(&self) -> (r: u16)
        ensures
            r == self.spec_dimension(),
    {
        self.dimension
    }

    /// Number of levels below the root: the edge is two raised to it.
    pub fn max_depth(&self) -> (r: u8)
        requires
            self.wf(),
        ensures
            r == self.spec_max_depth(),
            pow2_of(r as nat) == self.spec_dimension(),
    {
        self.max_depth
    }

    /// The leaf whose region holds voxel `loc`; none outside the tree or
    /// where the path to it is incomplete.
    pub fn node_as_ref(&self, loc: [u16; 3]) -> (r: Option<&OctreeNode<T>>)
        requires
            self.wf(),
        ensures
            !in_cube(self.spec_dimension(), coords(loc)) ==> r.is_none(),
            in_cube(self.spec_dimension(), coords(loc)) ==> match r {
                Some(n) => self.root_node().leaf_at(coords(loc)) == Some(*n),
                None => self.root_node().leaf_at(coords(loc)).is_none(),
            },
            match r {
                Some(n) => n.spec_leaf() && n.spec_data() == self@.get(coords(loc)) && is_pow2(
                    n.spec_dimension(),
                ) && n.spec_dimension() <= self.spec_dimension(),
                None => self@.get(coords(loc)).is_none(),
            },
    {
        let mut node_loc = self.loc_from_array(loc);
        if self.contains_loc(&node_loc) {
            self.root.node_as_ref(&mut node_loc)
        } else {
            None
        }
    }

    /// The values held by the tree's nodes, depth first; the tree stays as it is.
    pub fn iter(&mut self) -> (r: OctreeIterator<T>)
        requires
            old(self).wf(),
        ensures
            *final(self) == *old(self),
            r.remaining() == old(self).stored(),
    {
        OctreeIterator::new_from_ref(&self)
    }

    /// The values held by the tree's nodes, depth first, consuming the tree.
    pub fn into_iter(self) -> (r: OctreeIterator<T>)
        requires
            self.wf(),
        ensures
            r.remaining() == self.stored(),
    {
        OctreeIterator::new(self)
    }

    fn loc_from_array(&self, array: [u16; 3]) -> (r: NodeLoc)
        ensures
            r@ == coords(array),
    {
        NodeLoc::new((array[0], array[1], array[2]))
    }

    /// The position lies inside the tree on every axis.
    fn contains_loc(&self, loc: &NodeLoc) -> (r: bool)
        ensures
            r == in_cube(self.dimension as int, loc@),
    {
        loc.x() < self.dimension && loc.y() < self.dimension && loc.z() < self.dimension
    }
}

/// The values of a tree, handed out one at a time.
#[derive(Debug)]
pub struct OctreeIterator<T> {
    value_stack: Vec<T>,
}

impl<T> OctreeIterator<T> {
    /// The values still to come, the next one last.
    pub closed spec fn remaining(self) -> Seq<T> {
        self.value_stack@
    }
}

impl<T: Copy + PartialEq> OctreeIterator<T> {
    fn new(octree: Octree<T>) -> (r: OctreeIterator<T>)
        requires
            octree.wf(),
        ensures
            r.remaining() == octree.stored(),
    {
        OctreeIterator::new_from_ref(&octree)
    }

    fn new_from_ref(octree: &Octree<T>) -> (r: OctreeIterator<T>)
        requires
            octree.wf(),
        ensures
            r.remaining() == octree.stored(),
    {
        let mut iter = OctreeIterator { value_stack: Vec::new() };
        iter.dfs(&octree.root);
        iter
    }

    /// Records the values of the subtree under `node`, depth first.
    fn dfs(&mut self, node: &OctreeNode<T>)
        requires
            node.wf(),
        ensures
            final(self).value_stack@ == old(self).value_stack@ + node.values(),
    {
        node.collect(&mut self.value_stack);
    }

    /// The next value, if any is left.
    pub fn next(&mut self) -> (r: Option<T>)
        ensures
            old(self).remaining().len() == 0 ==> r.is_none() && final(self).remaining()
                == old(self).remaining(),
            old(self).remaining().len() > 0 ==> r == Some(old(self).remaining().last())
                && final(self).remaining() == old(self).remaining().drop_last(),
    {
        self.value_stack.pop()
    }

    /// Skips `n` values and returns the one after them, if any is left.
    pub fn nth(&mut self, n: usize) -> (r: Option<T>)
        ensures
            n < old(self).remaining().len() ==> r == Some(
                old(self).remaining()[old(self).remaining().len() - 1 - n],
            ) && final(self).remaining() == old(self).remaining().subrange(
                0,
                old(self).remaining().len() - 1 - n,
            ),
            n >= old(self).remaining().len() ==> r.is_none() && final(self).remaining().len()
                == 0,
    {
        let mut i: usize = 0;
        while i < n
            invariant
                0 <= i <= n,
                self.value_stack@ == old(self).value_stack@.subrange(
                    0,
                    if old(self).value_stack@.len() >= i {
                        old(self).value_stack@.len() - i
                    } else {
                        0
                    },
                ),
            decreases n - i,
        {
            if self.value_stack.pop().is_none() {
                return None;
            }
            i = i + 1;
        }
        self.value_stack.pop()
    }
}

} // verus!
