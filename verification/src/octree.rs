//! Level-of-detail octree: the spatial index over generated terrain.
//!
//! Nodes live in an arena ([`Octree::nodes`]) rather than as owned
//! parent/child references: a branch records the arena index of its first
//! child, and its eight children sit consecutively, each covering one
//! octant of the parent's region one level finer.  Keys are [`Bounds`]
//! values; a lookup descends from the root through the octant that contains
//! the key.

use vstd::prelude::*;
use vstd::pervasive::VecAdditionalExecFns;
use vstd::arithmetic::power2::{
    pow2,
    lemma_pow2_pos,
    lemma_pow2_adds,
    lemma_pow2_strictly_increases,
    lemma2_to64,
};
use vstd::arithmetic::div_mod::{lemma_div_denominator, lemma_fundamental_div_mod};
use vstd::bits::lemma_u32_shl_is_mul;
use crate::protocol::Voxel;
use crate::space::{Aabb, Bounds};

verus! {

/// Region `inner` is one of the grid cells into which `outer` subdivides:
/// on each axis, `outer`'s coordinate is `inner`'s scaled down by the
/// difference in level.
pub open spec fn spec_inside(inner: Bounds, outer: Bounds) -> bool {
    &&& inner.lg_size <= outer.lg_size
    &&& outer.x == inner.x as int / pow2((outer.lg_size - inner.lg_size) as nat) as int
    &&& outer.y == inner.y as int / pow2((outer.lg_size - inner.lg_size) as nat) as int
    &&& outer.z == inner.z as int / pow2((outer.lg_size - inner.lg_size) as nat) as int
}

/// Which octant of `outer` the strictly-inside region `inner` falls in.
pub open spec fn spec_octant_index(outer: Bounds, inner: Bounds) -> int {
    let s = pow2((outer.lg_size - 1 - inner.lg_size) as nat) as int;
    let dx = inner.x as int / s - 2 * outer.x;
    let dy = inner.y as int / s - 2 * outer.y;
    let dz = inner.z as int / s - 2 * outer.z;
    dx + 2 * dy + 4 * dz
}

/// One axis of the descent step: scaling by `2^(d+1)` is scaling by `2^d`
/// and then halving, so the once-scaled coordinate is the doubled
/// twice-scaled coordinate plus a bit.
proof fn lemma_axis_descent(xi: int, xo: int, d: nat)
    requires
        xi >= 0,
        xo == xi / pow2((d + 1) as nat) as int,
    ensures
        ({
            let q = xi / pow2(d) as int;
            q == 2 * xo || q == 2 * xo + 1
        }),
{
    lemma_pow2_adds(d, 1);
    lemma2_to64();
    lemma_pow2_pos(d);
    let q = xi / pow2(d) as int;
    lemma_div_denominator(xi, pow2(d) as int, 2);
    assert(q / 2 == xo);
    lemma_fundamental_div_mod(q, 2);
}

/// A region equal in size to the one it sits inside is that region.
pub proof fn lemma_inside_same_size(inner: Bounds, outer: Bounds)
    requires
        spec_inside(inner, outer),
        inner.lg_size == outer.lg_size,
    ensures
        inner == outer,
{
    lemma2_to64();
    assert(inner.x as int / 1 == inner.x as int);
    assert(inner.y as int / 1 == inner.y as int);
    assert(inner.z as int / 1 == inner.z as int);
}

/// A region strictly inside another lies inside the octant named by
/// [`spec_octant_index`], which is a real octant number.
pub proof fn lemma_inside_octant(outer: Bounds, inner: Bounds)
    requires
        outer.wf(),
        spec_inside(inner, outer),
        inner.lg_size < outer.lg_size,
    ensures
        ({
            let k = spec_octant_index(outer, inner);
            0 <= k < 8 && spec_inside(inner, outer.spec_octant(k))
        }),
{
    outer.lemma_coord_small();
    let d: nat = (outer.lg_size - 1 - inner.lg_size) as nat;
    let s = pow2(d) as int;
    lemma_pow2_pos(d);
    lemma_axis_descent(inner.x as int, outer.x as int, d);
    lemma_axis_descent(inner.y as int, outer.y as int, d);
    lemma_axis_descent(inner.z as int, outer.z as int, d);
    let dx = inner.x as int / s - 2 * outer.x;
    let dy = inner.y as int / s - 2 * outer.y;
    let dz = inner.z as int / s - 2 * outer.z;
    let k = dx + 2 * dy + 4 * dz;
    assert(0 <= dx <= 1 && 0 <= dy <= 1 && 0 <= dz <= 1);
    assert(k % 2 == dx && (k / 2) % 2 == dy && k / 4 == dz);
    let o = outer.spec_octant(k);
    assert(o.x == 2 * outer.x + dx && o.y == 2 * outer.y + dy && o.z == 2 * outer.z + dz
        && o.lg_size == outer.lg_size - 1);
}

/// Every region sits inside itself.
pub proof fn lemma_inside_refl(b: Bounds)
    ensures
        spec_inside(b, b),
{
    lemma2_to64();
    assert(b.x as int / 1 == b.x as int);
    assert(b.y as int / 1 == b.y as int);
    assert(b.z as int / 1 == b.z as int);
}

/// The inside relation composes: a cell of a cell of a region is a cell of
/// the region.
pub proof fn lemma_inside_trans(a: Bounds, b: Bounds, c: Bounds)
    requires
        spec_inside(a, b),
        spec_inside(b, c),
    ensures
        spec_inside(a, c),
{
    let d1: nat = (b.lg_size - a.lg_size) as nat;
    let d2: nat = (c.lg_size - b.lg_size) as nat;
    lemma_pow2_pos(d1);
    lemma_pow2_pos(d2);
    lemma_pow2_adds(d1, d2);
    lemma_div_denominator(a.x as int, pow2(d1) as int, pow2(d2) as int);
    lemma_div_denominator(a.y as int, pow2(d1) as int, pow2(d2) as int);
    lemma_div_denominator(a.z as int, pow2(d1) as int, pow2(d2) as int);
}

/// Each octant lies inside its parent.
pub proof fn lemma_octant_inside(b: Bounds, k: int)
    requires
        b.wf(),
        b.lg_size >= 1,
        0 <= k < 8,
    ensures
        spec_inside(b.spec_octant(k), b),
{
    b.lemma_coord_small();
    lemma2_to64();
    let o = b.spec_octant(k);
    assert(o.x == 2 * b.x + k % 2 && o.y == 2 * b.y + (k / 2) % 2 && o.z == 2 * b.z + k / 4);
    assert((2 * b.x + k % 2) as int / 2 == b.x as int);
    assert((2 * b.y + (k / 2) % 2) as int / 2 == b.y as int);
    assert((2 * b.z + k / 4) as int / 2 == b.z as int);
}

/// The descent is deterministic: a region inside octant `k` has octant
/// index `k`, and lies inside the parent.
pub proof fn lemma_index_of_octant(outer: Bounds, k: int, inner: Bounds)
    requires
        outer.wf(),
        outer.lg_size >= 1,
        0 <= k < 8,
        inner.lg_size < outer.lg_size,
        spec_inside(inner, outer.spec_octant(k)),
    ensures
        spec_octant_index(outer, inner) == k,
        spec_inside(inner, outer),
{
    outer.lemma_coord_small();
    let o = outer.spec_octant(k);
    assert(o.x == 2 * outer.x + k % 2 && o.y == 2 * outer.y + (k / 2) % 2 && o.z == 2 * outer.z
        + k / 4);
    let d: nat = (o.lg_size - inner.lg_size) as nat;
    lemma_pow2_pos(d);
    assert(inner.x as int / pow2(d) as int - 2 * outer.x == k % 2);
    assert(inner.y as int / pow2(d) as int - 2 * outer.y == (k / 2) % 2);
    assert(inner.z as int / pow2(d) as int - 2 * outer.z == k / 4);
    assert(k % 2 + 2 * ((k / 2) % 2) + 4 * (k / 4) == k);
    lemma_octant_inside(outer, k);
    lemma_inside_trans(inner, o, outer);
}

/// Decides [`spec_inside`].
pub fn inside(inner: &Bounds, outer: &Bounds) -> (r: bool)
    requires
        inner.wf(),
        outer.wf(),
    ensures
        r == spec_inside(*inner, *outer),
{
    if outer.lg_size < inner.lg_size {
        return false;
    }
    let d: u8 = outer.lg_size - inner.lg_size;
    proof {
        lemma2_to64();
        if ((d as nat) as int) < 20 {
            lemma_pow2_strictly_increases(d as nat, 20);
        }
        lemma_u32_shl_is_mul(1u32, d as u32);
        lemma_pow2_pos(d as nat);
    }
    let scale: u32 = 1u32 << d;
    inner.x / scale == outer.x && inner.y / scale == outer.y && inner.z / scale == outer.z
}

/// Computes [`spec_octant_index`]: the child to descend into.
pub fn octant_index(outer: &Bounds, inner: &Bounds) -> (k: usize)
    requires
        inner.wf(),
        outer.wf(),
        spec_inside(*inner, *outer),
        inner.lg_size < outer.lg_size,
    ensures
        k == spec_octant_index(*outer, *inner),
        k < 8,
        spec_inside(*inner, outer.spec_octant(k as int)),
{
    proof {
        lemma_inside_octant(*outer, *inner);
        outer.lemma_coord_small();
        lemma2_to64();
        if (((outer.lg_size - 1 - inner.lg_size) as nat) as int) < 20 {
            lemma_pow2_strictly_increases((outer.lg_size - 1 - inner.lg_size) as nat, 20);
        }
        lemma_u32_shl_is_mul(1u32, (outer.lg_size - 1 - inner.lg_size) as u32);
        lemma_pow2_pos((outer.lg_size - 1 - inner.lg_size) as nat);
    }
    let d: u8 = outer.lg_size - 1 - inner.lg_size;
    let scale: u32 = 1u32 << d;
    let dx: u32 = inner.x / scale - 2 * outer.x;
    let dy: u32 = inner.y / scale - 2 * outer.y;
    let dz: u32 = inner.z / scale - 2 * outer.z;
    (dx + 2 * dy + 4 * dz) as usize
}

/// What one octree node holds.
#[derive(Copy, Clone, PartialEq, Eq, Structural, Debug)]
pub enum NodeState {
    /// No data generated for this region yet.
    Empty,
    /// A generated block at a level of detail: the node is authoritative
    /// for its whole region.
    Leaf {
        /// The level the block was generated at.
        lod: u8,
        /// The generated block.
        voxel: Voxel,
    },
    /// Subdivided: the eight children sit consecutively in the arena
    /// starting at `children_base` and partition this node's region.
    Branch {
        /// Arena index of child octant 0; octant `k` is at `children_base + k`.
        children_base: usize,
    },
}

/// One octree node: its region and its state.
#[derive(Copy, Clone, PartialEq, Eq, Structural, Debug)]
pub struct Node {
    /// The region this node is authoritative for.
    pub bounds: Bounds,
    /// Generated block, subdivision, or nothing.
    pub state: NodeState,
}

/// A single node is sound: its region is well formed, and if it is a
/// branch, its children lie later in the arena and cover exactly the eight
/// octants of its region, one level finer.
pub open spec fn node_wf(nodes: Seq<Node>, i: int) -> bool {
    &&& nodes[i].bounds.wf()
    &&& match nodes[i].state {
        NodeState::Branch { children_base } => {
            &&& nodes[i].bounds.lg_size >= 1
            &&& i < children_base
            &&& children_base + 8 <= nodes.len()
            &&& forall|k: int|
                0 <= k < 8 ==> (#[trigger] nodes[children_base + k]).bounds == nodes[i]
                    .bounds.spec_octant(k)
        },
        _ => true,
    }
}

/// Every node of the arena is sound and a root exists.
pub open spec fn arena_wf(nodes: Seq<Node>) -> bool {
    &&& nodes.len() >= 1
    &&& forall|i: int| 0 <= i < nodes.len() ==> #[trigger] node_wf(nodes, i)
}

/// The block the subtree rooted at node `i` holds for the key `target`:
/// `Some` exactly when a leaf with those very bounds has been generated.
pub open spec fn spec_lookup(nodes: Seq<Node>, i: int, target: Bounds) -> Option<(u8, Voxel)>
    decreases nodes.len() - i,
{
    if i < 0 || i >= nodes.len() {
        None
    } else if !spec_inside(target, nodes[i].bounds) {
        None
    } else {
        match nodes[i].state {
            NodeState::Empty => None,
            NodeState::Leaf { lod, voxel } => if nodes[i].bounds == target {
                Some((lod, voxel))
            } else {
                None
            },
            NodeState::Branch { children_base } => {
                if nodes[i].bounds == target {
                    None
                } else {
                    let c = children_base + spec_octant_index(nodes[i].bounds, target);
                    if i < c < nodes.len() {
                        spec_lookup(nodes, c, target)
                    } else {
                        None
                    }
                }
            },
        }
    }
}

/// Lookups that cannot pass through any changed node are stable: if the
/// two arenas agree on every old node except ones whose region is
/// unchanged and which answer `b2` with nothing in both, then every old
/// node answers `b2` the same in both.
proof fn lemma_lookup_frame(m0: Seq<Node>, m1: Seq<Node>, b2: Bounds, j: int)
    requires
        arena_wf(m0),
        m1.len() >= m0.len(),
        forall|x: int|
            0 <= x < m0.len() ==> (#[trigger] m1[x]) == m0[x] || (m1[x].bounds == m0[x].bounds
                && spec_lookup(m0, x, b2) == None::<(u8, Voxel)> && spec_lookup(m1, x, b2)
                == None::<(u8, Voxel)>),
        0 <= j < m0.len(),
    ensures
        spec_lookup(m1, j, b2) == spec_lookup(m0, j, b2),
    decreases m0.len() - j,
{
    if m1[j] == m0[j] {
        assert(node_wf(m0, j));
        match m0[j].state {
            NodeState::Empty => {},
            NodeState::Leaf { .. } => {},
            NodeState::Branch { children_base } => {
                if spec_inside(b2, m0[j].bounds) && m0[j].bounds != b2 {
                    if m0[j].bounds.lg_size == b2.lg_size {
                        lemma_inside_same_size(b2, m0[j].bounds);
                    }
                    lemma_inside_octant(m0[j].bounds, b2);
                    let c = children_base + spec_octant_index(m0[j].bounds, b2);
                    assert(j < c < m0.len());
                    lemma_lookup_frame(m0, m1, b2, c);
                }
            },
        }
    }
}

/// The stored block already has this level of detail: replacing it would
/// redo identical work, so the index leaves the node untouched.
pub open spec fn spec_same_lod(prior: Option<(u8, Voxel)>, lod: u8) -> bool {
    match prior {
        Some((l, _)) => l == lod,
        None => false,
    }
}

/// The spatially-indexed, level-of-detail terrain store.
pub struct Octree {
    nodes: Vec<Node>,
}

impl Octree {
    /// The arena: node 0 is the root.  Coarsened subtrees go unreferenced
    /// rather than being reclaimed.
    pub closed spec fn arena(self) -> Seq<Node> {
        self.nodes@
    }

    /// The whole store is sound.
    pub open spec fn wf(self) -> bool {
        arena_wf(self.arena())
    }

    /// The region the whole store covers.
    pub open spec fn root_bounds(self) -> Bounds {
        self.arena()[0].bounds
    }

    /// The block stored under the key `target`, if generated.
    pub open spec fn spec_get(self, target: Bounds) -> Option<(u8, Voxel)> {
        spec_lookup(self.arena(), 0, target)
    }

    /// An octree covering `bounds`, all of it ungenerated.
    pub fn new(bounds: Bounds) -> (r: Octree)
        requires
            bounds.wf(),
        ensures
            r.wf(),
            r.root_bounds() == bounds,
            forall|t: Bounds| #[trigger] r.spec_get(t) is None,
    {
        let mut nodes: Vec<Node> = Vec::new();
        nodes.push(Node { bounds, state: NodeState::Empty });
        let r = Octree { nodes };
        proof {
            assert(node_wf(r.arena(), 0));
        }
        r
    }

    /// The region the whole store covers, as a value.
    pub fn root(&self) -> (r: Bounds)
        requires
            self.wf(),
        ensures
            r == self.root_bounds(),
    {
        self.nodes[0].bounds
    }

    /// Looks the key up: `Some` exactly when a block with those very
    /// bounds has been generated and survives.
    pub fn lookup(&self, target: Bounds) -> (r: Option<(u8, Voxel)>)
        requires
            self.wf(),
            target.wf(),
        ensures
            r == self.spec_get(target),
    {
        let ghost m = self.arena();
        let mut i: usize = 0;
        loop
            invariant
                0 <= i < self.nodes.len(),
                m == self.arena(),
                arena_wf(m),
                spec_lookup(m, i as int, target) == self.spec_get(target),
                target.wf(),
            decreases m.len() - i,
        {
            proof {
                assert(node_wf(m, i as int));
            }
            let node = self.nodes[i];
            if !inside(&target, &node.bounds) {
                return None;
            }
            match node.state {
                NodeState::Empty => {
                    return None;
                },
                NodeState::Leaf { lod, voxel } => {
                    if node.bounds == target {
                        return Some((lod, voxel));
                    } else {
                        return None;
                    }
                },
                NodeState::Branch { children_base } => {
                    if node.bounds == target {
                        return None;
                    }
                    proof {
                        if node.bounds.lg_size == target.lg_size {
                            lemma_inside_same_size(target, node.bounds);
                            assert(false);
                        }
                    }
                    let k = octant_index(&node.bounds, &target);
                    i = children_base + k;
                },
            }
        }
    }
}

/// Installs `voxel` for `target` in the subtree at node `i`, subdividing as
/// needed.  Touches no node before `i`, keeps node `i`'s region, and only
/// ever appends to the arena.
#[verifier::loop_isolation(false)]
#[verifier::rlimit(100)]
fn insert_at(nodes: &mut Vec<Node>, i: usize, target: Bounds, lod: u8, voxel: Voxel)
    requires
        arena_wf(old(nodes)@),
        i < old(nodes)@.len(),
        target.wf(),
        spec_inside(target, old(nodes)@[i as int].bounds),
    ensures
        arena_wf(final(nodes)@),
        final(nodes)@.len() >= old(nodes)@.len(),
        forall|j: int| 0 <= j < i ==> final(nodes)@[j] == old(nodes)@[j],
        forall|j: int|
            0 <= j < old(nodes)@.len() ==> final(nodes)@[j].bounds == old(nodes)@[j].bounds,
        final(nodes)@[i as int].bounds == old(nodes)@[i as int].bounds,
        forall|b2: Bounds, j: int|
            !spec_inside(b2, target) && !spec_inside(target, b2) && 0 <= j < old(nodes)@.len()
                ==> #[trigger] spec_lookup(final(nodes)@, j, b2) == spec_lookup(
                old(nodes)@, j, b2),
        forall|b2: Bounds, j: int|
            !spec_inside(b2, target) && !spec_inside(target, b2) && old(nodes)@.len() <= j < final(
                nodes)@.len() ==> #[trigger] spec_lookup(final(nodes)@, j, b2) == None::<
                (u8, Voxel)>,
        if spec_same_lod(spec_lookup(old(nodes)@, i as int, target), lod) {
            final(nodes)@ == old(nodes)@
        } else {
            spec_lookup(final(nodes)@, i as int, target) == Some((lod, voxel))
        },
    decreases nodes@[i as int].bounds.lg_size,
{
    let ghost m0 = nodes@;
    proof {
        assert(node_wf(m0, i as int));
    }
    let node = nodes[i];
    if node.bounds == target {
        let same: bool = match node.state {
            NodeState::Leaf { lod: l0, voxel: _ } => l0 == lod,
            _ => false,
        };
        if same {
            return ;
        }
        nodes.set(i, Node { bounds: node.bounds, state: NodeState::Leaf { lod, voxel } });
        proof {
            assert forall|j: int| 0 <= j < nodes@.len() implies #[trigger] node_wf(
                nodes@, j) by {
                assert(node_wf(m0, j));
            }
            assert forall|b2: Bounds, j: int|
                !spec_inside(b2, target) && !spec_inside(target, b2) && 0 <= j
                    < m0.len() implies #[trigger] spec_lookup(nodes@, j, b2) == spec_lookup(
                m0, j, b2) by {
                assert(spec_lookup(m0, i as int, b2) is None);
                assert(spec_lookup(nodes@, i as int, b2) is None);
                lemma_lookup_frame(m0, nodes@, b2, j);
            }
        }
        return ;
    }
    proof {
        if node.bounds.lg_size == target.lg_size {
            lemma_inside_same_size(target, node.bounds);
        }
    }
    let base: usize;
    match node.state {
        NodeState::Branch { children_base } => {
            base = children_base;
        },
        _ => {
            base = nodes.len();
            let mut k: usize = 0;
            while k < 8
                invariant
                    nodes@.len() == base + k,
                    0 <= k <= 8,
                    base == m0.len(),
                    forall|j: int| 0 <= j < base ==> nodes@[j] == m0[j],
                    forall|j: int|
                        0 <= j < k ==> (#[trigger] nodes@[base + j]) == (Node {
                            bounds: node.bounds.spec_octant(j),
                            state: NodeState::Empty,
                        }),
                decreases 8 - k,
            {
                let child = node.bounds.octant(k);
                nodes.push(Node { bounds: child, state: NodeState::Empty });
                k += 1;
            }
            let ghost mpre = nodes@;
            nodes.set(
                i,
                Node { bounds: node.bounds, state: NodeState::Branch { children_base: base } },
            );
            proof {
                let mnew = nodes@;
                assert(mnew.len() == base + 8);
                assert forall|j2: int| 0 <= j2 < 8 implies (#[trigger] mnew[base + j2]) == (Node {
                    bounds: node.bounds.spec_octant(j2),
                    state: NodeState::Empty,
                }) by {
                    assert(mpre[base + j2] == (Node {
                        bounds: node.bounds.spec_octant(j2),
                        state: NodeState::Empty,
                    }));
                    assert(mnew[base + j2] == mpre[base + j2]);
                }
                assert forall|j: int| 0 <= j < mnew.len() implies #[trigger] node_wf(
                    mnew, j) by {
                    if j == i {
                        assert(node.bounds.lg_size >= 1);
                        assert forall|kk: int| 0 <= kk < 8 implies (#[trigger] mnew[base
                            + kk]).bounds == mnew[j].bounds.spec_octant(kk) by {}
                    } else if j < base {
                        assert(node_wf(m0, j));
                        assert(mnew[j] == m0[j]);
                        match m0[j].state {
                            NodeState::Branch { children_base: cb } => {
                                assert forall|kk: int| 0 <= kk < 8 implies (#[trigger] mnew[cb
                                    + kk]).bounds == mnew[j].bounds.spec_octant(kk) by {
                                    assert(m0[cb + kk].bounds == m0[j].bounds.spec_octant(kk));
                                    assert(mnew[cb + kk].bounds == m0[cb + kk].bounds);
                                }
                            },
                            _ => {},
                        }
                    } else {
                        node.bounds.lemma_octant_wf(j - base);
                        assert(mpre[base + (j - base)] == (Node {
                            bounds: node.bounds.spec_octant(j - base),
                            state: NodeState::Empty,
                        }));
                        assert(mnew[j] == mpre[j]);
                    }
                }
            }
        },
    }
    let k = octant_index(&node.bounds, &target);
    let n_now: usize = nodes.len();
    let ghost m1 = nodes@;
    proof {
        assert(node_wf(m1, i as int));
        assert(base + 8 <= n_now);
        assert(m1[(base + k) as int].bounds == node.bounds.spec_octant(k as int));
        node.bounds.lemma_octant_wf(k as int);
    }
    let c = base + k;
    insert_at(nodes, c, target, lod, voxel);
    proof {
        let mf = nodes@;
        assert(mf[i as int] == m1[i as int]);
        assert(spec_lookup(mf, i as int, target) == spec_lookup(mf, c as int, target));
        assert(spec_lookup(m1, i as int, target) == spec_lookup(m1, c as int, target));
        if m1 != m0 {
            // freshly subdivided: the old subtree held nothing for `target`
            assert(spec_lookup(m0, i as int, target) is None);
            assert(spec_lookup(m1, c as int, target) is None);
        }
        assert forall|b2: Bounds, j: int|
            !spec_inside(b2, target) && !spec_inside(target, b2) && 0 <= j
                < m0.len() implies #[trigger] spec_lookup(mf, j, b2) == spec_lookup(
            m0, j, b2) by {
            if m1 != m0 {
                assert(spec_lookup(m0, i as int, b2) is None);
                assert(spec_lookup(m1, i as int, b2) is None) by {
                    if spec_inside(b2, m1[i as int].bounds) && m1[i as int].bounds != b2 {
                        if m1[i as int].bounds.lg_size == b2.lg_size {
                            lemma_inside_same_size(b2, m1[i as int].bounds);
                        }
                        lemma_inside_octant(m1[i as int].bounds, b2);
                        let c2 = base + spec_octant_index(m1[i as int].bounds, b2);
                        assert(m1[c2 as int].state is Empty);
                        assert(spec_lookup(m1, c2, b2) is None);
                    }
                }
                lemma_lookup_frame(m0, m1, b2, j);
            }
            assert(spec_lookup(mf, j, b2) == spec_lookup(m1, j, b2));
        }
        assert forall|b2: Bounds, j: int|
            !spec_inside(b2, target) && !spec_inside(target, b2) && m0.len() <= j
                < mf.len() implies #[trigger] spec_lookup(mf, j, b2) == None::<(u8, Voxel)> by {
            if j < m1.len() {
                let j2 = j - base;
                assert(m1[base + j2] == (Node {
                    bounds: node.bounds.spec_octant(j2),
                    state: NodeState::Empty,
                }));
                assert(spec_lookup(m1, j, b2) is None);
                assert(spec_lookup(mf, j, b2) == spec_lookup(m1, j, b2));
            }
        }
    }
}

/// Withdraws the node keyed exactly `target` from the subtree at `i`,
/// discarding its block or its whole subdivision; reaches only the node
/// with those very bounds.
#[verifier::loop_isolation(false)]
fn coarsen_at(nodes: &mut Vec<Node>, i: usize, target: Bounds)
    requires
        arena_wf(old(nodes)@),
        i < old(nodes)@.len(),
        target.wf(),
        spec_inside(target, old(nodes)@[i as int].bounds),
    ensures
        arena_wf(final(nodes)@),
        final(nodes)@.len() == old(nodes)@.len(),
        forall|j: int| 0 <= j < i ==> final(nodes)@[j] == old(nodes)@[j],
        forall|j: int|
            0 <= j < old(nodes)@.len() && old(nodes)@[j].bounds != target ==> final(nodes)@[j]
                == old(nodes)@[j],
        forall|j: int|
            0 <= j < old(nodes)@.len() ==> final(nodes)@[j] == old(nodes)@[j]
                || final(nodes)@[j] == (Node {
                bounds: old(nodes)@[j].bounds,
                state: NodeState::Empty,
            }),
        spec_lookup(final(nodes)@, i as int, target) == None::<(u8, Voxel)>,
    decreases nodes@[i as int].bounds.lg_size,
{
    let ghost m0 = nodes@;
    proof {
        assert(node_wf(m0, i as int));
    }
    let node = nodes[i];
    if node.bounds == target {
        match node.state {
            NodeState::Empty => {},
            _ => {
                nodes.set(i, Node { bounds: node.bounds, state: NodeState::Empty });
                proof {
                    assert forall|j: int| 0 <= j < nodes@.len() implies #[trigger] node_wf(
                        nodes@, j) by {
                        assert(node_wf(m0, j));
                    }
                }
            },
        }
        return ;
    }
    proof {
        if node.bounds.lg_size == target.lg_size {
            lemma_inside_same_size(target, node.bounds);
        }
    }
    match node.state {
        NodeState::Branch { children_base } => {
            let k = octant_index(&node.bounds, &target);
            let n_now: usize = nodes.len();
            proof {
                assert(children_base + 8 <= n_now);
                node.bounds.lemma_octant_wf(k as int);
            }
            let c = children_base + k;
            coarsen_at(nodes, c, target);
            proof {
                let mf = nodes@;
                assert(mf[i as int] == m0[i as int]);
                assert(spec_lookup(mf, i as int, target) == spec_lookup(mf, c as int, target));
            }
        },
        _ => {},
    }
}

/// `e` records a block the arena really holds: some node is a leaf with
/// exactly these bounds, level and content.
pub open spec fn is_leaf_entry(nodes: Seq<Node>, e: (Bounds, u8, Voxel)) -> bool {
    exists|j: int|
        0 <= j < nodes.len() && #[trigger] nodes[j] == (Node {
            bounds: e.0,
            state: NodeState::Leaf { lod: e.1, voxel: e.2 },
        })
}

/// The enumeration entry the subtree at `i` owes for key `b` (meaningful
/// when the lookup finds a block).
pub open spec fn found_entry(nodes: Seq<Node>, i: int, b: Bounds) -> (Bounds, u8, Voxel) {
    let lv = spec_lookup(nodes, i, b)->Some_0;
    (b, lv.0, lv.1)
}

/// A sequence that only grew, elementwise, keeps everything it contained.
proof fn lemma_contains_preserved(
    pre: Seq<(Bounds, u8, Voxel)>,
    post: Seq<(Bounds, u8, Voxel)>,
    e: (Bounds, u8, Voxel),
)
    requires
        post.len() >= pre.len(),
        forall|j: int| 0 <= j < pre.len() ==> post[j] == pre[j],
        pre.contains(e),
    ensures
        post.contains(e),
{
    let j = choose|j: int| 0 <= j < pre.len() && pre[j] == e;
    assert(post[j] == e);
}

/// Appends every generated block of the subtree at `i` to `out`: each
/// appended entry is owed by the lookup, and every key the lookup answers
/// is appended.
#[verifier::loop_isolation(false)]
fn collect_leaves(nodes: &Vec<Node>, i: usize, out: &mut Vec<(Bounds, u8, Voxel)>)
    requires
        arena_wf(nodes@),
        i < nodes@.len(),
    ensures
        final(out)@.len() >= old(out)@.len(),
        forall|j: int| 0 <= j < old(out)@.len() ==> final(out)@[j] == old(out)@[j],
        forall|j: int|
            old(out)@.len() <= j < final(out)@.len() ==> is_leaf_entry(
                nodes@, #[trigger] final(out)@[j]),
        forall|j: int|
            old(out)@.len() <= j < final(out)@.len() ==> spec_lookup(
                nodes@, i as int, (#[trigger] final(out)@[j]).0) == Some(
                (final(out)@[j].1, final(out)@[j].2)),
        forall|b: Bounds|
            (#[trigger] spec_lookup(nodes@, i as int, b)) is Some ==> final(out)@.contains(
                found_entry(nodes@, i as int, b)),
    decreases nodes@[i as int].bounds.lg_size,
{
    proof {
        assert(node_wf(nodes@, i as int));
    }
    let node = nodes[i];
    match node.state {
        NodeState::Empty => {
            proof {
                assert forall|b: Bounds|
                    !((#[trigger] spec_lookup(nodes@, i as int, b)) is Some) by {}
            }
        },
        NodeState::Leaf { lod, voxel } => {
            out.push((node.bounds, lod, voxel));
            proof {
                assert(nodes@[i as int] == (Node {
                    bounds: node.bounds,
                    state: NodeState::Leaf { lod, voxel },
                }));
                lemma_inside_refl(node.bounds);
                assert(spec_lookup(nodes@, i as int, node.bounds) == Some((lod, voxel)));
                assert forall|b: Bounds|
                    (#[trigger] spec_lookup(nodes@, i as int, b)) is Some implies out@.contains(
                    found_entry(nodes@, i as int, b)) by {
                    assert(b == node.bounds);
                    assert(out@[out@.len() - 1] == (node.bounds, lod, voxel));
                }
            }
        },
        NodeState::Branch { children_base } => {
            let n_now: usize = nodes.len();
            let ghost bnd = nodes@[i as int].bounds;
            proof {
                assert(children_base + 8 <= n_now);
            }
            let mut k: usize = 0;
            while k < 8
                invariant
                    0 <= k <= 8,
                    out@.len() >= old(out)@.len(),
                    forall|j: int| 0 <= j < old(out)@.len() ==> out@[j] == old(out)@[j],
                    forall|j: int|
                        old(out)@.len() <= j < out@.len() ==> is_leaf_entry(
                            nodes@, #[trigger] out@[j]),
                    forall|j: int|
                        old(out)@.len() <= j < out@.len() ==> spec_lookup(
                            nodes@, i as int, (#[trigger] out@[j]).0) == Some(
                            (out@[j].1, out@[j].2)),
                    forall|b: Bounds|
                        (#[trigger] spec_lookup(nodes@, i as int, b)) is Some && 0
                            <= spec_octant_index(bnd, b) < k ==> out@.contains(
                            found_entry(nodes@, i as int, b)),
                decreases 8 - k,
            {
                proof {
                    assert(node_wf(nodes@, i as int));
                }
                let ghost out_pre = out@;
                collect_leaves(nodes, children_base + k, out);
                proof {
                    let ck = (children_base + k) as int;
                    assert(nodes@[ck].bounds == bnd.spec_octant(k as int));
                    assert forall|j: int|
                        out_pre.len() <= j < out@.len() implies spec_lookup(
                        nodes@, i as int, (#[trigger] out@[j]).0) == Some(
                        (out@[j].1, out@[j].2)) by {
                        let e = out@[j];
                        assert(spec_lookup(nodes@, ck, e.0) == Some((e.1, e.2)));
                        assert(spec_inside(e.0, nodes@[ck].bounds));
                        lemma_index_of_octant(bnd, k as int, e.0);
                    }
                    assert forall|b: Bounds|
                        (#[trigger] spec_lookup(nodes@, i as int, b)) is Some && 0
                            <= spec_octant_index(bnd, b) < k + 1 implies out@.contains(
                        found_entry(nodes@, i as int, b)) by {
                        if spec_octant_index(bnd, b) < k {
                            lemma_contains_preserved(
                                out_pre,
                                out@,
                                found_entry(nodes@, i as int, b),
                            );
                        } else {
                            assert(spec_lookup(nodes@, i as int, b) == spec_lookup(
                                nodes@, ck, b));
                        }
                    }
                }
                k += 1;
            }
            proof {
                assert forall|b: Bounds|
                    (#[trigger] spec_lookup(nodes@, i as int, b)) is Some implies out@.contains(
                    found_entry(nodes@, i as int, b)) by {
                    if bnd.lg_size == b.lg_size {
                        lemma_inside_same_size(b, bnd);
                    }
                    lemma_inside_octant(bnd, b);
                }
            }
        },
    }
}


impl Octree {
    /// Installs a generated block under its key, subdividing coarser nodes
    /// on the way down.  When the key already holds a block at this very
    /// level the store is left untouched, so oscillating demand near a
    /// threshold cannot force redundant regeneration; hysteresis belongs to
    /// the level-of-detail policy, the tie-break to the index.
    pub fn insert_or_replace(&mut self, target: Bounds, lod: u8, voxel: Voxel)
        requires
            old(self).wf(),
            target.wf(),
            spec_inside(target, old(self).root_bounds()),
        ensures
            final(self).wf(),
            final(self).root_bounds() == old(self).root_bounds(),
            final(self).arena().len() >= old(self).arena().len(),
            forall|j: int|
                0 <= j < old(self).arena().len() ==> final(self).arena()[j].bounds == old(
                    self,
                ).arena()[j].bounds,
            forall|b2: Bounds|
                !spec_inside(b2, target) && !spec_inside(target, b2) ==> #[trigger] final(
                    self).spec_get(b2) == old(self).spec_get(b2),
            if spec_same_lod(old(self).spec_get(target), lod) {
                final(self).arena() == old(self).arena()
            } else {
                final(self).spec_get(target) == Some((lod, voxel))
            },
    {
        insert_at(&mut self.nodes, 0, target, lod, voxel);
    }

    /// Coarsens the store at `target`: the node with exactly those bounds
    /// loses its block or its whole subdivision, and afterwards the key
    /// holds nothing.  Every other key's node is untouched, and no node
    /// ever gains data from a coarsening.
    pub fn coarsen(&mut self, target: Bounds)
        requires
            old(self).wf(),
            target.wf(),
            spec_inside(target, old(self).root_bounds()),
        ensures
            final(self).wf(),
            final(self).root_bounds() == old(self).root_bounds(),
            final(self).spec_get(target) == None::<(u8, Voxel)>,
            final(self).arena().len() == old(self).arena().len(),
            forall|j: int|
                0 <= j < old(self).arena().len() && old(self).arena()[j].bounds != target
                    ==> final(self).arena()[j] == old(self).arena()[j],
            forall|j: int|
                0 <= j < old(self).arena().len() ==> final(self).arena()[j] == old(
                    self,
                ).arena()[j] || final(self).arena()[j] == (Node {
                    bounds: old(self).arena()[j].bounds,
                    state: NodeState::Empty,
                }),
            forall|b2: Bounds|
                !spec_inside(b2, target) && !spec_inside(target, b2) ==> #[trigger] final(
                    self).spec_get(b2) == old(self).spec_get(b2),
    {
        coarsen_at(&mut self.nodes, 0, target);
        proof {
            let m0 = old(self).arena();
            let m1 = self.arena();
            assert forall|b2: Bounds|
                !spec_inside(b2, target) && !spec_inside(target, b2) implies #[trigger] self
                .spec_get(b2) == old(self).spec_get(b2) by {
                assert forall|x: int|
                    0 <= x < m0.len() implies (#[trigger] m1[x]) == m0[x] || (m1[x].bounds
                        == m0[x].bounds && spec_lookup(m0, x, b2) == None::<(u8, Voxel)>
                        && spec_lookup(m1, x, b2) == None::<(u8, Voxel)>) by {
                    if m1[x] != m0[x] {
                        assert(m0[x].bounds == target);
                    }
                }
                lemma_lookup_frame(m0, m1, b2, 0);
            }
        }
    }

    /// Every generated block with its bounds and level: the terrain the
    /// simulation collides against and the level-of-detail policy walks.
    pub fn generated_leaves(&self) -> (out: Vec<(Bounds, u8, Voxel)>)
        requires
            self.wf(),
        ensures
            forall|j: int|
                0 <= j < out@.len() ==> is_leaf_entry(self.arena(), #[trigger] out@[j])
                    && out@[j].0.wf(),
            forall|j: int|
                0 <= j < out@.len() ==> self.spec_get((#[trigger] out@[j]).0) == Some(
                    (out@[j].1, out@[j].2)),
            forall|b: Bounds|
                (#[trigger] self.spec_get(b)) is Some ==> out@.contains(
                    found_entry(self.arena(), 0, b)),
    {
        let mut out: Vec<(Bounds, u8, Voxel)> = Vec::new();
        collect_leaves(&self.nodes, 0, &mut out);
        proof {
            assert forall|j: int| 0 <= j < out@.len() implies is_leaf_entry(
                self.arena(), #[trigger] out@[j]) && out@[j].0.wf() by {
                let jj = choose|jj: int|
                    0 <= jj < self.arena().len() && #[trigger] self.arena()[jj] == (Node {
                        bounds: out@[j].0,
                        state: NodeState::Leaf { lod: out@[j].1, voxel: out@[j].2 },
                    });
                assert(node_wf(self.arena(), jj));
            }
        }
        out
    }

    /// Every generated block whose region overlaps `region`: the
    /// neighbourhood query the simulation asks before sweeping an entity.
    #[verifier::loop_isolation(false)]
    pub fn leaves_intersecting(&self, region: &Aabb) -> (out: Vec<(Bounds, u8, Voxel)>)
        requires
            self.wf(),
        ensures
            forall|j: int|
                0 <= j < out@.len() ==> is_leaf_entry(self.arena(), #[trigger] out@[j])
                    && out@[j].0.wf() && out@[j].0.spec_to_aabb().spec_overlaps(*region),
            forall|j: int|
                0 <= j < out@.len() ==> self.spec_get((#[trigger] out@[j]).0) == Some(
                    (out@[j].1, out@[j].2)),
            forall|b: Bounds|
                (#[trigger] self.spec_get(b)) is Some && b.spec_to_aabb().spec_overlaps(*region)
                    ==> out@.contains(found_entry(self.arena(), 0, b)),
    {
        let all = self.generated_leaves();
        let mut out: Vec<(Bounds, u8, Voxel)> = Vec::new();
        let n: usize = all.len();
        let mut i: usize = 0;
        while i < n
            invariant
                0 <= i <= n,
                n == all@.len(),
                forall|j: int|
                    0 <= j < all@.len() ==> is_leaf_entry(self.arena(), #[trigger] all@[j])
                        && all@[j].0.wf(),
                forall|j: int|
                    0 <= j < all@.len() ==> self.spec_get((#[trigger] all@[j]).0) == Some(
                        (all@[j].1, all@[j].2)),
                forall|j: int|
                    0 <= j < out@.len() ==> is_leaf_entry(self.arena(), #[trigger] out@[j])
                        && out@[j].0.wf() && out@[j].0.spec_to_aabb().spec_overlaps(*region),
                forall|j: int|
                    0 <= j < out@.len() ==> self.spec_get((#[trigger] out@[j]).0) == Some(
                        (out@[j].1, out@[j].2)),
                forall|jj: int|
                    0 <= jj < i && (#[trigger] all@[jj]).0.spec_to_aabb().spec_overlaps(*region)
                        ==> out@.contains(all@[jj]),
            decreases n - i,
        {
            let a = all[i].0.to_aabb();
            let ghost out_pre = out@;
            if a.overlaps(region) {
                out.push(all[i]);
            }
            proof {
                assert forall|jj: int|
                    0 <= jj < i + 1 && (#[trigger] all@[jj]).0.spec_to_aabb().spec_overlaps(
                        *region) implies out@.contains(all@[jj]) by {
                    if jj < i {
                        lemma_contains_preserved(out_pre, out@, all@[jj]);
                    } else {
                        assert(out@[out@.len() - 1] == all@[jj]);
                    }
                }
            }
            i += 1;
        }
        proof {
            assert forall|b: Bounds|
                (#[trigger] self.spec_get(b)) is Some && b.spec_to_aabb().spec_overlaps(*region)
                    implies out@.contains(found_entry(self.arena(), 0, b)) by {
                let e = found_entry(self.arena(), 0, b);
                assert(all@.contains(e));
                let jj = choose|jj: int| 0 <= jj < all@.len() && all@[jj] == e;
                assert(all@[jj].0 == b);
                assert(out@.contains(all@[jj]));
            }
        }
        out
    }

    /// The region octant `k` of node `i` covers.
    pub open spec fn child_bounds(self, i: int, k: int) -> Bounds {
        self.arena()[i].bounds.spec_octant(k)
    }

    /// The partition invariant, however subdivide and coarsen have shaped
    /// the store: the eight children of any branch node pairwise share no
    /// grid point, and together they cover the parent's region exactly.
    pub proof fn lemma_branch_partition(self, i: int, px: int, py: int, pz: int)
        requires
            self.wf(),
            0 <= i < self.arena().len(),
            self.arena()[i].state is Branch,
        ensures
            forall|j: int, k: int|
                0 <= j < 8 && 0 <= k < 8 && j != k ==> !(#[trigger] self.child_bounds(
                    i, j).spec_contains(px, py, pz) && #[trigger] self.child_bounds(
                    i, k).spec_contains(px, py, pz)),
            self.arena()[i].bounds.spec_contains(px, py, pz) <==> exists|k: int|
                0 <= k < 8 && #[trigger] self.child_bounds(i, k).spec_contains(px, py, pz),
    {
        assert(node_wf(self.arena(), i));
        let b = self.arena()[i].bounds;
        assert forall|j: int, k: int| 0 <= j < 8 && 0 <= k < 8 && j != k implies !(
        #[trigger] self.child_bounds(i, j).spec_contains(px, py, pz)
            && #[trigger] self.child_bounds(i, k).spec_contains(px, py, pz)) by {
            b.lemma_octants_disjoint(j, k, px, py, pz);
        }
        if b.spec_contains(px, py, pz) {
            b.lemma_octants_cover(px, py, pz);
            let k = choose|k: int|
                0 <= k < 8 && #[trigger] b.spec_octant(k).spec_contains(px, py, pz);
            assert(self.child_bounds(i, k).spec_contains(px, py, pz));
        }
        if exists|k: int| 0 <= k < 8 && #[trigger] self.child_bounds(i, k).spec_contains(
            px, py, pz) {
            let k = choose|k: int|
                0 <= k < 8 && #[trigger] self.child_bounds(i, k).spec_contains(px, py, pz);
            b.lemma_octant_contained(k, px, py, pz);
        }
    }
}

} // verus!
