//! The node store and the operations that read and reshape it.

use vstd::prelude::*;
use crate::entry::{
    bit, is_pointer, is_solid, is_voxel, VOXEL_OFFSET, voxel_index, Position, EMPTY, MAX_NODES, MAX_VOXELS, SOLID, UNRESOLVED,
};

verus! {

/// What a mutation of the tree can fail with.
#[derive(Clone, Copy, Debug, PartialEq, Eq, Structural)]
pub enum TreeError {
    /// The entry to subdivide is already an interior pointer.
    AlreadySubdivided,
    /// A child of the node to collapse is not a voxel.
    ChildrenNotLeaves,
    /// The block is still referenced, already free, not a block start, or
    /// the entry lies in a freed block.
    InvariantViolation,
    /// The store or the attribute table has no room left.
    StoreFull,
}

/// A block start inside a store of `len` entries, other than the root block.
pub open spec fn valid_block(b: int, len: int) -> bool {
    b % 8 == 0 && 8 <= b && b + 8 <= len
}

/// Eight bits, bit `i` set when entry `b + i` is not an empty voxel.
pub open spec fn occupied_bits(n: Seq<u32>, b: int, k: int) -> u8
    decreases k,
{
    if k <= 0 {
        0u8
    } else {
        occupied_bits(n, b, k - 1) | (if n[b + k - 1] != EMPTY {
            1u8 << ((k - 1) as u8)
        } else {
            0u8
        })
    }
}

/// The occupancy mask of the block that starts at `b`.
pub open spec fn mask_of(n: Seq<u32>, b: int) -> u8 {
    occupied_bits(n, b, 8)
}

/// `t` is `s` after a successful subdivision of entry `node` with `mask`.
pub open spec fn subdivided(s: Octree, t: Octree, node: int, mask: u8, bottom_level: bool) -> bool {
    let b = t.nodes@[node] as int;
    &&& t.voxel_positions@ == s.voxel_positions@
    &&& is_pointer(t.nodes@[node])
    &&& s.free_blocks@.len() > 0 ==> {
        &&& b == s.free_blocks@.last()
        &&& t.free_blocks@ == s.free_blocks@.drop_last()
        &&& t.nodes@.len() == s.nodes@.len()
    }
    &&& s.free_blocks@.len() == 0 ==> {
        &&& b == s.nodes@.len()
        &&& t.free_blocks@ == s.free_blocks@
        &&& t.nodes@.len() == s.nodes@.len() + 8
    }
    &&& forall|i: int|
        b <= i < b + 8 ==> #[trigger] t.nodes@[i] == if bit(mask, i - b) {
            if bottom_level { SOLID } else { UNRESOLVED }
        } else {
            EMPTY
        }
    &&& forall|i: int|
        0 <= i < s.nodes@.len() && i != node && !(b <= i < b + 8)
            ==> t.nodes@[i] == s.nodes@[i]
}

/// `t` is `s` after a successful collapse of the interior entry `node`,
/// with `attr` for a solid result.
pub open spec fn collapsed(s: Octree, t: Octree, node: int, attr: Position) -> bool {
    let n = s.nodes@;
    let c = n[node] as int;
    let all_empty = forall|i: int| c <= i < c + 8 ==> #[trigger] n[i] == EMPTY;
    &&& t.free_blocks@ == s.free_blocks@.push(c as usize)
    &&& t.levels@ == s.levels@
    &&& all_empty ==> t.nodes@ == n.update(node, EMPTY) && t.voxel_positions@ == s.voxel_positions@
    &&& !all_empty ==> t.nodes@ == n.update(node, (SOLID + s.voxel_positions@.len()) as u32)
        && t.voxel_positions@ == s.voxel_positions@.push(attr)
}

/// A sparse voxel octree. The root has no entry of its own: entries `0..8`
/// are its children, and every interior pointer names the first of eight
/// contiguous child slots.
pub struct Octree {
    pub nodes: Vec<u32>,
    /// Attributes of solid voxels; slot 0 is the placeholder of voxels that
    /// carry none.
    pub voxel_positions: Vec<Position>,
    /// Starts of blocks vacated by a collapse, ready for reuse.
    pub free_blocks: Vec<usize>,
    /// The depth of each block below the root; a pointer always leads one
    /// level down, so the entries form a tree.
    pub levels: Ghost<Seq<nat>>,
}

impl Octree {
    /// The store's invariant.
    pub open spec fn wf(&self) -> bool {
        let n = self.nodes@;
        let f = self.free_blocks@;
        let lv = self.levels@;
        &&& n.len() % 8 == 0
        &&& 8 <= n.len() <= MAX_NODES
        &&& lv.len() == n.len() / 8
        &&& lv[0] == 0
        &&& forall|i: int| 0 <= i < n.len() && is_pointer(#[trigger] n[i]) ==> valid_block(
            n[i] as int,
            n.len() as int,
        ) && lv[n[i] as int / 8] == lv[i / 8] + 1
        &&& forall|i: int, j: int|
            0 <= i < n.len() && 0 <= j < n.len() && i != j && is_pointer(#[trigger] n[i])
                ==> #[trigger] n[j] != n[i]
        &&& 1 <= self.voxel_positions@.len() <= MAX_VOXELS
        &&& forall|i: int|
            0 <= i < n.len() && is_solid(#[trigger] n[i]) ==> voxel_index(n[i])
                < self.voxel_positions@.len()
        &&& forall|k: int| 0 <= k < f.len() ==> valid_block(#[trigger] f[k] as int, n.len() as int)
        &&& forall|k: int, l: int|
            0 <= k < f.len() && 0 <= l < f.len() && k != l ==> #[trigger] f[k] != #[trigger] f[l]
        &&& forall|k: int, i: int|
            0 <= k < f.len() && 0 <= i < n.len() ==> #[trigger] n[i] as int != #[trigger] f[k] as int
    }

    /// Whether entry `i` lies inside a freed block.
    pub open spec fn in_free_block(&self, i: int) -> bool {
        exists|k: int| 0 <= k < self.free_blocks@.len() && #[trigger] self.free_blocks@[k] == i - i % 8
    }

    /// A tree whose root children are solid where `mask` has a bit set, and
    /// empty elsewhere.
    pub fn new(mask: u8) -> (r: Octree)
        ensures
            r.wf(),
            r.nodes@.len() == 8,
            r.free_blocks@.len() == 0,
            r.voxel_positions@ == seq![Position { x: 0, y: 0, z: 0 }],
            forall|i: int| 0 <= i < 8 ==> r.nodes@[i] == if bit(mask, i) { SOLID } else { EMPTY },
    {
        let levels: Ghost<Seq<nat>> = Ghost(Seq::empty().push(0nat));
        let mut octree = Octree {
            nodes: vec![EMPTY, EMPTY, EMPTY, EMPTY, EMPTY, EMPTY, EMPTY, EMPTY],
            voxel_positions: vec![Position::origin()],
            free_blocks: Vec::new(),
            levels,
        };
        octree.add_voxels(0, mask, true);
        octree
    }

    /// Writes the eight entries of the block at `block` from `mask`: a set
    /// bit gives a solid voxel when `bottom_level`, else an unresolved
    /// interior; a clear bit gives an empty voxel.
    pub fn add_voxels(&mut self, block: usize, mask: u8, bottom_level: bool)
        requires
            old(self).wf(),
            block % 8 == 0,
            block + 8 <= old(self).nodes@.len(),
        ensures
            final(self).wf(),
            final(self).voxel_positions@ == old(self).voxel_positions@,
            final(self).free_blocks@ == old(self).free_blocks@,
            final(self).levels@ == old(self).levels@,
            final(self).nodes@.len() == old(self).nodes@.len(),
            forall|i: int|
                0 <= i < final(self).nodes@.len() && !(block <= i < block + 8)
                    ==> final(self).nodes@[i] == old(self).nodes@[i],
            forall|i: int|
                block <= i < block + 8 ==> #[trigger] final(self).nodes@[i] == if bit(mask, i - block) {
                    if bottom_level { SOLID } else { UNRESOLVED }
                } else {
                    EMPTY
                },
    {
        let mut i: usize = 0;
        while i < 8
            invariant
                0 <= i <= 8,
                block % 8 == 0,
                block + 8 <= self.nodes@.len(),
                self.wf(),
                self.voxel_positions@ == old(self).voxel_positions@,
                self.free_blocks@ == old(self).free_blocks@,
                self.levels@ == old(self).levels@,
                self.nodes@.len() == old(self).nodes@.len(),
                forall|j: int|
                    0 <= j < self.nodes@.len() && !(block <= j < block + i)
                        ==> self.nodes@[j] == old(self).nodes@[j],
                forall|j: int|
                    block <= j < block + i ==> #[trigger] self.nodes@[j] == if bit(mask, j - block) {
                        if bottom_level { SOLID } else { UNRESOLVED }
                    } else {
                        EMPTY
                    },
            decreases 8 - i,
        {
            let shift = i as u8;
            let v = if (mask >> shift) & 1u8 != 0u8 {
                if bottom_level { SOLID } else { UNRESOLVED }
            } else {
                EMPTY
            };
            self.set_leaf(block + i, v);
            i += 1;
        }
    }

    /// Overwrites entry `i` with a value that is not a pointer.
    pub(crate) fn set_leaf(&mut self, i: usize, v: u32)
        requires
            old(self).wf(),
            i < old(self).nodes@.len(),
            !is_pointer(v),
            is_solid(v) ==> voxel_index(v) < old(self).voxel_positions@.len(),
        ensures
            final(self).wf(),
            final(self).nodes@ == old(self).nodes@.update(i as int, v),
            final(self).voxel_positions@ == old(self).voxel_positions@,
            final(self).free_blocks@ == old(self).free_blocks@,
            final(self).levels@ == old(self).levels@,
    {
        self.nodes.set(i, v);
        assert forall|a: int, b: int|
            0 <= a < self.nodes@.len() && 0 <= b < self.nodes@.len() && a != b && is_pointer(
                #[trigger] self.nodes@[a],
            ) implies #[trigger] self.nodes@[b] != self.nodes@[a] by {
            assert(old(self).nodes@[a] == self.nodes@[a]);
            if b != i {
                assert(old(self).nodes@[b] == self.nodes@[b]);
            }
        }
        assert forall|k: int, j: int|
            0 <= k < self.free_blocks@.len() && 0 <= j < self.nodes@.len() implies #[trigger] self.nodes@[j] as int
                != #[trigger] self.free_blocks@[k] as int by {
            if j != i {
                assert(old(self).nodes@[j] == self.nodes@[j]);
            }
        }
    }

    /// The occupancy mask of the block at `node`: bit `i` is set when entry
    /// `node + i` is not an empty voxel.
    pub fn get_node_mask(&self, node: usize) -> (r: u8)
        requires
            node + 8 <= self.nodes@.len(),
        ensures
            r == mask_of(self.nodes@, node as int),
    {
        let mut mask: u8 = 0;
        let len = self.nodes.len();
        let mut i: usize = 0;
        while i < 8
            invariant
                0 <= i <= 8,
                len == self.nodes@.len(),
                node + 8 <= self.nodes@.len(),
                mask == occupied_bits(self.nodes@, node as int, i as int),
            decreases 8 - i,
        {
            if self.nodes[node + i] != EMPTY {
                mask = mask | (1u8 << (i as u8));
            } else {
                assert(mask == mask | 0u8) by (bit_vector);
            }
            i += 1;
        }
        mask
    }

    /// A block of eight empty voxels, taken from the free list when it has
    /// one (the most recently freed), else appended to the store.
    pub fn allocate_block(&mut self) -> (r: Result<usize, TreeError>)
        requires
            old(self).wf(),
        ensures
            final(self).wf(),
            final(self).voxel_positions@ == old(self).voxel_positions@,
            r is Err <==> old(self).free_blocks@.len() == 0 && old(self).nodes@.len() + 8 > MAX_NODES,
            r is Err ==> r == Err::<usize, TreeError>(TreeError::StoreFull) && *final(self) == *old(self),
            r matches Ok(b) ==> {
                &&& valid_block(b as int, final(self).nodes@.len() as int)
                &&& old(self).free_blocks@.len() > 0 ==> {
                    &&& b == old(self).free_blocks@.last()
                    &&& final(self).free_blocks@ == old(self).free_blocks@.drop_last()
                    &&& final(self).nodes@.len() == old(self).nodes@.len()
                }
                &&& old(self).free_blocks@.len() == 0 ==> {
                    &&& b == old(self).nodes@.len()
                    &&& final(self).free_blocks@ == old(self).free_blocks@
                    &&& final(self).nodes@.len() == old(self).nodes@.len() + 8
                }
                &&& !final(self).free_blocks@.contains(b)
                &&& forall|i: int| 0 <= i < final(self).nodes@.len() ==> #[trigger] final(self).nodes@[i] != b
                &&& forall|i: int| b <= i < b + 8 ==> #[trigger] final(self).nodes@[i] == EMPTY
                &&& forall|i: int|
                    0 <= i < old(self).nodes@.len() && !(b <= i < b + 8)
                        ==> final(self).nodes@[i] == old(self).nodes@[i]
            },
    {
        if self.free_blocks.len() > 0 {
            let b = self.free_blocks.pop().unwrap();
            proof {
                assert(old(self).free_blocks@.last() == b);
                assert forall|k: int, l: int|
                    0 <= k < self.free_blocks@.len() && 0 <= l < self.free_blocks@.len() && k != l
                        implies #[trigger] self.free_blocks@[k] != #[trigger] self.free_blocks@[l] by {
                    assert(self.free_blocks@[k] == old(self).free_blocks@[k]);
                    assert(self.free_blocks@[l] == old(self).free_blocks@[l]);
                }
                assert forall|k: int, i: int|
                    0 <= k < self.free_blocks@.len() && 0 <= i < self.nodes@.len()
                        implies #[trigger] self.nodes@[i] as int != #[trigger] self.free_blocks@[k] as int by {
                    assert(self.free_blocks@[k] == old(self).free_blocks@[k]);
                }
                assert(valid_block(
                    old(self).free_blocks@[old(self).free_blocks@.len() - 1] as int,
                    self.nodes@.len() as int,
                ));
                assert forall|i: int| 0 <= i < self.nodes@.len() implies #[trigger] self.nodes@[i] != b by {
                    assert(self.nodes@[i] as int != old(self).free_blocks@[old(self).free_blocks@.len() - 1] as int);
                }
            }
            let mut i: usize = 0;
            while i < 8
                invariant
                    0 <= i <= 8,
                    valid_block(b as int, self.nodes@.len() as int),
                    self.wf(),
                    self.nodes@.len() == old(self).nodes@.len(),
                    self.free_blocks@ == old(self).free_blocks@.drop_last(),
                    self.voxel_positions@ == old(self).voxel_positions@,
                    !self.free_blocks@.contains(b),
                    forall|j: int| 0 <= j < self.nodes@.len() ==> #[trigger] self.nodes@[j] != b,
                    forall|j: int| b <= j < b + i ==> #[trigger] self.nodes@[j] == EMPTY,
                    forall|j: int|
                        0 <= j < self.nodes@.len() && !(b <= j < b + i)
                            ==> self.nodes@[j] == old(self).nodes@[j],
                decreases 8 - i,
            {
                self.set_leaf(b + i, EMPTY);
                i += 1;
            }
            proof {
                if self.free_blocks@.contains(b) {
                    let k = choose|k: int| 0 <= k < self.free_blocks@.len() && self.free_blocks@[k] == b;
                    assert(self.free_blocks@[k] == old(self).free_blocks@[k]);
                    assert(false);
                }
            }
            Ok(b)
        } else if self.nodes.len() <= MAX_NODES - 8 {
            let b = self.nodes.len();
            self.nodes.push(EMPTY);
            self.nodes.push(EMPTY);
            self.nodes.push(EMPTY);
            self.nodes.push(EMPTY);
            self.nodes.push(EMPTY);
            self.nodes.push(EMPTY);
            self.nodes.push(EMPTY);
            self.nodes.push(EMPTY);
            self.levels = Ghost(self.levels@.push(0nat));
            proof {
                assert forall|i: int| 0 <= i < old(self).nodes@.len() implies self.nodes@[i] == old(self).nodes@[i] by {}
                assert forall|i: int| b <= i < b + 8 implies self.nodes@[i] == EMPTY by {}
                assert forall|i: int| 0 <= i < self.nodes@.len() && is_pointer(#[trigger] self.nodes@[i])
                    implies valid_block(self.nodes@[i] as int, self.nodes@.len() as int)
                    && self.levels@[self.nodes@[i] as int / 8] == self.levels@[i / 8] + 1 by {
                    assert(i < b);
                    assert(old(self).nodes@[i] == self.nodes@[i]);
                }
                assert forall|a: int, c: int|
                    0 <= a < self.nodes@.len() && 0 <= c < self.nodes@.len() && a != c && is_pointer(
                        #[trigger] self.nodes@[a],
                    ) implies #[trigger] self.nodes@[c] != self.nodes@[a] by {
                    assert(a < b);
                    assert(old(self).nodes@[a] == self.nodes@[a]);
                    if c < b {
                        assert(old(self).nodes@[c] == self.nodes@[c]);
                    }
                }
                assert forall|i: int| 0 <= i < self.nodes@.len() && is_solid(#[trigger] self.nodes@[i])
                    implies voxel_index(self.nodes@[i]) < self.voxel_positions@.len() by {
                    assert(i < b);
                    assert(old(self).nodes@[i] == self.nodes@[i]);
                }
                assert forall|k: int, i: int|
                    0 <= k < self.free_blocks@.len() && 0 <= i < self.nodes@.len()
                        implies #[trigger] self.nodes@[i] as int != #[trigger] self.free_blocks@[k] as int by {}
                assert forall|i: int| 0 <= i < self.nodes@.len() implies #[trigger] self.nodes@[i] != b by {
                    if i < b {
                        assert(old(self).nodes@[i] == self.nodes@[i]);
                    }
                }
            }
            Ok(b)
        } else {
            Err(TreeError::StoreFull)
        }
    }

    /// Whether any entry of the store holds the value `b`.
    fn is_referenced(&self, b: usize) -> (r: bool)
        ensures
            r == exists|i: int| 0 <= i < self.nodes@.len() && #[trigger] self.nodes@[i] as int == b as int,
    {
        let mut i: usize = 0;
        while i < self.nodes.len()
            invariant
                0 <= i <= self.nodes@.len(),
                forall|j: int| 0 <= j < i ==> #[trigger] self.nodes@[j] as int != b as int,
            decreases self.nodes@.len() - i,
        {
            if self.nodes[i] as usize == b {
                return true;
            }
            i += 1;
        }
        false
    }

    /// Whether the free list holds `b`.
    fn is_free(&self, b: usize) -> (r: bool)
        ensures
            r == self.free_blocks@.contains(b),
    {
        let mut k: usize = 0;
        while k < self.free_blocks.len()
            invariant
                0 <= k <= self.free_blocks@.len(),
                forall|j: int| 0 <= j < k ==> #[trigger] self.free_blocks@[j] != b,
            decreases self.free_blocks@.len() - k,
        {
            if self.free_blocks[k] == b {
                return true;
            }
            k += 1;
        }
        false
    }

    /// Records the block at `index` as free. Fails with `InvariantViolation`
    /// when `index` is not the start of a non-root block of the store, when
    /// the block is already free, or when an entry still points at it.
    pub fn free_block(&mut self, index: usize) -> (r: Result<(), TreeError>)
        requires
            old(self).wf(),
        ensures
            final(self).wf(),
            r is Ok <==> valid_block(index as int, old(self).nodes@.len() as int)
                && !old(self).free_blocks@.contains(index)
                && forall|i: int| 0 <= i < old(self).nodes@.len() ==> #[trigger] old(self).nodes@[i] as int != index as int,
            r is Ok ==> final(self).free_blocks@ == old(self).free_blocks@.push(index)
                && final(self).nodes@ == old(self).nodes@
                && final(self).voxel_positions@ == old(self).voxel_positions@,
            r is Err ==> r == Err::<(), TreeError>(TreeError::InvariantViolation) && *final(self) == *old(self),
    {
        if index % 8 != 0 || index < 8 || index > self.nodes.len() - 8 {
            return Err(TreeError::InvariantViolation);
        }
        if self.is_free(index) || self.is_referenced(index) {
            return Err(TreeError::InvariantViolation);
        }
        self.free_blocks.push(index);
        proof {
            assert forall|k: int, l: int|
                0 <= k < self.free_blocks@.len() && 0 <= l < self.free_blocks@.len() && k != l
                    implies #[trigger] self.free_blocks@[k] != #[trigger] self.free_blocks@[l] by {
                if k == self.free_blocks@.len() - 1 {
                    assert(old(self).free_blocks@[l] == self.free_blocks@[l]);
                } else if l == self.free_blocks@.len() - 1 {
                    assert(old(self).free_blocks@[k] == self.free_blocks@[k]);
                }
            }
            assert forall|k: int, i: int|
                0 <= k < self.free_blocks@.len() && 0 <= i < self.nodes@.len()
                    implies #[trigger] self.nodes@[i] as int != #[trigger] self.free_blocks@[k] as int by {
                if k < self.free_blocks@.len() - 1 {
                    assert(old(self).free_blocks@[k] == self.free_blocks@[k]);
                }
            }
        }
        Ok(())
    }

    /// Whether entry `node` lies in a freed block.
    fn entry_in_free_block(&self, node: usize) -> (r: bool)
        ensures
            r == self.in_free_block(node as int),
    {
        let r = self.is_free(node - node % 8);
        proof {
            if r {
                let k = choose|k: int| 0 <= k < self.free_blocks@.len() && self.free_blocks@[k] == node - node % 8;
                assert(self.free_blocks@[k] == node as int - node as int % 8);
            }
        }
        r
    }

    /// Splits the leaf at `node` into eight children written from `mask`
    /// (see `add_voxels`), in a block from `allocate_block`; the entry then
    /// points at that block. Fails, leaving the tree as it was, with
    /// `AlreadySubdivided` when the entry is a pointer, `InvariantViolation`
    /// when it lies in a freed block, and `StoreFull` when no block can be
    /// had. The depth argument is not read.
    pub fn subdivide(&mut self, node: usize, mask: u8, bottom_level: bool, _depth: u32) -> (r: Result<(), TreeError>)
        requires
            old(self).wf(),
            node < old(self).nodes@.len(),
        ensures
            final(self).wf(),
            final(self).voxel_positions@ == old(self).voxel_positions@,
            r == Err::<(), TreeError>(TreeError::AlreadySubdivided) <==> is_pointer(old(self).nodes@[node as int]),
            r == Err::<(), TreeError>(TreeError::InvariantViolation) <==> !is_pointer(old(self).nodes@[node as int])
                && old(self).in_free_block(node as int),
            r == Err::<(), TreeError>(TreeError::StoreFull) <==> !is_pointer(old(self).nodes@[node as int])
                && !old(self).in_free_block(node as int) && old(self).free_blocks@.len() == 0
                && old(self).nodes@.len() + 8 > MAX_NODES,
            r != Err::<(), TreeError>(TreeError::ChildrenNotLeaves),
            r is Err ==> *final(self) == *old(self),
            r is Ok ==> subdivided(*old(self), *final(self), node as int, mask, bottom_level),
    {
        if self.nodes[node] < UNRESOLVED {
            return Err(TreeError::AlreadySubdivided);
        }
        if self.entry_in_free_block(node) {
            return Err(TreeError::InvariantViolation);
        }
        let ghost pre = *self;
        let b = match self.allocate_block() {
            Ok(b) => b,
            Err(e) => {
                return Err(e);
            },
        };
        proof {
            // The entry is outside the new block: either it was appended past
            // the end, or it came from the free list, which held no block of
            // the entry.
            if pre.free_blocks@.len() > 0 {
                if b <= node < b + 8 {
                    assert(pre.free_blocks@[pre.free_blocks@.len() - 1] == node - node % 8);
                    assert(pre.in_free_block(node as int));
                }
            }
            assert(!(b <= node < b + 8));
            assert(self.nodes@[node as int] == pre.nodes@[node as int]);
            assert(node / 8 != b / 8);
        }
        self.add_voxels(b, mask, bottom_level);
        let ghost level = self.levels@[node as int / 8] + 1;
        self.levels = Ghost(self.levels@.update(b as int / 8, level));
        proof {
            let n = self.nodes@;
            assert forall|i: int| 0 <= i < n.len() && is_pointer(#[trigger] n[i])
                implies valid_block(n[i] as int, n.len() as int)
                && self.levels@[n[i] as int / 8] == self.levels@[i / 8] + 1 by {
                if b <= i < b + 8 {
                    assert(n[i] == UNRESOLVED || n[i] == SOLID || n[i] == EMPTY);
                }
                assert(i / 8 != b / 8);
                assert(n[i] as int != b as int);
                assert(n[i] as int / 8 != b as int / 8);
            }
        }
        self.nodes.set(node, b as u32);
        proof {
            let n = self.nodes@;
            assert forall|i: int| 0 <= i < n.len() && is_pointer(#[trigger] n[i])
                implies valid_block(n[i] as int, n.len() as int)
                && self.levels@[n[i] as int / 8] == self.levels@[i / 8] + 1 by {
                if b <= i < b + 8 {
                    assert(n[i] == UNRESOLVED || n[i] == SOLID || n[i] == EMPTY);
                }
            }
            assert forall|a: int, c: int|
                0 <= a < n.len() && 0 <= c < n.len() && a != c && is_pointer(#[trigger] n[a])
                    implies #[trigger] n[c] != n[a] by {
                if a == node {
                    assert(n[c] as int != b as int);
                } else if c == node {
                    assert(n[a] as int != b as int);
                } else {
                    if b <= a < b + 8 {
                        assert(n[a] == UNRESOLVED || n[a] == SOLID || n[a] == EMPTY);
                    }
                }
            }
            assert forall|k: int, i: int|
                0 <= k < self.free_blocks@.len() && 0 <= i < n.len()
                    implies #[trigger] n[i] as int != #[trigger] self.free_blocks@[k] as int by {
                if i == node {
                    assert(!self.free_blocks@.contains(b));
                }
            }
        }
        Ok(())
    }

    /// Whether the entries of the block at `c` are all voxels, and whether
    /// they are all empty voxels.
    fn scan_block(&self, c: usize) -> (r: (bool, bool))
        requires
            c + 8 <= self.nodes@.len(),
        ensures
            r.0 == forall|j: int| c <= j < c + 8 ==> is_voxel(#[trigger] self.nodes@[j]),
            r.1 == forall|j: int| c <= j < c + 8 ==> #[trigger] self.nodes@[j] == EMPTY,
    {
        let len = self.nodes.len();
        let mut all_voxels = true;
        let mut all_empty = true;
        let mut i: usize = 0;
        while i < 8
            invariant
                0 <= i <= 8,
                len == self.nodes@.len(),
                c + 8 <= len,
                all_voxels == forall|j: int| c <= j < c + i ==> is_voxel(#[trigger] self.nodes@[j]),
                all_empty == forall|j: int| c <= j < c + i ==> #[trigger] self.nodes@[j] == EMPTY,
            decreases 8 - i,
        {
            let v = self.nodes[c + i];
            if v < VOXEL_OFFSET {
                all_voxels = false;
            }
            if v != EMPTY {
                all_empty = false;
            }
            i += 1;
        }
        (all_voxels, all_empty)
    }

    /// Merges the eight voxel children of the interior node `node` back into
    /// one voxel: empty when every child is empty, else solid with a new
    /// attribute slot holding `attr`. The child block joins the free list.
    pub fn collapse(&mut self, node: usize, attr: Position) -> (r: Result<(), TreeError>)
        requires
            old(self).wf(),
            node < old(self).nodes@.len(),
            is_pointer(old(self).nodes@[node as int]),
        ensures
            final(self).wf(),
            ({
                let n = old(self).nodes@;
                let c = n[node as int] as int;
                let all_voxels = forall|i: int| c <= i < c + 8 ==> is_voxel(#[trigger] n[i]);
                let all_empty = forall|i: int| c <= i < c + 8 ==> #[trigger] n[i] == EMPTY;
                &&& r == Err::<(), TreeError>(TreeError::ChildrenNotLeaves) <==> !all_voxels
                &&& r == Err::<(), TreeError>(TreeError::StoreFull) <==> all_voxels && !all_empty
                    && old(self).voxel_positions@.len() >= MAX_VOXELS
                &&& r is Err ==> *final(self) == *old(self)
                &&& r is Ok ==> collapsed(*old(self), *final(self), node as int, attr)
            }),
    {
        let c = self.nodes[node] as usize;
        let ghost n = self.nodes@;
        let (all_voxels, all_empty) = self.scan_block(c);
        if !all_voxels {
            return Err(TreeError::ChildrenNotLeaves);
        }
        let v = if all_empty {
            EMPTY
        } else {
            if self.voxel_positions.len() >= MAX_VOXELS {
                return Err(TreeError::StoreFull);
            }
            let k = self.voxel_positions.len();
            self.voxel_positions.push(attr);
            SOLID + k as u32
        };
        self.set_leaf(node, v);
        proof {
            assert forall|j: int| 0 <= j < self.nodes@.len() implies #[trigger] self.nodes@[j] as int != c as int by {
                if j != node {
                    assert(n[j] != n[node as int]);
                }
            }
            assert forall|k: int| 0 <= k < self.free_blocks@.len() implies #[trigger] self.free_blocks@[k] != c by {
                assert(n[node as int] as int != self.free_blocks@[k] as int);
            }
        }
        self.free_blocks.push(c);
        proof {
            assert forall|k: int, l: int|
                0 <= k < self.free_blocks@.len() && 0 <= l < self.free_blocks@.len() && k != l
                    implies #[trigger] self.free_blocks@[k] != #[trigger] self.free_blocks@[l] by {
                if k == self.free_blocks@.len() - 1 {
                    assert(old(self).free_blocks@[l] == self.free_blocks@[l]);
                } else if l == self.free_blocks@.len() - 1 {
                    assert(old(self).free_blocks@[k] == self.free_blocks@[k]);
                } else {
                    assert(old(self).free_blocks@[k] == self.free_blocks@[k]);
                    assert(old(self).free_blocks@[l] == self.free_blocks@[l]);
                }
            }
            assert forall|k: int, j: int|
                0 <= k < self.free_blocks@.len() && 0 <= j < self.nodes@.len()
                    implies #[trigger] self.nodes@[j] as int != #[trigger] self.free_blocks@[k] as int by {
                if k < self.free_blocks@.len() - 1 {
                    assert(old(self).free_blocks@[k] == self.free_blocks@[k]);
                }
            }
        }
        Ok(())
    }

    /// The entries followed by zeros up to `size` entries.
    pub fn expanded(&self, size: usize) -> (r: Vec<u32>)
        requires
            self.nodes@.len() <= size,
        ensures
            r@.len() == size,
            r@.subrange(0, self.nodes@.len() as int) == self.nodes@,
            forall|i: int| self.nodes@.len() <= i < size ==> #[trigger] r@[i] == 0,
    {
        let mut nodes = self.nodes.clone();
        while nodes.len() < size
            invariant
                self.nodes@.len() <= nodes@.len() <= size,
                nodes@.subrange(0, self.nodes@.len() as int) == self.nodes@,
                forall|i: int| self.nodes@.len() <= i < nodes@.len() ==> #[trigger] nodes@[i] == 0,
            decreases size - nodes@.len(),
        {
            nodes.push(0);
            assert(nodes@.subrange(0, self.nodes@.len() as int) =~= self.nodes@);
        }
        nodes
    }

    /// The entries of the store, in order.
    pub fn raw_data(&self) -> (r: &Vec<u32>)
        ensures
            r@ == self.nodes@,
    {
        &self.nodes
    }

    /// The number of entries of the store.
    pub fn node_len(&self) -> (r: usize)
        ensures
            r == self.nodes@.len(),
    {
        self.nodes.len()
    }

    /// The number of blocks of the store, the root block included.
    pub fn block_count(&self) -> (r: usize)
        requires
            self.wf(),
        ensures
            r == self.nodes@.len() / 8,
    {
        self.nodes.len() / 8
    }

    /// The number of blocks on the free list.
    pub fn free_block_count(&self) -> (r: usize)
        ensures
            r == self.free_blocks@.len(),
    {
        self.free_blocks.len()
    }
}

} // verus!
