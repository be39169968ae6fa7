//! Point location: the descent from the root towards the leaf that holds a
//! position.

use vstd::prelude::*;
use crate::entry::{bit, is_pointer, Position, EMPTY, MAX_NODES, ONE, SOLID, UNRESOLVED};
use crate::octree::{valid_block, Octree, TreeError};

verus! {

/// Half the side of a cell at `depth`, in fixed-point units: `1 / 2^depth`
/// rounded down to the grid.
pub open spec fn step(depth: nat) -> int
    decreases depth,
{
    if depth == 0 {
        ONE as int
    } else {
        step((depth - 1) as nat) / 2
    }
}

/// The child slot (x-bit * 4 + y-bit * 2 + z-bit) of the octant of `c`
/// that holds `pos`; a coordinate equal to the center's counts as above it.
pub open spec fn octant(pos: Position, c: (int, int, int)) -> int {
    (if pos.x >= c.0 { 4int } else { 0int }) + (if pos.y >= c.1 { 2int } else { 0int }) + (if pos.z
        >= c.2 { 1int } else { 0int })
}

/// One coordinate of the center of the chosen child cell.
pub open spec fn toward(p: i64, c: int, h: int) -> int {
    if p >= c { c + h } else { c - h }
}

/// The depth bound of a descent: none stands for the largest `u32`.
pub open spec fn depth_limit(max_depth: Option<u32>) -> int {
    match max_depth {
        Some(d) => d as int,
        None => u32::MAX as int,
    }
}

/// The descent from the block at `block`, whose cell has center `c` and
/// lies at `depth`: the result is (entry index, depth of that entry, center
/// of its cell, start of the block that holds the entry's parent).
pub open spec fn descend(
    n: Seq<u32>,
    pos: Position,
    block: int,
    c: (int, int, int),
    depth: int,
    parent: int,
    limit: int,
) -> (int, int, (int, int, int), int)
    decreases limit - depth,
{
    let d = depth + 1;
    let child = octant(pos, c);
    let h = step(d as nat);
    let c2 = (toward(pos.x, c.0, h), toward(pos.y, c.1, h), toward(pos.z, c.2, h));
    let idx = block + child;
    if d >= limit || !is_pointer(n[idx]) {
        (idx, d, c2, parent)
    } else {
        descend(n, pos, n[idx] as int, c2, d, block, limit)
    }
}

/// The descent from the root.
pub open spec fn locate(n: Seq<u32>, pos: Position, max_depth: Option<u32>) -> (
    int,
    int,
    (int, int, int),
    int,
) {
    descend(n, pos, 0, (0, 0, 0), 0, 0, depth_limit(max_depth))
}

/// A descent ends one level or more below where it starts, and no deeper
/// than the limit when it starts above it.
pub proof fn lemma_descend_depth(
    n: Seq<u32>,
    pos: Position,
    block: int,
    c: (int, int, int),
    depth: int,
    parent: int,
    limit: int,
)
    ensures
        descend(n, pos, block, c, depth, parent, limit).1 >= depth + 1,
        depth < limit ==> descend(n, pos, block, c, depth, parent, limit).1 <= limit,
        descend(n, pos, block, c, depth, parent, limit).1 < limit ==> !is_pointer(
            n[descend(n, pos, block, c, depth, parent, limit).0],
        ),
    decreases limit - depth,
{
    let d = depth + 1;
    let child = octant(pos, c);
    let h = step(d as nat);
    let c2 = (toward(pos.x, c.0, h), toward(pos.y, c.1, h), toward(pos.z, c.2, h));
    let idx = block + child;
    if d >= limit || !is_pointer(n[idx]) {
    } else {
        lemma_descend_depth(n, pos, n[idx] as int, c2, d, block, limit);
    }
}

/// A descent that starts in the root block or in a referenced block ends
/// in the root block or in a referenced block.
pub proof fn lemma_descend_reached(
    t: Octree,
    pos: Position,
    block: int,
    c: (int, int, int),
    depth: int,
    parent: int,
    limit: int,
)
    requires
        t.wf(),
        0 <= block,
        block % 8 == 0,
        block + 8 <= t.nodes@.len(),
        block == 0 || exists|j: int| 0 <= j < t.nodes@.len() && t.nodes@[j] as int == block,
    ensures
        ({
            let k = descend(t.nodes@, pos, block, c, depth, parent, limit).0;
            &&& 0 <= k < t.nodes@.len()
            &&& k - k % 8 == 0 || exists|j: int| 0 <= j < t.nodes@.len() && t.nodes@[j] as int == k - k % 8
        }),
    decreases limit - depth,
{
    let n = t.nodes@;
    let d = depth + 1;
    let child = octant(pos, c);
    let h = step(d as nat);
    let c2 = (toward(pos.x, c.0, h), toward(pos.y, c.1, h), toward(pos.z, c.2, h));
    let idx = block + child;
    if d >= limit || !is_pointer(n[idx]) {
    } else {
        assert(t.nodes@[idx] as int == n[idx] as int);
        lemma_descend_reached(t, pos, n[idx] as int, c2, d, block, limit);
    }
}

/// The entry where a descent from the root ends lies in a block whose level
/// is one less than the entry's depth.
pub proof fn lemma_descend_level(
    t: Octree,
    pos: Position,
    block: int,
    c: (int, int, int),
    depth: int,
    parent: int,
    limit: int,
)
    requires
        t.wf(),
        0 <= block,
        block % 8 == 0,
        block + 8 <= t.nodes@.len(),
        t.levels@[block / 8] == depth,
    ensures
        t.levels@[descend(t.nodes@, pos, block, c, depth, parent, limit).0 / 8] + 1 == descend(
            t.nodes@,
            pos,
            block,
            c,
            depth,
            parent,
            limit,
        ).1,
    decreases limit - depth,
{
    let n = t.nodes@;
    let d = depth + 1;
    let child = octant(pos, c);
    let h = step(d as nat);
    let c2 = (toward(pos.x, c.0, h), toward(pos.y, c.1, h), toward(pos.z, c.2, h));
    let idx = block + child;
    assert(0 <= child < 8);
    assert(idx / 8 == block / 8);
    if d >= limit || !is_pointer(n[idx]) {
    } else {
        assert(t.nodes@[idx] == n[idx]);
        lemma_descend_level(t, pos, n[idx] as int, c2, d, block, limit);
    }
}

/// Changing entries off the path of a descent leaves the descent as it was
/// up to its last entry: where that entry is not a pointer, or the limit is
/// reached, the result is the same; where it became a pointer, the descent
/// goes on through it. The changes may touch the last entry and the block
/// at `b`, which no entry references.
pub proof fn lemma_descend_frame(
    t: Octree,
    n2: Seq<u32>,
    b: int,
    pos: Position,
    block: int,
    c: (int, int, int),
    depth: int,
    parent: int,
    limit: int,
)
    requires
        t.wf(),
        0 <= block,
        block % 8 == 0,
        block + 8 <= t.nodes@.len(),
        b % 8 == 0,
        block != b,
        forall|j: int| 0 <= j < t.nodes@.len() ==> #[trigger] t.nodes@[j] as int != b,
        n2.len() >= t.nodes@.len(),
        forall|i: int|
            0 <= i < t.nodes@.len() && i != descend(t.nodes@, pos, block, c, depth, parent, limit).0
                && !(b <= i < b + 8) && is_pointer(t.nodes@[i]) && t.levels@[i / 8] < t.levels@[descend(
                t.nodes@,
                pos,
                block,
                c,
                depth,
                parent,
                limit,
            ).0 / 8] ==> n2[i] == #[trigger] t.nodes@[i],
    ensures
        ({
            let r = descend(t.nodes@, pos, block, c, depth, parent, limit);
            let k = r.0;
            &&& 0 <= k < t.nodes@.len()
            &&& t.levels@[k / 8] >= t.levels@[block / 8]
            &&& (r.1 >= limit || !is_pointer(n2[k])) ==> descend(n2, pos, block, c, depth, parent, limit) == r
            &&& (r.1 < limit && is_pointer(n2[k])) ==> descend(n2, pos, block, c, depth, parent, limit)
                == descend(n2, pos, n2[k] as int, r.2, r.1, k - k % 8, limit)
        }),
    decreases limit - depth,
{
    let n = t.nodes@;
    let d = depth + 1;
    let child = octant(pos, c);
    let h = step(d as nat);
    let c2 = (toward(pos.x, c.0, h), toward(pos.y, c.1, h), toward(pos.z, c.2, h));
    let idx = block + child;
    if d >= limit || !is_pointer(n[idx]) {
        assert(idx - idx % 8 == block);
    } else {
        assert(0 <= child < 8);
        assert(0 <= idx < n.len());
        let next = n[idx] as int;
        assert(valid_block(next, n.len() as int));
        lemma_descend_frame(t, n2, b, pos, next, c2, d, block, limit);
        let k = descend(n, pos, next, c2, d, block, limit).0;
        assert(idx / 8 == block / 8);
        assert(k / 8 != idx / 8);
        assert(!(b <= idx < b + 8));
        assert(n2[idx] == n[idx]);
    }
}

/// Inserting `q` keeps solid the voxel that `p` is located in at `depth`:
/// the insertion changes the entry where `q`'s descent ends, which is no
/// pointer on `p`'s path, and otherwise only appends blocks.
pub proof fn lemma_insert_keeps_solid(pre: Octree, post: Seq<u32>, q: Position, p: Position, depth: u32)
    requires
        pre.wf(),
        depth >= 1,
        locate(pre.nodes@, p, Some(depth)).1 == depth,
        pre.nodes@[locate(pre.nodes@, p, Some(depth)).0] == SOLID,
        post.len() >= pre.nodes@.len(),
        forall|i: int|
            0 <= i < pre.nodes@.len() && i != locate(pre.nodes@, q, Some(depth)).0 ==> #[trigger] post[i]
                == pre.nodes@[i],
        locate(pre.nodes@, q, Some(depth)).1 == depth ==> post == pre.nodes@.update(
            locate(pre.nodes@, q, Some(depth)).0,
            SOLID,
        ),
    ensures
        locate(post, p, Some(depth)).1 == depth,
        post[locate(post, p, Some(depth)).0] == SOLID,
{
    let n = pre.nodes@;
    let lp = locate(n, p, Some(depth));
    let lq = locate(n, q, Some(depth));
    lemma_descend_level(pre, p, 0, (0, 0, 0), 0, 0, depth as int);
    lemma_descend_level(pre, q, 0, (0, 0, 0), 0, 0, depth as int);
    lemma_descend_depth(n, q, 0, (0, 0, 0), 0, 0, depth as int);
    lemma_descend_reached(pre, p, 0, (0, 0, 0), 0, 0, depth as int);
    lemma_descend_reached(pre, q, 0, (0, 0, 0), 0, 0, depth as int);
    let b = n.len() as int;
    assert forall|j: int| 0 <= j < n.len() implies #[trigger] n[j] as int != b by {
        if is_pointer(n[j]) {
            assert(valid_block(n[j] as int, b));
        }
    }
    assert forall|i: int|
        0 <= i < n.len() && i != lp.0 && !(b <= i < b + 8) && is_pointer(n[i]) && pre.levels@[i / 8]
            < pre.levels@[lp.0 / 8] implies post[i] == #[trigger] n[i] by {
        if i == lq.0 {
            assert(lq.1 == depth);
        }
    }
    lemma_descend_frame(pre, post, b, p, 0, (0, 0, 0), 0, 0, depth as int);
    if lp.0 == lq.0 {
        assert(lq.1 == depth);
    }
}

/// In the blocks from `start` on, each block holds at most one non-empty
/// entry: a pointer to the block right after it, or a solid voxel in the
/// last block.
pub open spec fn appended_path(start: int, n: Seq<u32>) -> bool {
    &&& forall|i: int|
        start <= i < n.len() && #[trigger] n[i] != EMPTY ==> (is_pointer(n[i]) && n[i] as int == i - i % 8 + 8)
            || (n[i] == SOLID && i >= n.len() - 8)
    &&& forall|i: int, j: int|
        start <= i < n.len() && start <= j < n.len() && i / 8 == j / 8 && #[trigger] n[i] != EMPTY
            && #[trigger] n[j] != EMPTY ==> i == j
}

impl Octree {
    /// Descends from the root towards `pos` until a leaf, or until depth
    /// `max_depth` (at least 1), and returns (entry index, depth, center of
    /// the entry's cell, start of the block that holds its parent).
    pub fn get_node(&self, pos: Position, max_depth: Option<u32>) -> (r: (usize, u32, Position, usize))
        requires
            self.wf(),
        ensures
            r.0 < self.nodes@.len(),
            (r.0 as int, r.1 as int, (r.2.x as int, r.2.y as int, r.2.z as int), r.3 as int)
                == locate(self.nodes@, pos, max_depth),
    {
        let limit: u32 = match max_depth {
            Some(d) => d,
            None => u32::MAX,
        };
        let mut block: usize = 0;
        let mut center = Position::origin();
        let mut depth: u32 = 0;
        let mut parent: usize = 0;
        let mut half: i64 = ONE;
        loop
            invariant
                self.wf(),
                limit as int == depth_limit(max_depth),
                block % 8 == 0,
                block + 8 <= self.nodes@.len(),
                depth < limit || depth == 0,
                half as int == step(depth as nat),
                0 <= half,
                -2 * ONE + 2 * half <= center.x <= 2 * ONE - 2 * half,
                -2 * ONE + 2 * half <= center.y <= 2 * ONE - 2 * half,
                -2 * ONE + 2 * half <= center.z <= 2 * ONE - 2 * half,
                descend(
                    self.nodes@,
                    pos,
                    block as int,
                    (center.x as int, center.y as int, center.z as int),
                    depth as int,
                    parent as int,
                    limit as int,
                ) == locate(self.nodes@, pos, max_depth),
            decreases limit - depth,
        {
            let d = depth + 1;
            half = half / 2;
            let mut child: usize = 0;
            let mut next = center;
            if pos.x >= center.x {
                child = child + 4;
                next.x = center.x + half;
            } else {
                next.x = center.x - half;
            }
            if pos.y >= center.y {
                child = child + 2;
                next.y = center.y + half;
            } else {
                next.y = center.y - half;
            }
            if pos.z >= center.z {
                child = child + 1;
                next.z = center.z + half;
            } else {
                next.z = center.z - half;
            }
            let idx = block + child;
            let v = self.nodes[idx];
            if d >= limit || v >= UNRESOLVED {
                return (idx, d, next, parent);
            }
            parent = block;
            block = v as usize;
            center = next;
            depth = d;
        }
    }

    /// Marks solid the voxel at `depth` that holds `pos`, subdividing empty
    /// leaves on the way down as needed.
    #[verifier::rlimit(60)]
    pub fn put_in_voxel(&mut self, pos: Position, _value: u32, depth: u32) -> (r: Result<(), TreeError>)
        requires
            old(self).wf(),
            depth >= 1,
        ensures
            final(self).wf(),
            final(self).voxel_positions@ == old(self).voxel_positions@,
            r is Err ==> r == Err::<(), TreeError>(TreeError::StoreFull),
            r is Err ==> final(self).free_blocks@.len() == 0 && final(self).nodes@.len() + 8 > MAX_NODES,
            final(self).nodes@.len() <= old(self).nodes@.len() + 8 * (depth - 1),
            forall|i: int| 0 <= i < 8 && old(self).nodes@[i] != EMPTY ==> #[trigger] final(self).nodes@[i] != EMPTY,
            r is Ok ==> final(self).nodes@[octant(pos, (0, 0, 0))] != EMPTY,
            r is Ok ==> ({
                let l = locate(final(self).nodes@, pos, Some(depth));
                &&& l.1 == depth
                &&& final(self).nodes@[l.0] == SOLID
            }),
            final(self).free_blocks@.len() <= old(self).free_blocks@.len(),
            final(self).free_blocks@ == old(self).free_blocks@.subrange(0, final(self).free_blocks@.len() as int),
            ({
                let l0 = locate(old(self).nodes@, pos, Some(depth));
                &&& final(self).nodes@.len() >= old(self).nodes@.len()
                &&& forall|i: int|
                    0 <= i < old(self).nodes@.len() && i != l0.0 && !old(self).in_free_block(i)
                        ==> #[trigger] final(self).nodes@[i] == old(self).nodes@[i]
                &&& l0.1 == depth ==> r is Ok && final(self).nodes@ == old(self).nodes@.update(l0.0, SOLID)
                    && final(self).free_blocks@ == old(self).free_blocks@
                &&& r is Ok && l0.1 < depth ==> is_pointer(final(self).nodes@[l0.0])
                &&& r is Ok && old(self).free_blocks@.len() == 0 ==> final(self).nodes@.len()
                    == old(self).nodes@.len() + 8 * (depth - l0.1)
                &&& old(self).free_blocks@.len() == 0 ==> appended_path(old(self).nodes@.len() as int, final(self).nodes@)
            }),
    {
        proof {
            lemma_descend_depth(self.nodes@, pos, 0, (0, 0, 0), 0, 0, depth as int);
            lemma_descend_reached(*self, pos, 0, (0, 0, 0), 0, 0, depth as int);
        }
        let ghost l0 = locate(self.nodes@, pos, Some(depth));
        proof {
            let k0 = l0.0;
            if old(self).in_free_block(k0) {
                let k = choose|k: int| 0 <= k < old(self).free_blocks@.len() && #[trigger] old(self).free_blocks@[k] == k0 - k0 % 8;
                assert(valid_block(old(self).free_blocks@[k] as int, old(self).nodes@.len() as int));
                if k0 - k0 % 8 != 0 {
                    let j = choose|j: int| 0 <= j < old(self).nodes@.len() && old(self).nodes@[j] as int == k0 - k0 % 8;
                    assert(old(self).nodes@[j] as int != old(self).free_blocks@[k] as int);
                }
            }
        }
        loop
            invariant
                self.wf(),
                depth >= 1,
                self.nodes@.len() + 8 <= old(self).nodes@.len() + 8 * locate(self.nodes@, pos, Some(depth)).1,
                self.voxel_positions@ == old(self).voxel_positions@,
                forall|i: int| 0 <= i < 8 && old(self).nodes@[i] != EMPTY ==> #[trigger] self.nodes@[i] != EMPTY,
                l0 == locate(old(self).nodes@, pos, Some(depth)),
                0 <= l0.0 < old(self).nodes@.len(),
                !old(self).in_free_block(l0.0),
                self.nodes@.len() >= old(self).nodes@.len(),
                self.free_blocks@.len() <= old(self).free_blocks@.len(),
                self.free_blocks@ == old(self).free_blocks@.subrange(0, self.free_blocks@.len() as int),
                forall|i: int|
                    0 <= i < old(self).nodes@.len() && i != l0.0 && !old(self).in_free_block(i)
                        ==> #[trigger] self.nodes@[i] == old(self).nodes@[i],
                *self == *old(self) || ({
                    let k = locate(self.nodes@, pos, Some(depth)).0;
                    &&& l0.1 < depth
                    &&& is_pointer(self.nodes@[l0.0])
                    &&& k >= old(self).nodes@.len() || old(self).in_free_block(k)
                }),
                old(self).free_blocks@.len() == 0 ==> appended_path(old(self).nodes@.len() as int, self.nodes@),
                old(self).free_blocks@.len() == 0 && *self != *old(self) ==> {
                    &&& self.nodes@.len() >= old(self).nodes@.len() + 8
                    &&& locate(self.nodes@, pos, Some(depth)).0 >= self.nodes@.len() - 8
                    &&& forall|i: int| self.nodes@.len() - 8 <= i < self.nodes@.len() ==> #[trigger] self.nodes@[i] == EMPTY
                },
                old(self).free_blocks@.len() == 0 ==> self.nodes@.len() + 8 * l0.1 == old(self).nodes@.len() + 8
                    * locate(self.nodes@, pos, Some(depth)).1,
            decreases depth - locate(self.nodes@, pos, Some(depth)).1,
        {
            let (node, node_depth, _, _) = self.get_node(pos, Some(depth));
            proof {
                lemma_descend_depth(self.nodes@, pos, 0, (0, 0, 0), 0, 0, depth as int);
                lemma_descend_reached(*self, pos, 0, (0, 0, 0), 0, 0, depth as int);
            }
            let ghost pre = *self;
            let ghost l = locate(pre.nodes@, pos, Some(depth));
            if node_depth == depth {
                self.set_leaf(node, SOLID);
                proof {
                    let b = pre.nodes@.len() as int;
                    assert forall|j: int| 0 <= j < pre.nodes@.len() implies #[trigger] pre.nodes@[j] as int != b by {
                        if is_pointer(pre.nodes@[j]) {
                            assert(valid_block(pre.nodes@[j] as int, b));
                        }
                    }
                    lemma_descend_frame(pre, self.nodes@, b, pos, 0, (0, 0, 0), 0, 0, depth as int);
                    let o = octant(pos, (0, 0, 0));
                    if depth > 1 {
                        assert(is_pointer(self.nodes@[o]));
                    }
                    if pre != *old(self) {
                        assert(node != l0.0);
                        if old(self).free_blocks@.len() == 0 {
                            let n = self.nodes@;
                            let st = old(self).nodes@.len() as int;
                            assert forall|i: int|
                                st <= i < n.len() && #[trigger] n[i] != EMPTY implies (is_pointer(n[i]) && n[i] as int
                                    == i - i % 8 + 8) || (n[i] == SOLID && i >= n.len() - 8) by {
                                if i != node {
                                    assert(n[i] == pre.nodes@[i]);
                                }
                            }
                            assert forall|i: int, j: int|
                                st <= i < n.len() && st <= j < n.len() && i / 8 == j / 8 && #[trigger] n[i] != EMPTY
                                    && #[trigger] n[j] != EMPTY implies i == j by {
                                if i != node {
                                    assert(n[i] == pre.nodes@[i]);
                                }
                                if j != node {
                                    assert(n[j] == pre.nodes@[j]);
                                }
                            }
                        }
                    } else {
                        assert(self.nodes@ =~= old(self).nodes@.update(l0.0, SOLID));
                    }
                }
                return Ok(());
            }
            proof {
                if pre.in_free_block(node as int) {
                    let k = choose|k: int| 0 <= k < pre.free_blocks@.len() && #[trigger] pre.free_blocks@[k] == node - node % 8;
                    assert(valid_block(pre.free_blocks@[k] as int, pre.nodes@.len() as int));
                    if node - node % 8 != 0 {
                        let j = choose|j: int| 0 <= j < pre.nodes@.len() && pre.nodes@[j] as int == node - node % 8;
                        assert(pre.nodes@[j] as int != pre.free_blocks@[k] as int);
                    }
                }
            }
            match self.subdivide(node, 0u8, true, node_depth) {
                Ok(()) => {},
                Err(e) => {
                    proof {
                        assert(e != TreeError::AlreadySubdivided);
                        assert(e != TreeError::InvariantViolation);
                    }
                    return Err(e);
                },
            }
            proof {
                let b = self.nodes@[node as int] as int;
                if pre.free_blocks@.len() > 0 {
                    let k = pre.free_blocks@.len() - 1;
                    assert(valid_block(pre.free_blocks@[k] as int, pre.nodes@.len() as int));
                    assert forall|j: int| 0 <= j < pre.nodes@.len() implies #[trigger] pre.nodes@[j] as int != b by {
                        assert(pre.nodes@[j] as int != pre.free_blocks@[k] as int);
                    }
                } else {
                    assert forall|j: int| 0 <= j < pre.nodes@.len() implies #[trigger] pre.nodes@[j] as int != b by {
                        if is_pointer(pre.nodes@[j]) {
                            assert(valid_block(pre.nodes@[j] as int, pre.nodes@.len() as int));
                        }
                    }
                }
                lemma_descend_frame(pre, self.nodes@, b, pos, 0, (0, 0, 0), 0, 0, depth as int);
                lemma_descend_depth(self.nodes@, pos, b, l.2, l.1, node - node % 8, depth as int);
                let nl = locate(self.nodes@, pos, Some(depth));
                let idx = b + octant(pos, l.2);
                assert(b <= idx < b + 8);
                assert(forall|k: u8| (0u8 >> k) & 1u8 == 0u8) by (bit_vector);
                assert(!bit(0u8, idx - b));
                assert(self.nodes@[idx] == EMPTY);
                assert(nl.0 == idx && nl.1 == l.1 + 1);
                if pre.free_blocks@.len() > 0 {
                    let j = pre.free_blocks@.len() - 1;
                    assert(old(self).free_blocks@[j] == pre.free_blocks@[j]);
                    assert(self.free_blocks@ =~= old(self).free_blocks@.subrange(0, self.free_blocks@.len() as int));
                    assert forall|i: int| b <= i < b + 8 implies old(self).in_free_block(i) by {
                        assert(old(self).free_blocks@[j] == i - i % 8);
                    }
                }
                if pre != *old(self) {
                    assert(node != l0.0);
                }
                assert forall|i: int|
                    0 <= i < old(self).nodes@.len() && i != l0.0 && !old(self).in_free_block(i)
                        implies #[trigger] self.nodes@[i] == old(self).nodes@[i] by {
                    assert(i != node);
                    assert(!(b <= i < b + 8));
                    assert(pre.nodes@[i] == old(self).nodes@[i]);
                }
                assert(old(self).in_free_block(idx) || idx >= old(self).nodes@.len());
                if old(self).free_blocks@.len() == 0 {
                    let n = self.nodes@;
                    let st = old(self).nodes@.len() as int;
                    assert(b == pre.nodes@.len());
                    assert(n.len() == b + 8);
                    assert forall|i: int| b <= i < b + 8 implies #[trigger] n[i] == EMPTY by {
                        assert(!bit(0u8, i - b));
                    }
                    assert forall|i: int|
                        st <= i < n.len() && #[trigger] n[i] != EMPTY implies (is_pointer(n[i]) && n[i] as int
                            == i - i % 8 + 8) || (n[i] == SOLID && i >= n.len() - 8) by {
                        if i != node && i < b {
                            assert(n[i] == pre.nodes@[i]);
                        }
                    }
                    assert forall|i: int, j: int|
                        st <= i < n.len() && st <= j < n.len() && i / 8 == j / 8 && #[trigger] n[i] != EMPTY
                            && #[trigger] n[j] != EMPTY implies i == j by {
                        if i != node && i < b {
                            assert(n[i] == pre.nodes@[i]);
                        }
                        if j != node && j < b {
                            assert(n[j] == pre.nodes@[j]);
                        }
                    }
                }
                assert forall|i: int| 0 <= i < 8 && old(self).nodes@[i] != EMPTY implies #[trigger] self.nodes@[i] != EMPTY by {
                    if i != node {
                        assert(pre.nodes@[i] != EMPTY);
                        assert(self.nodes@[i] == pre.nodes@[i]);
                    }
                }
            }
        }
    }
}

} // verus!
