//! Laws that relate the operations of the tree to one another.

use vstd::prelude::*;
use crate::entry::{bit, is_pointer, Position, EMPTY};
use crate::locate::locate;
use crate::octree::{collapsed, mask_of, occupied_bits, subdivided, Octree};

verus! {

/// The occupancy mask of a block is the mask whose bit `i` tells whether
/// entry `i` of the block is occupied.
pub proof fn lemma_mask_of_bits(n: Seq<u32>, b: int, m: u8)
    requires
        0 <= b,
        b + 8 <= n.len(),
        forall|i: int| 0 <= i < 8 ==> (n[b + i] != EMPTY) == #[trigger] bit(m, i),
    ensures
        mask_of(n, b) == m,
{
    reveal_with_fuel(occupied_bits, 9);
    let o0 = n[b] != EMPTY;
    let o1 = n[b + 1] != EMPTY;
    let o2 = n[b + 2] != EMPTY;
    let o3 = n[b + 3] != EMPTY;
    let o4 = n[b + 4] != EMPTY;
    let o5 = n[b + 5] != EMPTY;
    let o6 = n[b + 6] != EMPTY;
    let o7 = n[b + 7] != EMPTY;
    assert(o0 == bit(m, 0));
    assert(o1 == bit(m, 1));
    assert(o2 == bit(m, 2));
    assert(o3 == bit(m, 3));
    assert(o4 == bit(m, 4));
    assert(o5 == bit(m, 5));
    assert(o6 == bit(m, 6));
    assert(o7 == bit(m, 7));
    let part0: u8 = if o0 { 1u8 << 0u8 } else { 0u8 };
    let part1: u8 = if o1 { 1u8 << 1u8 } else { 0u8 };
    let part2: u8 = if o2 { 1u8 << 2u8 } else { 0u8 };
    let part3: u8 = if o3 { 1u8 << 3u8 } else { 0u8 };
    let part4: u8 = if o4 { 1u8 << 4u8 } else { 0u8 };
    let part5: u8 = if o5 { 1u8 << 5u8 } else { 0u8 };
    let part6: u8 = if o6 { 1u8 << 6u8 } else { 0u8 };
    let part7: u8 = if o7 { 1u8 << 7u8 } else { 0u8 };
    assert(occupied_bits(n, b, 8) == 0u8 | part0 | part1 | part2 | part3 | part4 | part5 | part6 | part7);
    assert(m == 0u8 | part0 | part1 | part2 | part3 | part4 | part5 | part6 | part7) by (bit_vector)
        requires
            part0 == (if (m >> 0u8) & 1u8 != 0u8 { 1u8 << 0u8 } else { 0u8 }),
            part1 == (if (m >> 1u8) & 1u8 != 0u8 { 1u8 << 1u8 } else { 0u8 }),
            part2 == (if (m >> 2u8) & 1u8 != 0u8 { 1u8 << 2u8 } else { 0u8 }),
            part3 == (if (m >> 3u8) & 1u8 != 0u8 { 1u8 << 3u8 } else { 0u8 }),
            part4 == (if (m >> 4u8) & 1u8 != 0u8 { 1u8 << 4u8 } else { 0u8 }),
            part5 == (if (m >> 5u8) & 1u8 != 0u8 { 1u8 << 5u8 } else { 0u8 }),
            part6 == (if (m >> 6u8) & 1u8 != 0u8 { 1u8 << 6u8 } else { 0u8 }),
            part7 == (if (m >> 7u8) & 1u8 != 0u8 { 1u8 << 7u8 } else { 0u8 }),
    ;
}

/// The occupancy mask of a block depends only on which of its entries are
/// empty voxels.
pub proof fn lemma_mask_of_same_occupancy(n1: Seq<u32>, n2: Seq<u32>, b: int)
    requires
        0 <= b,
        b + 8 <= n1.len(),
        b + 8 <= n2.len(),
        forall|i: int| b <= i < b + 8 ==> (#[trigger] n1[i] != EMPTY) == (n2[i] != EMPTY),
    ensures
        mask_of(n1, b) == mask_of(n2, b),
{
    reveal_with_fuel(occupied_bits, 9);
    assert((n1[b] != EMPTY) == (n2[b] != EMPTY));
    assert((n1[b + 1] != EMPTY) == (n2[b + 1] != EMPTY));
    assert((n1[b + 2] != EMPTY) == (n2[b + 2] != EMPTY));
    assert((n1[b + 3] != EMPTY) == (n2[b + 3] != EMPTY));
    assert((n1[b + 4] != EMPTY) == (n2[b + 4] != EMPTY));
    assert((n1[b + 5] != EMPTY) == (n2[b + 5] != EMPTY));
    assert((n1[b + 6] != EMPTY) == (n2[b + 6] != EMPTY));
    assert((n1[b + 7] != EMPTY) == (n2[b + 7] != EMPTY));
}

/// After a subdivision with `mask`, the occupancy mask of the new block is
/// `mask` exactly.
pub proof fn law_subdivide_occupancy(s: Octree, t: Octree, node: int, mask: u8, bottom_level: bool)
    requires
        s.wf(),
        t.wf(),
        0 <= node < s.nodes@.len(),
        subdivided(s, t, node, mask, bottom_level),
    ensures
        mask_of(t.nodes@, t.nodes@[node] as int) == mask,
{
    let b = t.nodes@[node] as int;
    assert(t.nodes@[node] == t.nodes@[node]);
    assert forall|i: int| 0 <= i < 8 implies (t.nodes@[b + i] != EMPTY) == #[trigger] bit(mask, i) by {
        assert(t.nodes@[b + i] == if bit(mask, (b + i) - b) {
            if bottom_level { crate::entry::SOLID } else { crate::entry::UNRESOLVED }
        } else {
            EMPTY
        });
    }
    lemma_mask_of_bits(t.nodes@, b, mask);
}


/// Subdividing a leaf with an empty mask and collapsing it again succeeds
/// and leaves the entry an empty voxel; the child block goes back on the
/// free list, so the free list is as before when the block came from it,
/// and every other entry of the store is as before.
pub proof fn law_subdivide_collapse_round_trip(
    s: Octree,
    t: Octree,
    u: Octree,
    node: int,
    bottom_level: bool,
    attr: Position,
)
    requires
        s.wf(),
        t.wf(),
        0 <= node < s.nodes@.len(),
        subdivided(s, t, node, 0u8, bottom_level),
    ensures
        is_pointer(t.nodes@[node]),
        forall|i: int|
            t.nodes@[node] <= i < t.nodes@[node] + 8 ==> #[trigger] t.nodes@[i] == EMPTY,
        collapsed(t, u, node, attr) ==> {
            let b = t.nodes@[node] as int;
            &&& u.nodes@[node] == EMPTY
            &&& u.voxel_positions@ == s.voxel_positions@
            &&& u.free_blocks@.last() == b
            &&& s.free_blocks@.len() > 0 ==> u.free_blocks@ == s.free_blocks@ && u.nodes@.len()
                == s.nodes@.len()
            &&& s.free_blocks@.len() == 0 ==> u.free_blocks@ == seq![b as usize]
                && u.nodes@.len() == s.nodes@.len() + 8
            &&& forall|i: int|
                0 <= i < s.nodes@.len() && i != node && !(b <= i < b + 8) ==> #[trigger] u.nodes@[i]
                    == s.nodes@[i]
        },
        collapsed(t, u, node, attr) && u.wf() ==> {
            let b = t.nodes@[node] as int;
            &&& u.free_blocks@.contains(b as usize)
            &&& forall|i: int| 0 <= i < u.nodes@.len() ==> #[trigger] u.nodes@[i] as int != b
            &&& forall|k: int|
                0 <= k < u.free_blocks@.len() - 1 ==> #[trigger] u.free_blocks@[k] as int != b
        },
{
    let b = t.nodes@[node] as int;
    assert(forall|k: u8| (0u8 >> k) & 1u8 == 0u8) by (bit_vector);
    assert forall|i: int| b <= i < b + 8 implies #[trigger] t.nodes@[i] == EMPTY by {
        assert(!bit(0u8, i - b));
    }
    if collapsed(t, u, node, attr) {
        let j = u.free_blocks@.len() - 1;
        assert(u.free_blocks@[j] == b as usize);
        if u.wf() {
            assert forall|i: int| 0 <= i < u.nodes@.len() implies #[trigger] u.nodes@[i] as int != b by {
                assert(u.nodes@[i] as int != u.free_blocks@[j] as int);
            }
        }
        if s.free_blocks@.len() > 0 {
            assert(u.free_blocks@ =~= s.free_blocks@);
        } else {
            assert(u.free_blocks@ =~= seq![b as usize]);
        }
    }
}

/// Locating a position twice in an unchanged tree gives the same result.
pub proof fn law_locate_deterministic(
    t: Octree,
    pos: Position,
    max_depth: Option<u32>,
    r1: (usize, u32, Position, usize),
    r2: (usize, u32, Position, usize),
)
    requires
        (r1.0 as int, r1.1 as int, (r1.2.x as int, r1.2.y as int, r1.2.z as int), r1.3 as int)
            == locate(t.nodes@, pos, max_depth),
        (r2.0 as int, r2.1 as int, (r2.2.x as int, r2.2.y as int, r2.2.z as int), r2.3 as int)
            == locate(t.nodes@, pos, max_depth),
    ensures
        r1 == r2,
{
}

} // verus!
