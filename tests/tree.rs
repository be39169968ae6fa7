use svo::entry::{Position, EMPTY, ONE, SOLID, UNRESOLVED};
use svo::octree::{Octree, TreeError};

#[test]
fn new_tree_root_mask() {
    let t = Octree::new(0b0101_1011);
    assert_eq!(t.get_node_mask(0), 0b0101_1011);
    assert_eq!(t.node_len(), 8);
    assert_eq!(t.raw_data()[0], SOLID);
    assert_eq!(t.raw_data()[2], EMPTY);
}

#[test]
fn subdivide_bottom_level_mask_is_exact() {
    let mut t = Octree::new(0b1000_0001);
    assert_eq!(t.subdivide(0, 0b0110_0101, true, 1), Ok(()));
    let b = t.raw_data()[0] as usize;
    assert_eq!(b, 8);
    assert_eq!(t.get_node_mask(b), 0b0110_0101);
    assert_eq!(t.raw_data()[8], SOLID);
    assert_eq!(t.raw_data()[9], EMPTY);
}

#[test]
fn subdivide_upper_level_marks_unresolved() {
    let mut t = Octree::new(0b0000_0001);
    assert_eq!(t.subdivide(0, 0b0000_0011, false, 1), Ok(()));
    assert_eq!(t.raw_data()[8], UNRESOLVED);
    assert_eq!(t.raw_data()[9], UNRESOLVED);
    assert_eq!(t.raw_data()[10], EMPTY);
    assert_eq!(t.get_node_mask(8), 0b0000_0011);
}

#[test]
fn subdivide_twice_fails() {
    let mut t = Octree::new(0xFF);
    assert_eq!(t.subdivide(3, 0, true, 1), Ok(()));
    assert_eq!(t.subdivide(3, 0, true, 1), Err(TreeError::AlreadySubdivided));
}

#[test]
fn subdivide_collapse_round_trip() {
    let mut t = Octree::new(0b0000_0100);
    assert_eq!(t.subdivide(2, 0, true, 1), Ok(()));
    assert_eq!(t.node_len(), 16);
    assert_eq!(t.collapse(2, Position::origin()), Ok(()));
    assert_eq!(t.raw_data()[2], EMPTY);
    assert_eq!(t.free_block_count(), 1);
    assert_eq!(t.free_blocks, vec![8]);
    // The block is reused: the store does not grow.
    assert_eq!(t.subdivide(5, 0, true, 1), Ok(()));
    assert_eq!(t.raw_data()[5], 8);
    assert_eq!(t.node_len(), 16);
    assert_eq!(t.free_block_count(), 0);
    assert_eq!(t.collapse(5, Position::origin()), Ok(()));
    assert_eq!(t.raw_data()[5], EMPTY);
    assert_eq!(t.node_len(), 16);
}

#[test]
fn collapse_solid_children_appends_attribute() {
    let mut t = Octree::new(0b0000_0001);
    assert_eq!(t.subdivide(0, 0b0000_0010, true, 1), Ok(()));
    let attr = Position::new(1, 2, 3);
    assert_eq!(t.collapse(0, attr), Ok(()));
    assert_eq!(t.raw_data()[0], SOLID + 1);
    assert_eq!(t.voxel_positions.len(), 2);
    assert_eq!(t.voxel_positions[1], attr);
}

#[test]
fn collapse_with_interior_child_fails() {
    let mut t = Octree::new(0b0000_0001);
    assert_eq!(t.subdivide(0, 0b0000_0001, true, 1), Ok(()));
    assert_eq!(t.subdivide(8, 0b0000_0001, true, 2), Ok(()));
    assert_eq!(t.collapse(0, Position::origin()), Err(TreeError::ChildrenNotLeaves));
    assert_eq!(t.raw_data()[0], 8);
}

#[test]
fn collapse_with_unresolved_child_fails() {
    let mut t = Octree::new(0b0000_0001);
    assert_eq!(t.subdivide(0, 0b0000_0001, false, 1), Ok(()));
    assert_eq!(t.collapse(0, Position::origin()), Err(TreeError::ChildrenNotLeaves));
}

#[test]
fn allocate_block_prefers_free_list() {
    let mut t = Octree::new(0);
    assert_eq!(t.allocate_block(), Ok(8));
    assert_eq!(t.allocate_block(), Ok(16));
    assert_eq!(t.free_block(8), Ok(()));
    assert_eq!(t.free_block(16), Ok(()));
    assert_eq!(t.allocate_block(), Ok(16));
    assert!(!t.free_blocks.contains(&16));
    assert_eq!(t.allocate_block(), Ok(8));
    assert!(t.free_blocks.is_empty());
    assert_eq!(t.allocate_block(), Ok(24));
    assert_eq!(t.node_len(), 32);
}

#[test]
fn free_block_rejects_bad_blocks() {
    let mut t = Octree::new(0b0000_0001);
    assert_eq!(t.subdivide(0, 0, true, 1), Ok(()));
    // Still referenced by entry 0.
    assert_eq!(t.free_block(8), Err(TreeError::InvariantViolation));
    // The root block, a misaligned start, and a block past the end.
    assert_eq!(t.free_block(0), Err(TreeError::InvariantViolation));
    assert_eq!(t.free_block(4), Err(TreeError::InvariantViolation));
    assert_eq!(t.free_block(16), Err(TreeError::InvariantViolation));
    assert_eq!(t.allocate_block(), Ok(16));
    assert_eq!(t.free_block(16), Ok(()));
    assert_eq!(t.free_block(16), Err(TreeError::InvariantViolation));
}

#[test]
fn subdivide_inside_free_block_fails() {
    let mut t = Octree::new(0);
    assert_eq!(t.allocate_block(), Ok(8));
    assert_eq!(t.free_block(8), Ok(()));
    assert_eq!(t.subdivide(9, 0, true, 2), Err(TreeError::InvariantViolation));
}

#[test]
fn get_node_first_level() {
    let t = Octree::new(0xFF);
    let p = Position::new(1, -1, 1);
    let (index, depth, center, parent) = t.get_node(p, None);
    assert_eq!(index, 5);
    assert_eq!(depth, 1);
    assert_eq!(center, Position::new(ONE / 2, -ONE / 2, ONE / 2));
    assert_eq!(parent, 0);
}

#[test]
fn get_node_descends_and_stops_at_max_depth() {
    let mut t = Octree::new(0xFF);
    assert_eq!(t.subdivide(7, 0xFF, true, 1), Ok(()));
    let p = Position::new(3 * ONE / 4, 3 * ONE / 4, 3 * ONE / 4);
    assert_eq!(t.get_node(p, None), (15, 2, Position::new(3 * ONE / 4, 3 * ONE / 4, 3 * ONE / 4), 0));
    let q = Position::new(ONE / 8, ONE / 8, ONE / 8);
    assert_eq!(t.get_node(q, None), (8, 2, Position::new(ONE / 4, ONE / 4, ONE / 4), 0));
    // At max depth 1 the interior entry itself comes back.
    assert_eq!(t.get_node(p, Some(1)), (7, 1, Position::new(ONE / 2, ONE / 2, ONE / 2), 0));
}

#[test]
fn get_node_twice_gives_same_result() {
    let mut t = Octree::new(0b1010_0101);
    assert_eq!(t.subdivide(0, 0b0011_1100, true, 1), Ok(()));
    let p = Position::new(-ONE / 3, -ONE / 5, -ONE / 7);
    let a = t.get_node(p, None);
    let b = t.get_node(p, None);
    assert_eq!(a, b);
    assert_eq!(t.get_node(p, Some(1)), t.get_node(p, Some(1)));
}

#[test]
fn put_in_voxel_builds_path() {
    let mut t = Octree::new(0);
    let p = Position::new(ONE / 4 + 1, -ONE / 4 - 1, ONE / 4 + 1);
    assert_eq!(t.put_in_voxel(p, 1, 3), Ok(()));
    let (index, depth, _, _) = t.get_node(p, Some(3));
    assert_eq!(depth, 3);
    assert_eq!(t.raw_data()[index], SOLID);
    assert_eq!(t.node_len(), 24);
    // Inserting again changes nothing.
    assert_eq!(t.put_in_voxel(p, 1, 3), Ok(()));
    assert_eq!(t.node_len(), 24);
}

#[test]
fn put_in_voxel_at_depth_one_fills_root() {
    let mut t = Octree::new(0);
    assert_eq!(t.put_in_voxel(Position::new(-1, -1, -1), 1, 1), Ok(()));
    assert_eq!(t.get_node_mask(0), 0b0000_0001);
    assert_eq!(t.node_len(), 8);
}

#[test]
fn expanded_pads_with_zeros() {
    let t = Octree::new(0b0000_0001);
    let e = t.expanded(12);
    assert_eq!(e.len(), 12);
    assert_eq!(e[0], SOLID);
    assert_eq!(e[1], EMPTY);
    assert_eq!(&e[8..], &[0, 0, 0, 0]);
    assert_eq!(t.expanded(8), t.raw_data().clone());
}

#[test]
fn block_counts() {
    let mut t = Octree::new(0b0000_0011);
    assert_eq!(t.subdivide(0, 0, true, 1), Ok(()));
    assert_eq!(t.subdivide(1, 0, true, 1), Ok(()));
    assert_eq!(t.collapse(1, Position::origin()), Ok(()));
    assert_eq!(t.block_count(), 3);
    assert_eq!(t.free_block_count(), 1);
}

/// Checks the store's invariants: aligned, in-bounds, uniquely referenced
/// pointers, and a free list of distinct unreferenced blocks.
fn check_store(t: &Octree) {
    let n = t.raw_data();
    assert_eq!(n.len() % 8, 0);
    let mut seen = std::collections::HashSet::new();
    for v in n.iter() {
        if *v < UNRESOLVED {
            assert_eq!(v % 8, 0);
            assert!(*v >= 8 && (*v as usize) + 8 <= n.len());
            assert!(seen.insert(*v), "block {} referenced twice", v);
        }
    }
    let mut free = std::collections::HashSet::new();
    for f in t.free_blocks.iter() {
        assert!(free.insert(*f), "block {} freed twice", f);
        assert!(!seen.contains(&(*f as u32)), "free block {} still referenced", f);
    }
}

#[test]
fn random_subdivide_collapse_keeps_store_valid() {
    let mut t = Octree::new(0b1011_0110);
    let mut state: u64 = 0x2545_F491_4F6C_DD1D;
    let mut next = move || {
        state ^= state << 13;
        state ^= state >> 7;
        state ^= state << 17;
        state
    };
    for _ in 0..2000 {
        let len = t.node_len();
        let i = (next() as usize) % len;
        let v = t.raw_data()[i];
        let in_free = t.free_blocks.contains(&(i - i % 8));
        if v < UNRESOLVED {
            let before = t.free_blocks.clone();
            let r = t.collapse(i, Position::new(1, 1, 1));
            if r.is_ok() {
                assert_eq!(t.free_blocks.len(), before.len() + 1);
                assert_eq!(*t.free_blocks.last().unwrap(), v as usize);
            } else {
                assert_eq!(r, Err(TreeError::ChildrenNotLeaves));
            }
        } else {
            let before = t.free_blocks.clone();
            let r = t.subdivide(i, (next() % 256) as u8, next() % 2 == 0, 0);
            if in_free {
                assert_eq!(r, Err(TreeError::InvariantViolation));
            } else {
                assert_eq!(r, Ok(()));
                let b = t.raw_data()[i] as usize;
                assert!(!t.free_blocks.contains(&b));
                if let Some(last) = before.last() {
                    assert_eq!(b, *last);
                }
            }
        }
        check_store(&t);
    }
}

#[test]
fn put_in_voxel_exact_store() {
    let mut t = Octree::new(0);
    let p = Position::new(ONE / 2, ONE / 2, ONE / 2);
    assert_eq!(t.put_in_voxel(p, 1, 2), Ok(()));
    let mut expected = vec![EMPTY; 7];
    expected.push(8);
    expected.extend(vec![EMPTY; 7]);
    expected.push(SOLID);
    assert_eq!(t.raw_data(), &expected);
    // A second insertion of the same point leaves the store as it was.
    assert_eq!(t.put_in_voxel(p, 1, 2), Ok(()));
    assert_eq!(t.raw_data(), &expected);
    assert!(t.free_blocks.is_empty());
}

#[test]
fn put_in_voxel_grows_eight_per_level() {
    let mut t = Octree::new(0);
    let p = Position::new(-ONE / 3, ONE / 5, -ONE / 7);
    assert_eq!(t.put_in_voxel(p, 1, 5), Ok(()));
    assert_eq!(t.node_len(), 8 + 8 * 4);
}
