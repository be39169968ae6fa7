//! Building a tree from the bytes of a model file: the sparse voxel octree
//! layout, read level by level, and MagicaVoxel point clouds.

use vstd::prelude::*;
use vstd::string::StringSliceAdditionalSpecFns;
use crate::entry::{bit, is_pointer, Position, EMPTY, MAX_NODES, ONE, SOLID, UNRESOLVED};
use crate::octree::{mask_of, Octree, TreeError};
use crate::locate::locate;

verus! {

/// Why a model could not be loaded.
#[derive(Clone, Copy, Debug, PartialEq, Eq, Structural)]
pub enum LoadError {
    /// The model is not a cube, or its side is not a power of two of at
    /// least 2.
    InvalidGeometry,
    /// The file name has no extension this library reads.
    UnknownFileType,
    /// The bytes are truncated or do not decode.
    MalformedData,
    /// The tree outgrew the store.
    StoreFull,
}

/// The number of the deepest level, read from byte 16 of the header.
pub open spec fn top_level(d: Seq<u8>) -> int {
    d[16] as int
}

/// Where the mask stream starts: after the `top_level + 1` level counts.
pub open spec fn data_start(d: Seq<u8>) -> int {
    20 + 4 * (top_level(d) + 1)
}

/// The header can be read, the mask stream has its root mask, and the file
/// has `depth` levels to count.
pub open spec fn header_ok(d: Seq<u8>, depth: int) -> bool {
    &&& d.len() > 16
    &&& data_start(d) < d.len()
    &&& depth <= top_level(d) + 1
}

/// The node count of level `i`, a big-endian 32-bit integer.
pub open spec fn level_count(d: Seq<u8>, i: int) -> int {
    let o = 20 + 4 * i;
    d[o] * 16777216 + d[o + 1] * 65536 + d[o + 2] * 256 + d[o + 3]
}

/// The sum of the counts of the first `k` levels.
pub open spec fn cutoff(d: Seq<u8>, k: int) -> int
    decreases k,
{
    if k <= 0 {
        0
    } else {
        cutoff(d, k - 1) + level_count(d, k - 1)
    }
}

/// The eight entries that a mask writes for a block.
pub open spec fn block_of(mask: u8, set: u32) -> Seq<u32> {
    Seq::new(8, |j: int| if bit(mask, j) { set } else { EMPTY })
}

/// The scan of the store in index order, from entry `i` with the stream at
/// mask `di`: an empty voxel is skipped; any other entry takes mask `di`,
/// and while `di` is below `node_end` it becomes a pointer to a new block
/// appended with that mask's unresolved children, else a solid voxel. The
/// scan fails when the stream has no mask `di` or the store has no room
/// for a block.
pub open spec fn sparse_scan(d: Seq<u8>, ds: int, node_end: int, n: Seq<u32>, i: int, di: int) -> Result<
    Seq<u32>,
    LoadError,
>
    decreases (if di < node_end { node_end - di } else { 0 }), n.len() - i,
{
    if i < 0 || i >= n.len() {
        Ok(n)
    } else if n[i] == EMPTY {
        sparse_scan(d, ds, node_end, n, i + 1, di)
    } else if di < node_end {
        if ds + di >= d.len() || ds + di < 0 {
            Err(LoadError::MalformedData)
        } else if n.len() + 8 > MAX_NODES {
            Err(LoadError::StoreFull)
        } else {
            sparse_scan(
                d,
                ds,
                node_end,
                n.update(i, n.len() as u32) + block_of(d[ds + di], UNRESOLVED),
                i + 1,
                di + 1,
            )
        }
    } else {
        sparse_scan(d, ds, node_end, n.update(i, SOLID), i + 1, di + 1)
    }
}

/// The store decoded from a file whose header is well formed.
pub open spec fn sparse_decode(d: Seq<u8>, depth: int) -> Result<Seq<u32>, LoadError> {
    let ds = data_start(d);
    sparse_scan(d, ds, cutoff(d, depth), block_of(d[ds], SOLID), 0, 1)
}

/// What decoding `data` in the sparse voxel octree layout down to `depth`
/// levels may give.
pub open spec fn sparse_outcome(data: Seq<u8>, depth: int, r: Result<Octree, LoadError>) -> bool {
    &&& !header_ok(data, depth) ==> r == Err::<Octree, LoadError>(LoadError::MalformedData)
    &&& r is Err ==> r == Err::<Octree, LoadError>(LoadError::MalformedData) || r == Err::<
        Octree,
        LoadError,
    >(LoadError::StoreFull)
    &&& r == Err::<Octree, LoadError>(LoadError::MalformedData) ==> !header_ok(data, depth) || data.len()
        < data_start(data) + cutoff(data, depth)
    &&& r == Err::<Octree, LoadError>(LoadError::StoreFull) ==> 8 * cutoff(data, depth) > MAX_NODES
    &&& header_ok(data, depth) ==> match sparse_decode(data, depth) {
        Ok(n) => r matches Ok(t) && t.nodes@ == n,
        Err(e) => r == Err::<Octree, LoadError>(e),
    }
    &&& r matches Ok(t) ==> {
        let root = data[data_start(data)];
        &&& header_ok(data, depth)
        &&& t.wf()
        &&& t.free_blocks@.len() == 0
        &&& t.voxel_positions@ == seq![Position { x: 0, y: 0, z: 0 }]
        &&& mask_of(t.nodes@, 0) == root
        &&& forall|k: int|
            1 <= k < t.nodes@.len() / 8 ==> #[trigger] mask_of(t.nodes@, 8 * k) == data[data_start(data) + k]
        &&& t.nodes@.len() <= 8 * cutoff(data, depth) || t.nodes@.len() == 8
        &&& forall|i: int| 0 <= i < t.nodes@.len() ==> #[trigger] t.nodes@[i] != UNRESOLVED
        &&& cutoff(data, depth) <= 1 ==> {
            &&& t.nodes@.len() == 8
            &&& forall|i: int|
                0 <= i < 8 ==> #[trigger] t.nodes@[i] == if bit(root, i) { SOLID } else { EMPTY }
        }
    }
}

/// Decodes the sparse voxel octree layout down to `octree_depth` levels:
/// in index order, every occupied leaf takes the next mask of the stream
/// and is subdivided while the stream is within the first `octree_depth`
/// levels, and becomes a solid voxel after that.
pub fn load_octree(data: &[u8], octree_depth: u32) -> (r: Result<Octree, LoadError>)
    ensures
        sparse_outcome(data@, octree_depth as int, r),
{
    if data.len() <= 16 {
        return Err(LoadError::MalformedData);
    }
    let top_level = data[16] as usize;
    let ds = 20 + 4 * (top_level + 1);
    if ds >= data.len() || octree_depth as usize > top_level + 1 {
        return Err(LoadError::MalformedData);
    }
    let mut node_end: u64 = 0;
    let mut i: usize = 0;
    while i < octree_depth as usize
        invariant
            header_ok(data@, octree_depth as int),
            data@.len() > 16,
            top_level == data@[16],
            ds == data_start(data@),
            ds < data@.len(),
            octree_depth <= top_level + 1,
            0 <= i <= octree_depth,
            node_end == cutoff(data@, i as int),
            node_end <= i * 4294967295,
        decreases octree_depth - i,
    {
        let o = 20 + 4 * i;
        let count = (data[o] as u64) * 16777216 + (data[o + 1] as u64) * 65536 + (data[o + 2] as u64)
            * 256 + data[o + 3] as u64;
        node_end = node_end + count;
        i += 1;
    }
    let root = data[ds];
    let mut octree = Octree::new(root);
    assert(octree.nodes@ =~= block_of(root, SOLID));
    let mut data_index: usize = 1;
    let mut node_index: usize = 0;
    while node_index < octree.nodes.len()
        invariant
            header_ok(data@, octree_depth as int),
            ds == data_start(data@),
            ds < data@.len(),
            root == data@[ds as int],
            node_end == cutoff(data@, octree_depth as int),
            octree.wf(),
            octree.free_blocks@.len() == 0,
            node_index <= octree.nodes@.len(),
            1 <= data_index <= node_index + 1,
            octree.nodes@.len() <= 8 * data_index,
            octree.voxel_positions@ == seq![Position { x: 0, y: 0, z: 0 }],
            sparse_scan(data@, ds as int, node_end as int, octree.nodes@, node_index as int, data_index as int)
                == sparse_decode(data@, octree_depth as int),
            data_index <= node_end ==> octree.nodes@.len() == 8 * data_index,
            octree.nodes@.len() <= 8 * node_end || octree.nodes@.len() == 8,
            forall|k: int|
                1 <= k < octree.nodes@.len() / 8 ==> #[trigger] mask_of(octree.nodes@, 8 * k) == data@[ds + k],
            forall|i: int| 0 <= i < node_index ==> #[trigger] octree.nodes@[i] != UNRESOLVED,
            forall|i: int| node_index <= i < octree.nodes@.len() ==> !is_pointer(#[trigger] octree.nodes@[i]),
            forall|i: int| 0 <= i < 8 ==> (#[trigger] octree.nodes@[i] != EMPTY) == bit(root, i),
            node_end <= 1 ==> octree.nodes@.len() == 8,
            node_end <= 1 ==> forall|i: int|
                0 <= i < octree.nodes@.len() ==> #[trigger] octree.nodes@[i] == EMPTY || octree.nodes@[i] == SOLID,
        decreases (if (data_index as int) < node_end as int { node_end - data_index } else { 0 }),
            octree.nodes@.len() - node_index,
    {
        if octree.nodes[node_index] != EMPTY {
            if (data_index as u64) < node_end {
                if data_index >= data.len() - ds {
                    return Err(LoadError::MalformedData);
                }
                let child_mask = data[ds + data_index];
                let ghost pre = octree;
                let ghost next = pre.nodes@.update(node_index as int, pre.nodes@.len() as u32) + block_of(
                    child_mask,
                    UNRESOLVED,
                );
                match octree.subdivide(node_index, child_mask, false, 0) {
                    Ok(()) => {},
                    Err(e) => {
                        proof {
                            assert(e != TreeError::AlreadySubdivided);
                            assert(e != TreeError::InvariantViolation);
                            assert(e != TreeError::ChildrenNotLeaves);
                            assert(!is_pointer(pre.nodes@[node_index as int]));
                            assert(!pre.in_free_block(node_index as int));
                            assert(pre.nodes@.len() + 8 > MAX_NODES);
                        }
                        return Err(LoadError::StoreFull);
                    },
                }
                proof {
                    let b = pre.nodes@.len() as int;
                    assert forall|i: int| node_index < i < octree.nodes@.len() implies !is_pointer(#[trigger] octree.nodes@[i]) by {
                        if i < b {
                            assert(octree.nodes@[i] == pre.nodes@[i]);
                        }
                    }
                    assert forall|i: int| 0 <= i < node_index implies #[trigger] octree.nodes@[i] != UNRESOLVED by {
                        assert(octree.nodes@[i] == pre.nodes@[i]);
                    }
                    assert forall|i: int| 0 <= i < 8 implies (#[trigger] octree.nodes@[i] != EMPTY) == bit(root, i) by {
                        if i != node_index {
                            assert(octree.nodes@[i] == pre.nodes@[i]);
                        }
                    }
                    assert(b == 8 * data_index);
                    assert(octree.nodes@ =~= next);
                    crate::laws::law_subdivide_occupancy(pre, octree, node_index as int, child_mask, false);
                    assert forall|k: int| 1 <= k < octree.nodes@.len() / 8 implies #[trigger] mask_of(
                        octree.nodes@,
                        8 * k,
                    ) == data@[ds + k] by {
                        if k < b / 8 {
                            assert forall|i: int| 8 * k <= i < 8 * k + 8 implies (#[trigger] pre.nodes@[i]
                                != EMPTY) == (octree.nodes@[i] != EMPTY) by {
                                if i != node_index {
                                    assert(octree.nodes@[i] == pre.nodes@[i]);
                                }
                            }
                            crate::laws::lemma_mask_of_same_occupancy(pre.nodes@, octree.nodes@, 8 * k);
                        } else {
                            assert(k == data_index);
                        }
                    }
                }
            } else {
                let ghost pre = octree;
                octree.set_leaf(node_index, SOLID);
                assert(octree.nodes@ =~= pre.nodes@.update(node_index as int, SOLID));
                proof {
                    assert forall|k: int| 1 <= k < octree.nodes@.len() / 8 implies #[trigger] mask_of(
                        octree.nodes@,
                        8 * k,
                    ) == data@[ds + k] by {
                        assert forall|i: int| 8 * k <= i < 8 * k + 8 implies (#[trigger] pre.nodes@[i]
                            != EMPTY) == (octree.nodes@[i] != EMPTY) by {}
                        crate::laws::lemma_mask_of_same_occupancy(pre.nodes@, octree.nodes@, 8 * k);
                    }
                }
            }
            data_index += 1;
        }
        node_index += 1;
    }
    proof {
        crate::laws::lemma_mask_of_bits(octree.nodes@, 0, root);
    }
    Ok(octree)
}


/// One voxel of a point-cloud model, in the model's integer coordinates.
#[derive(Clone, Copy, Debug, PartialEq, Eq, Structural)]
pub struct VoxPoint {
    pub x: u8,
    pub y: u8,
    pub z: u8,
}

/// A point-cloud model: its bounding box and its voxels.
#[derive(Debug)]
pub struct VoxModel {
    pub size_x: u32,
    pub size_y: u32,
    pub size_z: u32,
    pub voxels: Vec<VoxPoint>,
}

/// A voxel's coordinates as plain values.
pub open spec fn coords(p: VoxPoint) -> (u8, u8, u8) {
    (p.x, p.y, p.z)
}

/// A model as plain values: sizes along x, y, z and the voxels' coordinates.
pub open spec fn model_view(m: VoxModel) -> (u32, u32, u32, Seq<(u8, u8, u8)>) {
    (m.size_x, m.size_y, m.size_z, m.voxels@.map_values(|p: VoxPoint| coords(p)))
}

/// The models that a MagicaVoxel file decodes to, or none when it does not
/// decode.
pub uninterp spec fn vox_models(data: Seq<u8>) -> Option<Seq<(u32, u32, u32, Seq<(u8, u8, u8)>)>>;

/// Relies on dot_vox::load_bytes, which parses a MagicaVoxel `.vox` file;
/// its result depends on the bytes alone.
#[verifier::external_body]
fn decode_vox(data: &[u8]) -> (r: Option<Vec<VoxModel>>)
    ensures
        r is Some <==> vox_models(data@) is Some,
        r matches Some(ms) ==> ms@.map_values(|m: VoxModel| model_view(m)) == vox_models(data@)->0,
{
    match dot_vox::load_bytes(data) {
        Ok(v) => Some(v.models.iter().map(|m| VoxModel {
            size_x: m.size.x,
            size_y: m.size.y,
            size_z: m.size.z,
            voxels: m.voxels.iter().map(|p| VoxPoint { x: p.x, y: p.y, z: p.z }).collect(),
        }).collect()),
        Err(_) => None,
    }
}

/// A power of two: 1, 2, 4, ...
pub open spec fn is_pow2(n: int) -> bool
    decreases n,
{
    if n <= 1 {
        n == 1
    } else {
        n % 2 == 0 && is_pow2(n / 2)
    }
}

/// The base-2 logarithm, rounded down.
pub open spec fn log2(n: int) -> int
    decreases n,
{
    if n <= 1 {
        0
    } else {
        1 + log2(n / 2)
    }
}

/// A box of these sizes is a cube whose side is a power of two of at
/// least 2.
pub open spec fn cube_geometry(x: u32, y: u32, z: u32) -> bool {
    &&& x == y
    &&& y == z
    &&& x >= 2
    &&& is_pow2(x as int)
}

/// The model's box is a cube whose side is a power of two of at least 2.
pub open spec fn valid_geometry(m: VoxModel) -> bool {
    cube_geometry(m.size_x, m.size_y, m.size_z)
}

/// Where a voxel of a model of side `size` lands in the tree's space: the
/// model's y axis becomes the tree's z axis and its x axis is mirrored.
pub open spec fn vox_position(size: int, p: (u8, u8, u8)) -> (int, int, int) {
    let scale = 2 * ONE / size;
    ((size - 1 - p.0) * scale - ONE, p.2 * scale - ONE, p.1 * scale - ONE)
}

/// The same point as a `Position`.
pub open spec fn vox_point(size: int, p: (u8, u8, u8)) -> Position {
    let v = vox_position(size, p);
    Position { x: v.0 as i64, y: v.1 as i64, z: v.2 as i64 }
}

/// The voxel `p` of a model of side `size` is located at depth
/// `log2(size)` on a solid entry of `t`.
pub open spec fn voxel_solid(t: Octree, size: int, p: (u8, u8, u8)) -> bool {
    let l = locate(t.nodes@, vox_point(size, p), Some(log2(size) as u32));
    &&& l.1 == log2(size)
    &&& t.nodes@[l.0] == SOLID
}

/// The root octant that holds a point of the tree's space.
pub open spec fn root_octant(v: (int, int, int)) -> int {
    (if v.0 >= 0 { 4int } else { 0int }) + (if v.1 >= 0 { 2int } else { 0int }) + (if v.2 >= 0 {
        1int
    } else {
        0int
    })
}

/// `t` is a well-formed tree with an empty free list in which every voxel
/// of the model `m` (sizes and voxels as plain values) is located solid at
/// depth `log2(side)`, and occupies its root octant.
pub open spec fn holds_voxels(t: Octree, m: (u32, u32, u32, Seq<(u8, u8, u8)>)) -> bool {
    &&& t.wf()
    &&& t.free_blocks@.len() == 0
    &&& forall|k: int|
        0 <= k < m.3.len() ==> voxel_solid(t, m.0 as int, #[trigger] m.3[k]) && t.nodes@[root_octant(
            vox_position(m.0 as int, m.3[k]),
        )] != EMPTY
}

/// Builds a tree from the first of the decoded models, inserting each of
/// its voxels at depth `log2(side)`.
pub fn build_from_vox(models: &Vec<VoxModel>) -> (r: Result<Octree, LoadError>)
    ensures
        models@.len() == 0 <==> r == Err::<Octree, LoadError>(LoadError::MalformedData),
        models@.len() > 0 ==> (r == Err::<Octree, LoadError>(LoadError::InvalidGeometry) <==> !valid_geometry(
            models@[0],
        )),
        r is Err ==> r == Err::<Octree, LoadError>(LoadError::MalformedData) || r == Err::<
            Octree,
            LoadError,
        >(LoadError::InvalidGeometry) || r == Err::<Octree, LoadError>(LoadError::StoreFull),
        r matches Ok(t) ==> t.wf(),
        r == Err::<Octree, LoadError>(LoadError::StoreFull) ==> 16 + 8 * (log2(models@[0].size_x as int) - 1)
            * models@[0].voxels@.len() > MAX_NODES,
        r matches Ok(t) ==> holds_voxels(t, model_view(models@[0])),
{
    if models.len() == 0 {
        return Err(LoadError::MalformedData);
    }
    let m = &models[0];
    if m.size_x != m.size_y || m.size_y != m.size_z || m.size_x < 2 {
        return Err(LoadError::InvalidGeometry);
    }
    let size = m.size_x;
    let mut s: u32 = size;
    let mut depth: u32 = 0;
    while s > 1 && s % 2 == 0
        invariant
            1 <= s <= size,
            depth <= size - s,
            s < size ==> depth >= 1,
            is_pow2(size as int) == is_pow2(s as int),
            log2(size as int) == depth + log2(s as int),
        decreases s,
    {
        s = s / 2;
        depth = depth + 1;
    }
    if s != 1 {
        return Err(LoadError::InvalidGeometry);
    }
    assert(log2(1) == 0);
    let scale: i64 = 8589934592i64 / (size as i64);
    let mut octree = Octree::new(0u8);
    let mut k: usize = 0;
    while k < m.voxels.len()
        invariant
            octree.wf(),
            depth >= 1,
            2 <= size,
            models@.len() > 0,
            *m == models@[0],
            valid_geometry(models@[0]),
            scale == 2 * ONE / size as int,
            0 <= k <= m.voxels@.len(),
            size == m.size_x,
            depth == log2(size as int),
            octree.nodes@.len() <= 8 + 8 * (depth - 1) * k,
            octree.free_blocks@.len() == 0,
            forall|j: int|
                0 <= j < k ==> voxel_solid(octree, size as int, coords(#[trigger] m.voxels@[j]))
                    && octree.nodes@[root_octant(vox_position(size as int, coords(m.voxels@[j])))] != EMPTY,
        decreases m.voxels@.len() - k,
    {
        let p = m.voxels[k];
        let ghost pre = octree;
        proof {
            let a = size - 1 - p.x;
            assert(-256 <= a < size);
            assert(0 < scale <= 2 * ONE) by (nonlinear_arith)
                requires
                    scale == 2 * ONE / size as int,
                    2 <= size,
            ;
            assert(-256 * 2 * ONE <= a * scale <= 2 * ONE) by (nonlinear_arith)
                requires
                    -256 <= a < size,
                    0 < scale,
                    scale == 2 * ONE / size as int,
                    2 <= size,
            ;
            assert(0 <= p.y * scale <= 256 * 2 * ONE) by (nonlinear_arith)
                requires
                    0 <= p.y < 256,
                    0 < scale <= 2 * ONE,
            ;
            assert(0 <= p.z * scale <= 256 * 2 * ONE) by (nonlinear_arith)
                requires
                    0 <= p.z < 256,
                    0 < scale <= 2 * ONE,
            ;
        }
        let pos = Position::new(
            ((size as i64) - 1 - (p.x as i64)) * scale - ONE,
            (p.z as i64) * scale - ONE,
            (p.y as i64) * scale - ONE,
        );
        assert(pos == vox_point(size as int, coords(p)));
        match octree.put_in_voxel(pos, 1, depth) {
            Ok(()) => {},
            Err(_) => {
                proof {
                    let n = m.voxels@.len() as int;
                    let d = depth as int;
                    let a = pre.nodes@.len() as int;
                    let f = octree.nodes@.len() as int;
                    assert(16 + 8 * (d - 1) * n > MAX_NODES) by (nonlinear_arith)
                        requires
                            d >= 1,
                            k + 1 <= n,
                            a <= 8 + 8 * (d - 1) * k,
                            f <= a + 8 * (d - 1),
                            f + 8 > MAX_NODES,
                    ;
                }
                return Err(LoadError::StoreFull);
            },
        }
        proof {
            assert(8 * (depth - 1) * k + 8 * (depth - 1) == 8 * (depth - 1) * (k + 1)) by (nonlinear_arith);
            assert(crate::locate::octant(pos, (0, 0, 0)) == root_octant(vox_position(size as int, coords(p))));
            assert(octree.free_blocks@ =~= Seq::<usize>::empty());
            assert forall|j: int| 0 <= j < k + 1 implies voxel_solid(octree, size as int, coords(#[trigger] m.voxels@[j]))
                && octree.nodes@[root_octant(vox_position(size as int, coords(m.voxels@[j])))] != EMPTY by {
                if j < k {
                    let q = coords(m.voxels@[j]);
                    assert(voxel_solid(pre, size as int, q));
                    assert(pre.nodes@[root_octant(vox_position(size as int, q))] != EMPTY);
                    crate::locate::lemma_insert_keeps_solid(pre, octree.nodes@, pos, vox_point(size as int, q), depth);
                }
            }
        }
        k += 1;
    }
    proof {
        let v = model_view(*m);
        assert forall|j: int| 0 <= j < v.3.len() implies voxel_solid(octree, v.0 as int, #[trigger] v.3[j])
            && octree.nodes@[root_octant(vox_position(v.0 as int, v.3[j]))] != EMPTY by {
            assert(v.3[j] == coords(m.voxels@[j]));
        }
    }
    Ok(octree)
}

/// What decoding `data` as a MagicaVoxel file may give.
pub open spec fn vox_outcome(data: Seq<u8>, r: Result<Octree, LoadError>) -> bool {
    &&& r == Err::<Octree, LoadError>(LoadError::MalformedData) <==> vox_models(data) is None || (vox_models(
        data,
    )->0).len() == 0
    &&& vox_models(data) is Some && (vox_models(data)->0).len() > 0 ==> {
        let m = (vox_models(data)->0)[0];
        &&& r == Err::<Octree, LoadError>(LoadError::InvalidGeometry) <==> !cube_geometry(m.0, m.1, m.2)
        &&& r == Err::<Octree, LoadError>(LoadError::StoreFull) ==> 16 + 8 * (log2(m.0 as int) - 1) * m.3.len()
            > MAX_NODES
    }
    &&& r is Err ==> r == Err::<Octree, LoadError>(LoadError::MalformedData) || r == Err::<
        Octree,
        LoadError,
    >(LoadError::InvalidGeometry) || r == Err::<Octree, LoadError>(LoadError::StoreFull)
    &&& r matches Ok(t) ==> vox_models(data) is Some && (vox_models(data)->0).len() > 0 && holds_voxels(
        t,
        (vox_models(data)->0)[0],
    )
}

/// Decodes a MagicaVoxel file and builds a tree from its first model.
pub fn load_vox(data: &[u8]) -> (r: Result<Octree, LoadError>)
    ensures
        vox_outcome(data@, r),
{
    match decode_vox(data) {
        Some(models) => {
            proof {
                let views = models@.map_values(|m: VoxModel| model_view(m));
                assert(views.len() == models@.len());
                if models@.len() > 0 {
                    assert(views[0] == model_view(models@[0]));
                }
            }
            build_from_vox(&models)
        },
        None => Err(LoadError::MalformedData),
    }
}


/// The two model formats this library reads.
#[derive(Clone, Copy, Debug, PartialEq, Eq, Structural)]
pub enum FileKind {
    /// The sparse voxel octree layout, extension `rsvo`.
    SparseVoxel,
    /// A MagicaVoxel point cloud, extension `vox`.
    PointCloud,
}

/// `name` is a stem, a dot, and `ext`, where the stem does not end with a
/// `/`: the last component of the path has a non-empty stem.
pub open spec fn has_extension(name: Seq<u8>, ext: Seq<u8>) -> bool {
    &&& name.len() > ext.len() + 1
    &&& name[name.len() - ext.len() - 1] == 46u8
    &&& name[name.len() - ext.len() - 2] != 47u8
    &&& name.subrange(name.len() - ext.len(), name.len() as int) == ext
}

/// The format that a file name's extension names.
pub open spec fn kind_of_name(name: Seq<u8>) -> Option<FileKind> {
    if has_extension(name, seq![114u8, 115u8, 118u8, 111u8]) {
        Some(FileKind::SparseVoxel)
    } else if has_extension(name, seq![118u8, 111u8, 120u8]) {
        Some(FileKind::PointCloud)
    } else {
        None
    }
}

fn ends_with_extension(name: &[u8], ext: &Vec<u8>) -> (r: bool)
    ensures
        r == has_extension(name@, ext@),
{
    if name.len() <= ext.len() || name.len() - ext.len() <= 1 {
        return false;
    }
    let nlen = name.len();
    let start = nlen - ext.len();
    if name[start - 1] != 46u8 || name[start - 2] == 47u8 {
        return false;
    }
    let mut i: usize = 0;
    while i < ext.len()
        invariant
            start == name@.len() - ext@.len(),
            start + ext@.len() == name@.len(),
            nlen == name@.len(),
            0 <= i <= ext@.len(),
            forall|j: int| 0 <= j < i ==> name@[start + j] == ext@[j],
        decreases ext@.len() - i,
    {
        if name[start + i] != ext[i] {
            proof {
                assert(name@.subrange(start as int, name@.len() as int)[i as int] != ext@[i as int]);
            }
            return false;
        }
        i += 1;
    }
    proof {
        assert(name@.subrange(start as int, name@.len() as int) =~= ext@);
    }
    true
}

/// The format that the extension of `name` names, if any.
pub fn file_kind(name: &str) -> (r: Option<FileKind>)
    ensures
        r == kind_of_name(name.spec_bytes()),
{
    let bytes = name.as_bytes();
    let rsvo: Vec<u8> = vec![114u8, 115u8, 118u8, 111u8];
    let vox: Vec<u8> = vec![118u8, 111u8, 120u8];
    proof {
        assert(rsvo@ =~= seq![114u8, 115u8, 118u8, 111u8]);
        assert(vox@ =~= seq![118u8, 111u8, 120u8]);
    }
    if ends_with_extension(bytes, &rsvo) {
        Some(FileKind::SparseVoxel)
    } else if ends_with_extension(bytes, &vox) {
        Some(FileKind::PointCloud)
    } else {
        None
    }
}

/// Builds a tree from the contents `data` of the file `name`, by the
/// format its extension names; sparse voxel files are read down to
/// `octree_depth` levels.
pub fn load_file(name: &str, data: &[u8], octree_depth: u32) -> (r: Result<Octree, LoadError>)
    ensures
        kind_of_name(name.spec_bytes()) is None <==> r == Err::<Octree, LoadError>(LoadError::UnknownFileType),
        kind_of_name(name.spec_bytes()) == Some(FileKind::SparseVoxel) ==> sparse_outcome(
            data@,
            octree_depth as int,
            r,
        ),
        kind_of_name(name.spec_bytes()) == Some(FileKind::PointCloud) ==> vox_outcome(data@, r),
{
    match file_kind(name) {
        Some(FileKind::SparseVoxel) => load_octree(data, octree_depth),
        Some(FileKind::PointCloud) => load_vox(data),
        None => Err(LoadError::UnknownFileType),
    }
}


/// Some voxel of `m` lies in root octant `o`.
pub open spec fn reaches_octant(m: (u32, u32, u32, Seq<(u8, u8, u8)>), o: int) -> bool {
    exists|k: int| 0 <= k < m.3.len() && #[trigger] root_octant(vox_position(m.0 as int, m.3[k])) == o
}

/// A tree built from a model whose voxels reach all eight root octants has
/// the full root occupancy mask.
pub proof fn law_all_octants_fill_root(t: Octree, m: (u32, u32, u32, Seq<(u8, u8, u8)>))
    requires
        holds_voxels(t, m),
        forall|o: int| 0 <= o < 8 ==> #[trigger] reaches_octant(m, o),
    ensures
        mask_of(t.nodes@, 0) == 255u8,
{
    assert(forall|k: u8| k < 8 ==> (255u8 >> k) & 1u8 != 0u8) by (bit_vector);
    assert forall|i: int| 0 <= i < 8 implies (t.nodes@[0 + i] != EMPTY) == #[trigger] bit(255u8, i) by {
        assert(reaches_octant(m, i));
        let k = choose|k: int| 0 <= k < m.3.len() && #[trigger] root_octant(vox_position(m.0 as int, m.3[k])) == i;
        assert(t.nodes@[root_octant(vox_position(m.0 as int, m.3[k]))] != EMPTY);
        assert((255u8 >> (i as u8)) & 1u8 != 0u8);
    }
    crate::laws::lemma_mask_of_bits(t.nodes@, 0, 255u8);
}

} // verus!
