use svo::entry::{EMPTY, SOLID, UNRESOLVED};
use svo::loader::{
    build_from_vox, file_kind, load_file, load_octree, load_vox, FileKind, LoadError, VoxModel,
    VoxPoint,
};

/// A sparse voxel file with the given level counts and mask stream.
fn svo_file(counts: &[u32], masks: &[u8]) -> Vec<u8> {
    let mut d = vec![0u8; 16];
    d.push((counts.len() - 1) as u8);
    d.extend_from_slice(&[0, 0, 0]);
    for c in counts {
        d.extend_from_slice(&c.to_be_bytes());
    }
    d.extend_from_slice(masks);
    d
}

/// A MagicaVoxel file with one model.
fn vox_file(size: (u32, u32, u32), voxels: &[(u8, u8, u8)]) -> Vec<u8> {
    let mut children = Vec::new();
    children.extend_from_slice(b"SIZE");
    children.extend_from_slice(&12u32.to_le_bytes());
    children.extend_from_slice(&0u32.to_le_bytes());
    children.extend_from_slice(&size.0.to_le_bytes());
    children.extend_from_slice(&size.1.to_le_bytes());
    children.extend_from_slice(&size.2.to_le_bytes());
    children.extend_from_slice(b"XYZI");
    children.extend_from_slice(&(4 + 4 * voxels.len() as u32).to_le_bytes());
    children.extend_from_slice(&0u32.to_le_bytes());
    children.extend_from_slice(&(voxels.len() as u32).to_le_bytes());
    for v in voxels {
        children.extend_from_slice(&[v.0, v.1, v.2, 1]);
    }
    let mut d = Vec::new();
    d.extend_from_slice(b"VOX ");
    d.extend_from_slice(&150u32.to_le_bytes());
    d.extend_from_slice(b"MAIN");
    d.extend_from_slice(&0u32.to_le_bytes());
    d.extend_from_slice(&(children.len() as u32).to_le_bytes());
    d.extend_from_slice(&children);
    d
}

fn all_corners() -> Vec<(u8, u8, u8)> {
    let mut v = Vec::new();
    for x in 0..2u8 {
        for y in 0..2u8 {
            for z in 0..2u8 {
                v.push((x, y, z));
            }
        }
    }
    v
}

#[test]
fn sparse_depth_zero_keeps_root_mask() {
    let d = svo_file(&[1, 2, 5], &[0b1000_0001, 0b0000_0011, 0b0000_0111]);
    let t = load_octree(&d, 0).unwrap();
    assert_eq!(t.node_len(), 8);
    assert_eq!(t.get_node_mask(0), 0b1000_0001);
    assert_eq!(t.raw_data()[0], SOLID);
    assert_eq!(t.raw_data()[7], SOLID);
    assert_eq!(t.raw_data()[1], EMPTY);
}

#[test]
fn sparse_depth_two_subdivides_and_finalizes() {
    let d = svo_file(&[1, 2, 5], &[0b1000_0001, 0b0000_0011, 0b0000_0111]);
    let t = load_octree(&d, 2).unwrap();
    // Cutoff is 3: the root mask and the two first-level masks are read.
    assert_eq!(t.get_node_mask(0), 0b1000_0001);
    assert_eq!(t.raw_data()[0], 8);
    assert_eq!(t.raw_data()[7], 16);
    assert_eq!(t.get_node_mask(8), 0b0000_0011);
    assert_eq!(t.get_node_mask(16), 0b0000_0111);
    assert_eq!(t.node_len(), 24);
    assert!(t.raw_data().iter().all(|v| *v != UNRESOLVED));
    assert_eq!(t.raw_data()[8], SOLID);
    assert_eq!(t.raw_data()[18], SOLID);
}

#[test]
fn sparse_truncated_stream_is_malformed() {
    let d = svo_file(&[1, 2, 5], &[0b1000_0001, 0b0000_0011]);
    assert_eq!(load_octree(&d, 2).err(), Some(LoadError::MalformedData));
}

#[test]
fn sparse_header_past_end_is_malformed() {
    let mut d = vec![0u8; 16];
    d.push(200);
    d.extend_from_slice(&[0, 0, 0, 0, 0, 0, 1]);
    assert_eq!(load_octree(&d, 0).err(), Some(LoadError::MalformedData));
    assert_eq!(load_octree(&[0u8; 10], 0).err(), Some(LoadError::MalformedData));
    assert_eq!(load_octree(&[], 0).err(), Some(LoadError::MalformedData));
}

#[test]
fn sparse_depth_beyond_levels_is_malformed() {
    let d = svo_file(&[1], &[0xFF]);
    assert!(load_octree(&d, 1).is_ok());
    assert_eq!(load_octree(&d, 2).err(), Some(LoadError::MalformedData));
}

#[test]
fn point_cloud_all_octants_fill_root() {
    let model = VoxModel {
        size_x: 2,
        size_y: 2,
        size_z: 2,
        voxels: all_corners().into_iter().map(|(x, y, z)| VoxPoint { x, y, z }).collect(),
    };
    let t = build_from_vox(&vec![model]).unwrap();
    assert_eq!(t.get_node_mask(0), 0b1111_1111);
    assert_eq!(t.node_len(), 8);
}

#[test]
fn point_cloud_axes_are_remapped() {
    // Model x = 0 lands on the positive x side; model y becomes tree z.
    let model = VoxModel {
        size_x: 2,
        size_y: 2,
        size_z: 2,
        voxels: vec![VoxPoint { x: 0, y: 1, z: 0 }],
    };
    let t = build_from_vox(&vec![model]).unwrap();
    assert_eq!(t.get_node_mask(0), 0b0010_0000);
}

#[test]
fn point_cloud_deeper_model() {
    let model = VoxModel {
        size_x: 4,
        size_y: 4,
        size_z: 4,
        voxels: vec![VoxPoint { x: 3, y: 0, z: 0 }, VoxPoint { x: 2, y: 0, z: 0 }],
    };
    let t = build_from_vox(&vec![model]).unwrap();
    assert_eq!(t.get_node_mask(0), 0b0000_0001);
    let b = t.raw_data()[0] as usize;
    assert_eq!(t.get_node_mask(b), 0b0000_0001 | 0b0001_0000);
}

#[test]
fn point_cloud_geometry_errors() {
    let not_cube = VoxModel { size_x: 2, size_y: 4, size_z: 2, voxels: vec![] };
    assert_eq!(build_from_vox(&vec![not_cube]).err(), Some(LoadError::InvalidGeometry));
    let not_pow2 = VoxModel { size_x: 6, size_y: 6, size_z: 6, voxels: vec![] };
    assert_eq!(build_from_vox(&vec![not_pow2]).err(), Some(LoadError::InvalidGeometry));
    let single = VoxModel { size_x: 1, size_y: 1, size_z: 1, voxels: vec![] };
    assert_eq!(build_from_vox(&vec![single]).err(), Some(LoadError::InvalidGeometry));
    assert_eq!(build_from_vox(&vec![]).err(), Some(LoadError::MalformedData));
}

#[test]
fn vox_bytes_decode_into_tree() {
    let d = vox_file((2, 2, 2), &all_corners());
    let t = load_vox(&d).unwrap();
    assert_eq!(t.get_node_mask(0), 0b1111_1111);
    let one = vox_file((2, 2, 2), &[(1, 0, 0)]);
    let t = load_vox(&one).unwrap();
    assert_eq!(t.get_node_mask(0), 0b0000_0001);
}

#[test]
fn vox_bad_bytes_are_malformed() {
    assert_eq!(load_vox(b"not a vox file").err(), Some(LoadError::MalformedData));
    let d = vox_file((2, 4, 2), &[]);
    assert_eq!(load_vox(&d).err(), Some(LoadError::InvalidGeometry));
}

#[test]
fn file_kinds_by_extension() {
    assert_eq!(file_kind("model.rsvo"), Some(FileKind::SparseVoxel));
    assert_eq!(file_kind("a/b/castle.vox"), Some(FileKind::PointCloud));
    assert_eq!(file_kind("model.obj"), None);
    assert_eq!(file_kind(".vox"), None);
    assert_eq!(file_kind("vox"), None);
    assert_eq!(file_kind("model.voxx"), None);
    assert_eq!(file_kind("a.b/.vox"), None);
    assert_eq!(file_kind("a.b/c.vox"), Some(FileKind::PointCloud));
}

#[test]
fn load_file_dispatches() {
    let svo = svo_file(&[1], &[0b0000_0110]);
    assert_eq!(load_file("m.rsvo", &svo, 0).unwrap().get_node_mask(0), 0b0000_0110);
    let vox = vox_file((2, 2, 2), &[(0, 0, 0)]);
    assert_eq!(load_file("m.vox", &vox, 0).unwrap().get_node_mask(0), 0b0001_0000);
    assert_eq!(load_file("m.txt", &svo, 0).err(), Some(LoadError::UnknownFileType));
}

#[test]
fn sparse_depth_two_exact_store() {
    let mut d = vec![0u8; 16];
    d.extend_from_slice(&[1, 0, 0, 0]);
    d.extend_from_slice(&[0, 0, 0, 1]);
    d.extend_from_slice(&[0, 0, 0, 2]);
    d.extend_from_slice(&[0b11, 0b1, 0b1000_0000]);
    let t = load_octree(&d, 2).unwrap();
    let mut expected = vec![8, 16];
    expected.extend(vec![EMPTY; 6]);
    expected.push(SOLID);
    expected.extend(vec![EMPTY; 14]);
    expected.push(SOLID);
    assert_eq!(t.raw_data(), &expected);
    assert!(t.free_blocks.is_empty());
}

#[test]
fn point_cloud_single_voxel_lands_in_one_octant() {
    for x in 0..2u8 {
        for y in 0..2u8 {
            for z in 0..2u8 {
                let t = load_vox(&vox_file((2, 2, 2), &[(x, y, z)])).unwrap();
                assert_eq!(t.node_len(), 8);
                let slot = ((1 - x) * 4 + z * 2 + y) as usize;
                for i in 0..8 {
                    if i == slot {
                        assert_eq!(t.raw_data()[i], SOLID);
                    } else {
                        assert_eq!(t.raw_data()[i], EMPTY);
                    }
                }
            }
        }
    }
}
