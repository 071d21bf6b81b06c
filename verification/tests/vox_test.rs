use dot_vox::{DotVoxData, Model, Size, Voxel};
use voxel::blocks::Block;
use voxel::vox::{load_structure, structure_from_model, vox_framing_ok, VoxModel, VoxVoxel};

fn word(c: [u8; 3]) -> u32 {
    c[0] as u32 | (c[1] as u32) << 8 | (c[2] as u32) << 16 | 0xff00_0000
}

fn vox_bytes(models: Vec<Model>) -> Vec<u8> {
    let data = DotVoxData {
        version: 150,
        models,
        palette: vec![word([10, 200, 30]), word([0, 100, 200])],
        materials: Vec::new(),
    };
    let mut bytes: Vec<u8> = Vec::new();
    data.write_vox(&mut bytes).unwrap();
    bytes
}

#[test]
fn first_model_becomes_a_structure_with_y_and_z_swapped() {
    let model = Model {
        size: Size { x: 2, y: 3, z: 4 },
        voxels: vec![Voxel { x: 1, y: 2, z: 3, i: 0 }, Voxel { x: 0, y: 0, z: 0, i: 1 }],
    };
    let s = load_structure(&vox_bytes(vec![model])).unwrap();
    assert_eq!(s.size, [2, 4, 3]);
    assert!(s.is_well_formed());
    assert_eq!(s.get([1, 3, 2]), Some(Block::Grass));
    assert_eq!(s.get([0, 0, 0]), Some(Block::Water));
    assert_eq!(s.get([1, 2, 3]), None);
    assert_eq!(s.get([1, 2, 2]), Some(Block::Empty));
}

#[test]
fn invalid_bytes_give_no_structure() {
    assert!(load_structure(&[1, 2, 3, 4]).is_none());
    assert!(load_structure(&[]).is_none());
}

#[test]
fn file_without_model_gives_no_structure() {
    assert!(load_structure(&vox_bytes(Vec::new())).is_none());
}

#[test]
fn voxel_outside_the_palette_gives_no_structure() {
    let palette = vec![word([10, 200, 30])];
    let model = VoxModel { size: [1, 1, 1], voxels: vec![VoxVoxel { x: 0, y: 0, z: 0, i: 1 }] };
    assert!(structure_from_model(&palette, &model).is_none());
    let ok = VoxModel { size: [1, 1, 1], voxels: vec![VoxVoxel { x: 0, y: 0, z: 0, i: 0 }] };
    assert_eq!(structure_from_model(&palette, &ok).unwrap().get([0, 0, 0]), Some(Block::Grass));
}

#[test]
fn last_voxel_on_a_position_wins_and_unknown_colours_are_empty() {
    let palette = vec![word([10, 200, 30]), word([0, 100, 200]), word([1, 2, 3])];
    let model = VoxModel {
        size: [2, 2, 2],
        voxels: vec![
            VoxVoxel { x: 1, y: 0, z: 1, i: 0 },
            VoxVoxel { x: 1, y: 0, z: 1, i: 1 },
            VoxVoxel { x: 0, y: 1, z: 0, i: 2 },
            VoxVoxel { x: 5, y: 5, z: 5, i: 0 },
        ],
    };
    let s = structure_from_model(&palette, &model).unwrap();
    assert_eq!(s.get([1, 1, 0]), Some(Block::Water));
    assert_eq!(s.get([0, 0, 1]), Some(Block::Empty));
}

#[test]
fn truncated_header_is_refused_before_parsing() {
    let bytes = [86u8, 79, 88, 32, 1];
    assert!(!vox_framing_ok(&bytes));
    assert!(load_structure(&bytes).is_none());
    let cut_chunk = [86u8, 79, 88, 32, 150, 0, 0, 0, 77, 65, 73, 78, 0, 0];
    assert!(!vox_framing_ok(&cut_chunk));
    assert!(load_structure(&cut_chunk).is_none());
}

#[test]
fn short_voxel_list_is_refused_before_parsing() {
    let model = Model { size: Size { x: 1, y: 1, z: 1 }, voxels: vec![Voxel { x: 0, y: 0, z: 0, i: 0 }] };
    let mut bytes = vox_bytes(vec![model]);
    assert!(vox_framing_ok(&bytes));
    // The voxel count of the XYZI chunk (after MAIN and SIZE) claims two voxels.
    let xyzi = 8 + 12 + 24;
    assert_eq!(&bytes[xyzi..xyzi + 4], b"XYZI");
    bytes[xyzi + 12] = 2;
    assert!(!vox_framing_ok(&bytes));
    assert!(load_structure(&bytes).is_none());
}

#[test]
fn other_bytes_pass_and_packed_files_are_refused() {
    assert!(vox_framing_ok(&[1, 2, 3, 4, 5, 6, 7, 8]));
    assert!(vox_framing_ok(&[]));
    let two = vox_bytes(vec![
        Model { size: Size { x: 1, y: 1, z: 1 }, voxels: Vec::new() },
        Model { size: Size { x: 1, y: 1, z: 1 }, voxels: Vec::new() },
    ]);
    assert!(!vox_framing_ok(&two));
    assert!(load_structure(&two).is_none());
}

fn chunk(id: &[u8; 4], content: &[u8], children: &[u8]) -> Vec<u8> {
    let mut out = id.to_vec();
    out.extend_from_slice(&(content.len() as u32).to_le_bytes());
    out.extend_from_slice(&(children.len() as u32).to_le_bytes());
    out.extend_from_slice(content);
    out.extend_from_slice(children);
    out
}

#[test]
fn chunks_nested_in_child_chunks_are_read() {
    let mut size = Vec::new();
    for v in [1u32, 1, 1] {
        size.extend_from_slice(&v.to_le_bytes());
    }
    let mut xyzi = 1u32.to_le_bytes().to_vec();
    xyzi.extend_from_slice(&[0, 0, 0, 1]);
    let inner = chunk(b"SIZE", &size, &[]);
    let group = chunk(b"nGRP", &[], &inner);
    let mut children = group.clone();
    children.extend(chunk(b"SIZE", &size, &[]));
    children.extend(chunk(b"XYZI", &xyzi, &[]));
    let mut bytes = b"VOX ".to_vec();
    bytes.extend_from_slice(&150u32.to_le_bytes());
    bytes.extend(chunk(b"MAIN", &[], &children));
    assert!(vox_framing_ok(&bytes));
    let s = load_structure(&bytes).unwrap();
    assert_eq!(s.size, [1, 1, 1]);
    // A nested chunk whose header is cut short is refused.
    let bad_inner = b"SIZE\x0c\x00".to_vec();
    let bad_group = chunk(b"nGRP", &[], &bad_inner);
    let mut bad = b"VOX ".to_vec();
    bad.extend_from_slice(&150u32.to_le_bytes());
    bad.extend(chunk(b"MAIN", &[], &bad_group));
    assert!(!vox_framing_ok(&bad));
}
