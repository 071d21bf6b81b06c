use voxel::blocks::Block;
use voxel::structure::Structure;
use voxel::super_chunk::{can_place_structure, SuperChunk};
use voxel::chunk::Chunk;

#[test]
fn structure_place_and_get() {
    let mut s = Structure::new([2, 3, 4]);
    assert!(s.is_well_formed());
    assert_eq!(s.get([1, 2, 3]), Some(Block::Empty));
    assert!(s.place([1, 2, 3], Block::OakWood));
    assert_eq!(s.get([1, 2, 3]), Some(Block::OakWood));
    assert_eq!(s.get([0, 2, 3]), Some(Block::Empty));
    assert!(!s.place([2, 0, 0], Block::Stone));
    assert_eq!(s.get([2, 0, 0]), None);
}

#[test]
fn broken_structure_is_not_well_formed() {
    let mut s = Structure::new([2, 2, 2]);
    s.voxels[1][1].push(Block::Air);
    assert!(!s.is_well_formed());
    let mut t = Structure::new([2, 2, 2]);
    t.size = [3, 2, 2];
    assert!(!t.is_well_formed());
}

#[test]
fn super_chunk_place_and_get() {
    let mut sc = SuperChunk::new(Chunk::new([0, 0, 0]));
    assert!(sc.is_valid());
    assert_eq!(sc.get([5, 6, 7]), Some(Block::Empty));
    assert_eq!(sc.get([64, 0, 0]), None);
    sc.place([5, 6, 7], Block::Stone);
    assert_eq!(sc.get([5, 6, 7]), Some(Block::Stone));
    sc.place([64, 1, -1], Block::Dirt);
    assert_eq!(sc.get([64, 1, -1]), Some(Block::Dirt));
    assert_eq!(sc.get([65, 1, -1]), Some(Block::Empty));
    assert_eq!(sc.chunks.len(), 2);
    sc.place([200, 0, 0], Block::Empty);
    assert_eq!(sc.get([200, 0, 0]), None);
    assert!(sc.is_valid());
}

#[test]
fn super_chunk_main_chunk() {
    let mut sc = SuperChunk::new(Chunk::new([1, 1, 1]));
    sc.place([64, 64, 64], Block::Grass);
    sc.place([0, 0, 0], Block::Sand);
    let main = sc.get_main_chunk();
    assert_eq!(main.coord, [1, 1, 1]);
    assert_eq!(main.data[0][0][0], Block::Grass);
    let removed = sc.remove_main_chunk();
    assert_eq!(removed.data[0][0][0], Block::Grass);
    assert_eq!(sc.chunks.len(), 1);
    assert_eq!(sc.chunks[0].0, [0, 0, 0]);
    assert!(!sc.is_valid());
}

#[test]
fn place_structure_centres_along_x_and_z() {
    let mut s = Structure::new([3, 2, 3]);
    s.place([0, 0, 0], Block::OakWood);
    s.place([2, 1, 2], Block::OakLeave);
    let mut sc = SuperChunk::new(Chunk::new([0, 0, 0]));
    assert!(can_place_structure(&s, [10, 20, 30]));
    sc.place_structure(&s, [10, 20, 30]);
    assert_eq!(sc.get([9, 20, 29]), Some(Block::OakWood));
    assert_eq!(sc.get([11, 21, 31]), Some(Block::OakLeave));
    assert_eq!(sc.get([10, 20, 30]), Some(Block::Empty));
}

#[test]
fn place_structure_reaches_other_chunks() {
    let mut s = Structure::new([1, 1, 1]);
    s.place([0, 0, 0], Block::Red);
    let mut sc = SuperChunk::new(Chunk::new([0, 0, 0]));
    sc.place_structure(&s, [-1, 0, 0]);
    assert_eq!(sc.get([-1, 0, 0]), Some(Block::Red));
    assert_eq!(sc.chunks.len(), 2);
}

#[test]
fn structure_that_would_leave_the_world_is_refused() {
    let s = Structure::new([4, 4, 4]);
    assert!(!can_place_structure(&s, [i64::MAX, 0, 0]));
    assert!(!can_place_structure(&s, [0, i64::MAX - 2, 0]));
    assert!(can_place_structure(&s, [0, i64::MAX - 3, 0]));
}

#[test]
fn placing_beside_the_main_chunk_adds_one_chunk() {
    let mut sc = SuperChunk::new(Chunk::new([0, 0, 0]));
    sc.place([-1, 0, 0], Block::Stone);
    assert_eq!(sc.chunks.len(), 2);
    assert_eq!(sc.chunks[0].0, [-1, 0, 0]);
    assert_eq!(sc.chunks[0].1.data[63][0][0], Block::Stone);
    assert_eq!(sc.get([-1, 0, 0]), Some(Block::Stone));
    assert_eq!(sc.get([0, 0, 0]), Some(Block::Empty));
    assert_eq!(sc.get([-1, 0, -1]), None);
    assert_eq!(sc.main_chunk, [0, 0, 0]);
    sc.place([500, 500, 500], Block::Empty);
    assert_eq!(sc.chunks.len(), 2);
}

#[test]
fn ball_fills_what_lies_nearer_than_half_the_side() {
    let b = voxel::structure::ball(24, Block::Air);
    assert_eq!(b.size, [24, 24, 24]);
    assert!(b.is_well_formed());
    assert_eq!(b.get([12, 12, 12]), Some(Block::Air));
    assert_eq!(b.get([12, 12, 1]), Some(Block::Air));
    assert_eq!(b.get([12, 12, 0]), Some(Block::Empty));
    assert_eq!(b.get([0, 0, 0]), Some(Block::Empty));
    for x in 0..24i64 {
        for y in 0..24i64 {
            for z in 0..24i64 {
                let inside = voxel::calculate_chunk_distance(&[x, y, z], &[12, 12, 12]) < 12;
                let expected = if inside { Block::Air } else { Block::Empty };
                assert_eq!(b.get([x as usize, y as usize, z as usize]), Some(expected));
            }
        }
    }
}
