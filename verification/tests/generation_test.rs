use voxel::blocks::Block;
use voxel::chunk::{Chunk, CHUNK_SIZE};
use voxel::generation::{can_generate, generate, Column};
use voxel::structure::Structure;

fn columns(height: i64) -> Vec<Column> {
    vec![Column { height, tree: false, stone: false, house: false }; CHUNK_SIZE * CHUNK_SIZE]
}

fn one_block(b: Block) -> Structure {
    let mut s = Structure::new([1, 1, 1]);
    s.place([0, 0, 0], b);
    s
}

#[test]
fn low_ground_is_sand_under_grass_under_water() {
    let cols = columns(10);
    let (t, s, h) = (one_block(Block::OakWood), one_block(Block::Stone), one_block(Block::Red));
    assert!(can_generate(&Chunk::new([0, 0, 0]), &cols, &t, &s, &h));
    let sc = generate(Chunk::new([0, 0, 0]), &cols, &t, &s, &h);
    assert!(sc.is_valid());
    for y in 0..9 {
        assert_eq!(sc.get([3, y, 4]), Some(Block::Sand));
    }
    assert_eq!(sc.get([3, 9, 4]), Some(Block::Grass));
    for y in 10..20 {
        assert_eq!(sc.get([3, y, 4]), Some(Block::Water));
    }
    assert_eq!(sc.get([3, 20, 4]), Some(Block::Empty));
}

#[test]
fn high_ground_is_sand_then_dirt_then_grass() {
    let cols = columns(30);
    let (t, s, h) = (one_block(Block::OakWood), one_block(Block::Stone), one_block(Block::Red));
    let sc = generate(Chunk::new([0, 0, 0]), &cols, &t, &s, &h);
    assert_eq!(sc.get([0, 22, 0]), Some(Block::Sand));
    assert_eq!(sc.get([0, 23, 0]), Some(Block::Dirt));
    assert_eq!(sc.get([0, 26, 0]), Some(Block::Dirt));
    assert_eq!(sc.get([0, 27, 0]), Some(Block::Grass));
    assert_eq!(sc.get([0, 29, 0]), Some(Block::Grass));
    assert_eq!(sc.get([0, 30, 0]), Some(Block::Empty));
}

#[test]
fn columns_outside_the_layer_are_left_alone() {
    let cols = columns(100);
    let (t, s, h) = (one_block(Block::OakWood), one_block(Block::Stone), one_block(Block::Red));
    let sc = generate(Chunk::new([0, 0, 0]), &cols, &t, &s, &h);
    assert_eq!(sc.chunks.len(), 1);
    assert!(sc.get_main_chunk().is_empty());
}

#[test]
fn structures_are_stamped_on_their_columns() {
    let mut cols = columns(30);
    cols[5 * CHUNK_SIZE + 6] = Column { height: 30, tree: true, stone: true, house: true };
    let (t, s, h) = (one_block(Block::OakWood), one_block(Block::Stone), one_block(Block::Red));
    let sc = generate(Chunk::new([0, 0, 0]), &cols, &t, &s, &h);
    assert_eq!(sc.get([5, 25, 6]), Some(Block::OakWood));
    assert_eq!(sc.get([5, 28, 6]), Some(Block::Stone));
    assert_eq!(sc.get([5, 23, 6]), Some(Block::Red));
    assert_eq!(sc.get([6, 25, 6]), Some(Block::Dirt));
}

#[test]
fn no_tree_under_water() {
    let mut cols = columns(10);
    cols[0] = Column { height: 10, tree: true, stone: false, house: true };
    let (t, s, h) = (one_block(Block::OakWood), one_block(Block::Stone), one_block(Block::Red));
    let sc = generate(Chunk::new([0, 0, 0]), &cols, &t, &s, &h);
    assert_eq!(sc.get([0, 5, 0]), Some(Block::Sand));
    assert_eq!(sc.get([0, 3, 0]), Some(Block::Sand));
}

#[test]
fn generation_needs_every_column() {
    let cols = columns(10)[..100].to_vec();
    let (t, s, h) = (one_block(Block::OakWood), one_block(Block::Stone), one_block(Block::Red));
    assert!(!can_generate(&Chunk::new([0, 0, 0]), &cols, &t, &s, &h));
    assert!(!can_generate(&Chunk::new([i64::MAX, 0, 0]), &columns(10), &t, &s, &h));
}
