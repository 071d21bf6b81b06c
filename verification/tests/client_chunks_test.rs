use voxel::blocks::Block;
use voxel::chunk::Chunk;
use voxel::client_chunks::ClientChunks;

#[test]
fn changes_before_the_load_are_kept() {
    let mut known = ClientChunks::new();
    let drawn = known.update(&([0, 0, 0], vec![([1, 1, 1], Block::Sand)]));
    assert_eq!(drawn.coord, [0, 0, 0]);
    assert_eq!(drawn.data[1][1][1], Block::Sand);
    let mut c = Chunk::new([0, 0, 0]);
    c.data[1][1][1] = Block::Stone;
    c.data[2][2][2] = Block::Dirt;
    let drawn = known.load(c);
    assert_eq!(drawn.data[1][1][1], Block::Sand);
    assert_eq!(drawn.data[2][2][2], Block::Dirt);
}

#[test]
fn changes_are_written_into_the_known_chunk() {
    let mut known = ClientChunks::new();
    let mut c = Chunk::new([4, 0, 0]);
    c.data[0][0][0] = Block::Grass;
    known.load(c);
    let drawn = known.update(&([4, 0, 0], vec![([0, 0, 1], Block::Red), ([0, 0, 0], Block::Empty)]));
    assert_eq!(drawn.data[0][0][0], Block::Empty);
    assert_eq!(drawn.data[0][0][1], Block::Red);
    let again = known.update(&([4, 0, 0], vec![]));
    assert_eq!(again.data[0][0][1], Block::Red);
}
