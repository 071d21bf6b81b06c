use voxel::blocks::Block;
use voxel::chunk::{delta_in_range, get_block, get_chunk_coords, Chunk, ChunkDelta, CHUNK_SIZE};

fn chunk_with(coord: [i64; 3], cells: &[([usize; 3], Block)]) -> Chunk {
    let mut c = Chunk::new(coord);
    for (p, b) in cells.iter() {
        c.data[p[0]][p[1]][p[2]] = *b;
    }
    c
}

fn same_blocks(a: &Chunk, b: &Chunk) -> bool {
    for x in 0..CHUNK_SIZE {
        for y in 0..CHUNK_SIZE {
            for z in 0..CHUNK_SIZE {
                if a.data[x][y][z] != b.data[x][y][z] {
                    return false;
                }
            }
        }
    }
    true
}

#[test]
fn chunk_coords_of_positive_and_negative_positions() {
    assert_eq!(get_chunk_coords(&[0, 0, 0]), ([0, 0, 0], [0, 0, 0]));
    assert_eq!(get_chunk_coords(&[65, -1, 128]), ([1, -1, 2], [1, 63, 0]));
    assert_eq!(get_chunk_coords(&[-64, -65, 63]), ([-1, -2, 0], [0, 63, 63]));
    assert_eq!(get_chunk_coords(&[i64::MIN, i64::MAX, -1]), ([i64::MIN / 64, i64::MAX / 64, -1], [0, 63, 63]));
}

#[test]
fn new_chunk_is_empty_and_well_formed() {
    let c = Chunk::new([3, -4, 5]);
    assert!(c.is_well_formed());
    assert!(c.is_empty());
    assert_eq!(c.coord, [3, -4, 5]);
    let d = chunk_with([0, 0, 0], &[([1, 2, 3], Block::Air)]);
    assert!(!d.is_empty());
}

#[test]
fn broken_chunk_is_not_well_formed() {
    let mut c = Chunk::new([0, 0, 0]);
    c.data[5].pop();
    assert!(!c.is_well_formed());
}

#[test]
fn merge_keeps_blocks_of_the_other_that_are_not_empty() {
    let mut a = chunk_with([0, 0, 0], &[([0, 0, 0], Block::Stone), ([1, 1, 1], Block::Dirt)]);
    let b = chunk_with([0, 0, 0], &[([1, 1, 1], Block::Sand), ([2, 2, 2], Block::Water)]);
    a.merge(&b);
    assert_eq!(a.data[0][0][0], Block::Stone);
    assert_eq!(a.data[1][1][1], Block::Sand);
    assert_eq!(a.data[2][2][2], Block::Water);
    assert_eq!(a.data[3][3][3], Block::Empty);
}

#[test]
fn delta_lists_changed_blocks_in_order() {
    let a = chunk_with([1, 2, 3], &[([0, 0, 1], Block::Stone), ([5, 5, 5], Block::Dirt)]);
    let b = chunk_with([1, 2, 3], &[([0, 0, 1], Block::Stone), ([4, 0, 0], Block::Grass), ([5, 5, 5], Block::Empty)]);
    let d: ChunkDelta = a.get_delta(&b);
    assert_eq!(d.0, [1, 2, 3]);
    assert_eq!(d.1, vec![([4, 0, 0], Block::Grass), ([5, 5, 5], Block::Empty)]);
}

#[test]
fn applying_a_delta_restores_the_other_chunk() {
    let a = chunk_with([0, 0, 0], &[([0, 0, 0], Block::Stone), ([63, 63, 63], Block::Red)]);
    let b = chunk_with([0, 0, 0], &[([1, 0, 0], Block::Blue), ([63, 63, 63], Block::Green)]);
    let d = a.get_delta(&b);
    let mut c = a.clone();
    c.apply_delta(&d);
    assert!(same_blocks(&c, &b));
}

#[test]
fn later_delta_entries_win() {
    let mut c = Chunk::new([0, 0, 0]);
    let d: ChunkDelta = ([0, 0, 0], vec![([1, 1, 1], Block::Dirt), ([1, 1, 1], Block::Sand)]);
    assert!(delta_in_range(&d));
    c.apply_delta(&d);
    assert_eq!(c.data[1][1][1], Block::Sand);
}

#[test]
fn delta_out_of_range_is_detected() {
    let d: ChunkDelta = ([0, 0, 0], vec![([1, 1, 1], Block::Dirt), ([64, 0, 0], Block::Sand)]);
    assert!(!delta_in_range(&d));
}

#[test]
fn sides_are_the_border_layers() {
    let c = chunk_with(
        [0, 0, 0],
        &[
            ([0, 2, 3], Block::Red),
            ([63, 2, 3], Block::Green),
            ([4, 5, 63], Block::Blue),
            ([4, 5, 0], Block::Dirt),
            ([6, 63, 7], Block::Sand),
            ([6, 0, 7], Block::Stone),
        ],
    );
    assert_eq!(c.get_left_side()[3][2], Block::Red);
    assert_eq!(c.get_right_side()[3][2], Block::Green);
    assert_eq!(c.get_front_side()[4][5], Block::Blue);
    assert_eq!(c.get_back_side()[4][5], Block::Dirt);
    assert_eq!(c.get_top_side()[6][7], Block::Sand);
    assert_eq!(c.get_bottom_side()[6][7], Block::Stone);
    assert_eq!(c.get_left_side()[0][0], Block::Empty);
}

#[test]
fn get_block_inside_and_outside() {
    let c = chunk_with([0, 0, 0], &[([1, 2, 3], Block::Grass)]);
    assert_eq!(get_block(1, 2, 3, &c.data), Block::Grass);
    assert_eq!(get_block(1, 2, 4, &c.data), Block::Empty);
    assert_eq!(get_block(64, 0, 0, &c.data), Block::Empty);
    assert_eq!(get_block(0, 64, 0, &c.data), Block::Empty);
    assert_eq!(get_block(usize::MAX, 0, 0, &c.data), Block::Empty);
}

#[test]
fn chunk_and_offset_rebuild_the_position() {
    for c in [0i64, 1, 63, 64, 65, -1, -63, -64, -65, 1000, -1000, i64::MAX, i64::MIN + 64] {
        let (chunk, index) = get_chunk_coords(&[c, 0, 0]);
        assert!(index[0] < CHUNK_SIZE);
        assert_eq!(chunk[0] as i128 * 64 + index[0] as i128, c as i128);
    }
}
