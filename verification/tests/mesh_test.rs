use voxel::blocks::Block;
use voxel::chunk::{Chunk, ChunkSide, CHUNK_SIZE};
use voxel::mesh::{chunk_faces, FaceKind, MeshRegister};

fn kinds(c: &Chunk, sides: &[Option<ChunkSide>; 6]) -> Vec<(FaceKind, [i64; 3])> {
    chunk_faces(c, sides).iter().map(|f| (f.kind, f.pos)).collect()
}

#[test]
fn lone_block_shows_six_faces() {
    let mut c = Chunk::new([0, 0, 0]);
    c.data[10][10][10] = Block::Stone;
    let faces = kinds(&c, &[None; 6]);
    let p = [10, 10, 10];
    assert_eq!(
        faces,
        vec![
            (FaceKind::Left, p),
            (FaceKind::Right, p),
            (FaceKind::Front, p),
            (FaceKind::Back, p),
            (FaceKind::Top, p),
            (FaceKind::Bottom, p)
        ]
    );
}

#[test]
fn open_blocks_show_nothing() {
    let mut c = Chunk::new([0, 0, 0]);
    c.data[10][10][10] = Block::Air;
    c.data[11][10][10] = Block::Water;
    assert_eq!(kinds(&c, &[None; 6]).len(), 6);
}

#[test]
fn corner_block_hides_faces_at_unknown_borders() {
    let mut c = Chunk::new([0, 0, 0]);
    c.data[0][0][0] = Block::Dirt;
    let p = [0, 0, 0];
    assert_eq!(kinds(&c, &[None; 6]), vec![(FaceKind::Right, p), (FaceKind::Front, p), (FaceKind::Top, p)]);
}

#[test]
fn known_neighbours_show_faces_across_borders() {
    let mut c = Chunk::new([0, 0, 0]);
    c.data[0][0][0] = Block::Dirt;
    let open: ChunkSide = [[Block::Empty; CHUNK_SIZE]; CHUNK_SIZE];
    let solid: ChunkSide = [[Block::Stone; CHUNK_SIZE]; CHUNK_SIZE];
    let faces = kinds(&c, &[Some(open), Some(solid), None, None, None, None]);
    assert_eq!(faces.len(), 3 + 1 + CHUNK_SIZE * CHUNK_SIZE);
    assert_eq!(faces[3], (FaceKind::Left, [0, 0, 0]));
    assert_eq!(faces[4], (FaceKind::Left, [64, 0, 0]));
    assert_eq!(faces[5], (FaceKind::Left, [64, 1, 0]));
}

#[test]
fn register_hands_out_the_touching_layers() {
    let mut reg = MeshRegister::new();
    let mut left = Chunk::new([-1, 0, 0]);
    left.data[63][2][3] = Block::Red;
    let sides = reg.add(left);
    assert!(sides.iter().all(|s| s.is_none()));
    let sides = reg.add(Chunk::new([0, 0, 0]));
    assert!(sides[0].is_some());
    assert_eq!(sides[0].unwrap()[3][2], Block::Red);
    assert!(sides[1].is_none());
    let below = reg.add(Chunk::new([0, -1, 0]));
    assert!(below[4].is_some());
}

#[test]
fn flat_bytes_fill_cells_x_first() {
    let mut flat = vec![3u8, 4, 5, 6];
    let cells = voxel::mesh::flat_to_3d(&flat);
    assert_eq!(cells.len(), 64);
    assert_eq!(cells[0][0][0], (3, 4));
    assert_eq!(cells[1][0][0], (5, 6));
    assert_eq!(cells[2][0][0], (0, 0));
    assert_eq!(cells[0][1][0], (0, 0));
    flat.resize(2 * 64 * 64 * 64, 0);
    let i = 1 + 64 * 2 + 4096 * 3;
    flat[2 * i] = 7;
    flat[2 * i + 1] = 8;
    flat.push(9);
    let cells = voxel::mesh::flat_to_3d(&flat);
    assert_eq!(cells[1][2][3], (7, 8));
    assert_eq!(cells[63][63][63], (0, 0));
    assert_eq!(cells[0][0][0], (3, 4));
}
