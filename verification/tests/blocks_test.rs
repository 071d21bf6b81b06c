use voxel::blocks::Block;

const ALL: [Block; 14] = [
    Block::Empty,
    Block::Air,
    Block::Grass,
    Block::Dirt,
    Block::Stone,
    Block::DarkStone,
    Block::Sand,
    Block::OakWood,
    Block::AppleTreeWood,
    Block::Red,
    Block::Green,
    Block::Blue,
    Block::OakLeave,
    Block::Water,
];

#[test]
fn block_categories() {
    assert_eq!(Block::Empty.to_category(), (0, 0));
    assert_eq!(Block::Air.to_category(), (0, 1));
    assert_eq!(Block::Grass.to_category(), (1, 0));
    assert_eq!(Block::Sand.to_category(), (3, 2));
    assert_eq!(Block::Water.to_category(), (7, 0));
}

#[test]
fn block_colors() {
    assert_eq!(Block::Grass.to_color(), [10, 200, 30]);
    assert_eq!(Block::Water.to_color(), [0, 100, 200]);
    assert_eq!(Block::Empty.to_color(), [0, 0, 0]);
    assert_eq!(Block::Air.to_color(), [255, 255, 255]);
}

#[test]
fn from_color_gives_back_every_block() {
    for b in ALL.iter() {
        assert_eq!(Block::from_color(b.to_color()), *b);
    }
}

#[test]
fn from_color_of_unknown_colour_is_empty() {
    assert_eq!(Block::from_color([1, 2, 3]), Block::Empty);
    assert_eq!(Block::from_color([255, 255, 0]), Block::Empty);
}

#[test]
fn colours_are_distinct() {
    for (i, a) in ALL.iter().enumerate() {
        for (j, b) in ALL.iter().enumerate() {
            if i != j {
                assert_ne!(a.to_color(), b.to_color());
            }
        }
    }
}
