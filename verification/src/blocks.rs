//! The kinds of block the world is made of, their categories and their palette colours.
use vstd::prelude::*;

verus! {

/// The kinds of voxel the world is made of.
#[derive(Copy, Clone, Debug, PartialEq, Eq, Structural)]
pub enum Block {
    Empty,
    Air,
    Grass,
    Dirt,
    Stone,
    DarkStone,
    Sand,
    OakWood,
    AppleTreeWood,
    Red,
    Green,
    Blue,
    OakLeave,
    Water,
}

/// Number of block kinds, which is also the length of the colour palette.
pub const BLOCK_KINDS: usize = 14;

/// The position of a block kind in the declaration order (its discriminant).
pub open spec fn block_index(b: Block) -> nat {
    match b {
        Block::Empty => 0,
        Block::Air => 1,
        Block::Grass => 2,
        Block::Dirt => 3,
        Block::Stone => 4,
        Block::DarkStone => 5,
        Block::Sand => 6,
        Block::OakWood => 7,
        Block::AppleTreeWood => 8,
        Block::Red => 9,
        Block::Green => 10,
        Block::Blue => 11,
        Block::OakLeave => 12,
        Block::Water => 13,
    }
}

/// The block kind at a position of the declaration order.
pub open spec fn block_at_index(i: nat) -> Block {
    if i == 0 { Block::Empty }
    else if i == 1 { Block::Air }
    else if i == 2 { Block::Grass }
    else if i == 3 { Block::Dirt }
    else if i == 4 { Block::Stone }
    else if i == 5 { Block::DarkStone }
    else if i == 6 { Block::Sand }
    else if i == 7 { Block::OakWood }
    else if i == 8 { Block::AppleTreeWood }
    else if i == 9 { Block::Red }
    else if i == 10 { Block::Green }
    else if i == 11 { Block::Blue }
    else if i == 12 { Block::OakLeave }
    else { Block::Water }
}

/// The (group, variant) category of a block; group 0 holds the non-solid kinds.
pub open spec fn spec_category(b: Block) -> (u8, u8) {
    match b {
        Block::Empty => (0, 0),
        Block::Air => (0, 1),
        Block::Grass => (1, 0),
        Block::Dirt => (1, 1),
        Block::Stone => (2, 0),
        Block::DarkStone => (2, 1),
        Block::Sand => (3, 2),
        Block::OakWood => (4, 0),
        Block::AppleTreeWood => (4, 1),
        Block::Red => (5, 0),
        Block::Green => (5, 1),
        Block::Blue => (5, 2),
        Block::OakLeave => (6, 0),
        Block::Water => (7, 0),
    }
}

/// The palette colour of each block kind.
pub open spec fn spec_color(b: Block) -> [u8; 3] {
    match b {
        Block::Empty => [0, 0, 0],
        Block::Air => [255, 255, 255],
        Block::Grass => [10, 200, 30],
        Block::Dirt => [50, 30, 30],
        Block::Stone => [100, 100, 100],
        Block::DarkStone => [70, 70, 70],
        Block::Sand => [190, 160, 60],
        Block::OakWood => [75, 35, 35],
        Block::AppleTreeWood => [115, 65, 35],
        Block::Red => [255, 0, 0],
        Block::Green => [0, 255, 0],
        Block::Blue => [0, 0, 255],
        Block::OakLeave => [40, 110, 40],
        Block::Water => [0, 100, 200],
    }
}

/// The block whose palette colour is `color`; `Block::Empty` where no block has it.
pub open spec fn spec_from_color(color: [u8; 3]) -> Block {
    if exists|b: Block| spec_color(b)@ == color@ {
        choose|b: Block| spec_color(b)@ == color@
    } else {
        Block::Empty
    }
}

/// Whether a block is solid, that is outside category group 0.
pub open spec fn is_solid(b: Block) -> bool {
    spec_category(b).0 != 0
}

/// The block kind at a position of the declaration order.
fn block_from_index(i: usize) -> (b: Block)
    requires
        i < BLOCK_KINDS,
    ensures
        b == block_at_index(i as nat),
        block_index(b) == i,
{
    match i {
        0 => Block::Empty,
        1 => Block::Air,
        2 => Block::Grass,
        3 => Block::Dirt,
        4 => Block::Stone,
        5 => Block::DarkStone,
        6 => Block::Sand,
        7 => Block::OakWood,
        8 => Block::AppleTreeWood,
        9 => Block::Red,
        10 => Block::Green,
        11 => Block::Blue,
        12 => Block::OakLeave,
        _ => Block::Water,
    }
}

/// Two colours are equal component by component.
fn same_color(a: &[u8; 3], b: &[u8; 3]) -> (r: bool)
    ensures
        r == (a@ == b@),
{
    let r = a[0] == b[0] && a[1] == b[1] && a[2] == b[2];
    proof {
        if r {
            assert(a@ =~= b@);
        }
    }
    r
}

impl Block {
    /// The (group, variant) category of the block.
    pub fn to_category(&self) -> (r: (u8, u8))
        ensures
            r == spec_category(*self),
    {
        match self {
            Block::Empty => (0, 0),
            Block::Air => (0, 1),
            Block::Grass => (1, 0),
            Block::Dirt => (1, 1),
            Block::Stone => (2, 0),
            Block::DarkStone => (2, 1),
            Block::Sand => (3, 2),
            Block::OakWood => (4, 0),
            Block::AppleTreeWood => (4, 1),
            Block::Red => (5, 0),
            Block::Green => (5, 1),
            Block::Blue => (5, 2),
            Block::OakLeave => (6, 0),
            Block::Water => (7, 0),
        }
    }

    /// The palette colour of the block.
    pub fn to_color(&self) -> (r: [u8; 3])
        ensures
            r@ == spec_color(*self)@,
    {
        match self {
            Block::Empty => [0, 0, 0],
            Block::Air => [255, 255, 255],
            Block::Grass => [10, 200, 30],
            Block::Dirt => [50, 30, 30],
            Block::Stone => [100, 100, 100],
            Block::DarkStone => [70, 70, 70],
            Block::Sand => [190, 160, 60],
            Block::OakWood => [75, 35, 35],
            Block::AppleTreeWood => [115, 65, 35],
            Block::Red => [255, 0, 0],
            Block::Green => [0, 255, 0],
            Block::Blue => [0, 0, 255],
            Block::OakLeave => [40, 110, 40],
            Block::Water => [0, 100, 200],
        }
    }

    /// The block whose palette colour is `color`, or `Block::Empty` where no
    /// block has that colour.
    pub fn from_color(color: [u8; 3]) -> (r: Block)
        ensures
            r == spec_from_color(color),
    {
        let mut i: usize = 0;
        while i < BLOCK_KINDS
            invariant
                i <= BLOCK_KINDS,
                forall|j: nat| j < i ==> spec_color(#[trigger] block_at_index(j))@ != color@,
            decreases BLOCK_KINDS - i,
        {
            let b = block_from_index(i);
            let c = b.to_color();
            if same_color(&c, &color) {
                proof {
                    lemma_colors_distinct(b, spec_from_color(color));
                }
                return b;
            }
            i = i + 1;
        }
        proof {
            assert forall|b: Block| spec_color(b)@ != color@ by {
                assert(block_at_index(block_index(b)) == b);
            }
        }
        Block::Empty
    }
}

/// Distinct block kinds have distinct palette colours.
pub proof fn lemma_colors_distinct(a: Block, b: Block)
    ensures
        spec_color(a)@ == spec_color(b)@ ==> a == b,
{
    if spec_color(a)@ == spec_color(b)@ {
        assert(spec_color(a)@[0] == spec_color(b)@[0]);
        assert(spec_color(a)@[1] == spec_color(b)@[1]);
        assert(spec_color(a)@[2] == spec_color(b)@[2]);
    }
}

/// Looking a block's own palette colour up gives the block back.
pub proof fn lemma_from_color_to_color(b: Block)
    ensures
        spec_from_color(spec_color(b)) == b,
{
    lemma_colors_distinct(b, spec_from_color(spec_color(b)));
}


/// The colours of the palette that `.vox` models are painted with: each block
/// kind has the colour of its name or of the material it stands for; red, green
/// and blue are the pure primary colours.
pub proof fn lemma_palette()
    ensures
        spec_color(Block::Empty)@ == seq![0u8, 0, 0],
        spec_color(Block::Air)@ == seq![255u8, 255, 255],
        spec_color(Block::Grass)@ == seq![10u8, 200, 30],
        spec_color(Block::Dirt)@ == seq![50u8, 30, 30],
        spec_color(Block::Stone)@ == seq![100u8, 100, 100],
        spec_color(Block::DarkStone)@ == seq![70u8, 70, 70],
        spec_color(Block::Sand)@ == seq![190u8, 160, 60],
        spec_color(Block::OakWood)@ == seq![75u8, 35, 35],
        spec_color(Block::AppleTreeWood)@ == seq![115u8, 65, 35],
        spec_color(Block::Red)@ == seq![255u8, 0, 0],
        spec_color(Block::Green)@ == seq![0u8, 255, 0],
        spec_color(Block::Blue)@ == seq![0u8, 0, 255],
        spec_color(Block::OakLeave)@ == seq![40u8, 110, 40],
        spec_color(Block::Water)@ == seq![0u8, 100, 200],
{
    assert(spec_color(Block::Empty)@ =~= seq![0u8, 0, 0]);
    assert(spec_color(Block::Air)@ =~= seq![255u8, 255, 255]);
    assert(spec_color(Block::Grass)@ =~= seq![10u8, 200, 30]);
    assert(spec_color(Block::Dirt)@ =~= seq![50u8, 30, 30]);
    assert(spec_color(Block::Stone)@ =~= seq![100u8, 100, 100]);
    assert(spec_color(Block::DarkStone)@ =~= seq![70u8, 70, 70]);
    assert(spec_color(Block::Sand)@ =~= seq![190u8, 160, 60]);
    assert(spec_color(Block::OakWood)@ =~= seq![75u8, 35, 35]);
    assert(spec_color(Block::AppleTreeWood)@ =~= seq![115u8, 65, 35]);
    assert(spec_color(Block::Red)@ =~= seq![255u8, 0, 0]);
    assert(spec_color(Block::Green)@ =~= seq![0u8, 255, 0]);
    assert(spec_color(Block::Blue)@ =~= seq![0u8, 0, 255]);
    assert(spec_color(Block::OakLeave)@ =~= seq![40u8, 110, 40]);
    assert(spec_color(Block::Water)@ =~= seq![0u8, 100, 200]);
}

/// A voxel painted in a primary colour becomes the block of that colour, and
/// the pure primary colours tell red, green and blue apart.
pub proof fn lemma_primary_colors(color: [u8; 3])
    ensures
        color@ == seq![255u8, 0, 0] ==> spec_from_color(color) == Block::Red,
        color@ == seq![0u8, 255, 0] ==> spec_from_color(color) == Block::Green,
        color@ == seq![0u8, 0, 255] ==> spec_from_color(color) == Block::Blue,
{
    lemma_palette();
    lemma_from_color_to_color(Block::Red);
    lemma_from_color_to_color(Block::Green);
    lemma_from_color_to_color(Block::Blue);
    if color@ == seq![255u8, 0, 0] {
        assert(spec_color(Block::Red)@ == color@);
    }
    if color@ == seq![0u8, 255, 0] {
        assert(spec_color(Block::Green)@ == color@);
    }
    if color@ == seq![0u8, 0, 255] {
        assert(spec_color(Block::Blue)@ == color@);
    }
}

} // verus!
