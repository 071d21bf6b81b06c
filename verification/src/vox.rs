//! Structures read from MagicaVoxel `.vox` files: the file is parsed by the
//! `dot_vox` crate, and its first model is turned into a structure, with the
//! y and z axes swapped and each voxel's palette colour mapped to a block.
use vstd::prelude::*;
use crate::blocks::{Block, spec_from_color};
use crate::structure::{Structure, in_box};

verus! {

/// A voxel of a model: its position and its index in the palette.
#[derive(Clone, Copy, Debug)]
pub struct VoxVoxel {
    pub x: u8,
    pub y: u8,
    pub z: u8,
    pub i: u8,
}

/// A model of a `.vox` file: its size along x, y and z, and its voxels.
#[derive(Clone, Debug)]
pub struct VoxModel {
    pub size: [u32; 3],
    pub voxels: Vec<VoxVoxel>,
}

/// What the logic reads of a `.vox` file: its palette of colours, packed as
/// little-endian RGBA words, and its models.
#[derive(Clone, Debug)]
pub struct VoxFile {
    pub palette: Vec<u32>,
    pub models: Vec<VoxModel>,
}

/// What `dot_vox` reads from the bytes of a `.vox` file; `None` where they are
/// not a valid file.
pub uninterp spec fn vox_parse(bytes: Seq<u8>) -> Option<VoxFile>;

/// The little-endian 32-bit word at `p`.
pub open spec fn u32_at(b: Seq<u8>, p: int) -> int {
    b[p] + b[p + 1] * 256 + b[p + 2] * 65536 + b[p + 3] * 16777216
}

/// Whether the four bytes at `p` spell `t`.
pub open spec fn tag_at(b: Seq<u8>, p: int, t: [u8; 4]) -> bool {
    b[p] == t[0] && b[p + 1] == t[1] && b[p + 2] == t[2] && b[p + 3] == t[3]
}

/// The identifier `SIZE` of a chunk that holds a model's size.
pub open spec fn size_tag() -> [u8; 4] { [83, 73, 90, 69] }

/// The identifier `XYZI` of a chunk that holds a model's voxels.
pub open spec fn xyzi_tag() -> [u8; 4] { [88, 89, 90, 73] }

/// The identifier `RGBA` of a chunk that holds the palette.
pub open spec fn rgba_tag() -> [u8; 4] { [82, 71, 66, 65] }

/// The identifier `MATL` of a chunk that holds a material.
pub open spec fn matl_tag() -> [u8; 4] { [77, 65, 84, 76] }

/// The identifier `PACK` of a chunk that holds another chunk.
pub open spec fn pack_tag() -> [u8; 4] { [80, 65, 67, 75] }

/// Whether reading `n` length-prefixed strings from `p` on, up to `end`, finds
/// each length word whole, until a string runs past `end` (where reading stops).
pub open spec fn strings_readable(b: Seq<u8>, p: int, end: int, n: nat) -> bool
    decreases n,
{
    if n == 0 {
        true
    } else if end - p < 4 {
        false
    } else if p + 4 + u32_at(b, p) > end {
        true
    } else {
        strings_readable(b, p + 4 + u32_at(b, p), end, (n - 1) as nat)
    }
}

/// Whether the content `start..end` of a chunk without children, whose
/// identifier is at `id`, can be read whole: a size holds three words, a voxel
/// list its count and that many voxels, a palette whole words, a material its
/// identifier and a dictionary whose entries are all readable; a pack (another
/// chunk inside) is refused; the content of other chunks is not read.
pub open spec fn content_readable(b: Seq<u8>, id: int, start: int, end: int) -> bool {
    let n = end - start;
    if tag_at(b, id, size_tag()) {
        n >= 12
    } else if tag_at(b, id, xyzi_tag()) {
        n >= 4 && 4 + 4 * u32_at(b, start) <= n
    } else if tag_at(b, id, rgba_tag()) {
        n % 4 == 0
    } else if tag_at(b, id, matl_tag()) {
        n >= 8 && 8 * u32_at(b, start + 4) <= n && strings_readable(b, start + 8, end, (2 * u32_at(b, start + 4)) as nat)
    } else {
        !tag_at(b, id, pack_tag())
    }
}

/// Whether the chunks listed from `p` up to `end` can be read: reading stops
/// quietly where fewer than 4 bytes remain or a chunk runs past `end`; a chunk
/// header that is cut short, or a content that cannot be read whole, is refused;
/// the children of a chunk are read the same way, and a pack with children is
/// refused.
pub open spec fn children_readable(b: Seq<u8>, p: int, end: int) -> bool
    decreases end - p,
{
    if end - p < 4 {
        true
    } else if end - p < 12 {
        false
    } else if p + 12 + u32_at(b, p + 4) + u32_at(b, p + 8) > end {
        true
    } else if u32_at(b, p + 8) == 0 {
        content_readable(b, p, p + 12, p + 12 + u32_at(b, p + 4))
            && children_readable(b, p + 12 + u32_at(b, p + 4), end)
    } else {
        !tag_at(b, p, pack_tag())
            && children_readable(b, p + 12 + u32_at(b, p + 4), p + 12 + u32_at(b, p + 4) + u32_at(b, p + 8))
            && children_readable(b, p + 12 + u32_at(b, p + 4) + u32_at(b, p + 8), end)
    }
}

/// Whether `dot_vox` reads `b` without reading past its end: where the bytes
/// start with `VOX `, the version word and the main chunk's header are whole,
/// and its content (without children) or its children (not a pack) can be read.
pub open spec fn vox_readable(b: Seq<u8>) -> bool {
    let end = b.len() as int;
    if end < 4 || !tag_at(b, 0, [86, 79, 88, 32]) {
        true
    } else if end < 8 {
        false
    } else if end - 8 < 4 {
        true
    } else if end - 8 < 12 {
        false
    } else if 20 + u32_at(b, 12) + u32_at(b, 16) > end {
        true
    } else if u32_at(b, 16) == 0 {
        content_readable(b, 8, 20, 20 + u32_at(b, 12))
    } else {
        !tag_at(b, 8, pack_tag()) && children_readable(b, 20 + u32_at(b, 12), 20 + u32_at(b, 12) + u32_at(b, 16))
    }
}

/// The little-endian word at `p`.
fn read_u32(b: &[u8], p: usize) -> (r: u64)
    requires
        p + 4 <= b@.len(),
    ensures
        r == u32_at(b@, p as int),
{
    b[p] as u64 + b[p + 1] as u64 * 256 + b[p + 2] as u64 * 65536 + b[p + 3] as u64 * 16777216
}

/// Whether the four bytes at `p` spell `t`.
fn tag_is(b: &[u8], p: usize, t: [u8; 4]) -> (r: bool)
    requires
        p + 4 <= b@.len(),
    ensures
        r == tag_at(b@, p as int, t),
{
    b[p] == t[0] && b[p + 1] == t[1] && b[p + 2] == t[2] && b[p + 3] == t[3]
}

/// Whether `n` length-prefixed strings can be read from `p` on, up to `end`.
fn strings_ok(b: &[u8], p: usize, end: usize, n: u64) -> (r: bool)
    requires
        p <= end <= b@.len(),
    ensures
        r == strings_readable(b@, p as int, end as int, n as nat),
{
    let mut q = p;
    let mut k = n;
    while k > 0
        invariant
            q <= end <= b@.len(),
            strings_readable(b@, q as int, end as int, k as nat) == strings_readable(b@, p as int, end as int, n as nat),
        decreases k,
    {
        if end - q < 4 {
            return false;
        }
        let len = read_u32(b, q);
        if (q as u128) + 4 + (len as u128) > end as u128 {
            return true;
        }
        q = q + 4 + len as usize;
        k = k - 1;
    }
    true
}

/// Whether the content `start..end` of a childless chunk whose identifier is
/// at `id` can be read whole.
fn content_ok(b: &[u8], id: usize, start: usize, end: usize) -> (r: bool)
    requires
        id + 4 <= b@.len(),
        start <= end <= b@.len(),
    ensures
        r == content_readable(b@, id as int, start as int, end as int),
{
    let n = end - start;
    if tag_is(b, id, [83, 73, 90, 69]) {
        n >= 12
    } else if tag_is(b, id, [88, 89, 90, 73]) {
        if n < 4 {
            false
        } else {
            4 + 4 * (read_u32(b, start) as u128) <= n as u128
        }
    } else if tag_is(b, id, [82, 71, 66, 65]) {
        n % 4 == 0
    } else if tag_is(b, id, [77, 65, 84, 76]) {
        if n < 8 {
            false
        } else {
            let count = read_u32(b, start + 4);
            if 8 * (count as u128) > n as u128 {
                false
            } else {
                strings_ok(b, start + 8, end, 2 * count)
            }
        }
    } else {
        !tag_is(b, id, [80, 65, 67, 75])
    }
}

/// Whether the chunks listed from `p` up to `end` can be read.
fn children_ok(b: &[u8], p: usize, end: usize) -> (r: bool)
    requires
        p <= end <= b@.len(),
    ensures
        r == children_readable(b@, p as int, end as int),
    decreases end - p,
{
    let mut q = p;
    loop
        invariant
            p <= q <= end <= b@.len(),
            children_readable(b@, q as int, end as int) == children_readable(b@, p as int, end as int),
        decreases end - q,
    {
        if end - q < 4 {
            return true;
        }
        if end - q < 12 {
            return false;
        }
        let c = read_u32(b, q + 4);
        let ch = read_u32(b, q + 8);
        if (q as u128) + 12 + (c as u128) + (ch as u128) > end as u128 {
            return true;
        }
        let cend = q + 12 + c as usize;
        if ch == 0 {
            if !content_ok(b, q, q + 12, cend) {
                return false;
            }
            q = cend;
        } else {
            if tag_is(b, q, [80, 65, 67, 75]) {
                return false;
            }
            let chend = cend + ch as usize;
            if !children_ok(b, cend, chend) {
                return false;
            }
            q = chend;
        }
    }
}

/// Whether `dot_vox` reads `bytes` without reading past their end (see
/// `vox_readable`). The test is cautious: a file refused here may still be one
/// that `dot_vox` reads, such as one with a pack chunk.
pub fn vox_framing_ok(bytes: &[u8]) -> (r: bool)
    ensures
        r == vox_readable(bytes@),
{
    let end = bytes.len();
    if end < 4 || !tag_is(bytes, 0, [86, 79, 88, 32]) {
        return true;
    }
    if end < 8 {
        return false;
    }
    if end - 8 < 4 {
        return true;
    }
    if end - 8 < 12 {
        return false;
    }
    let c = read_u32(bytes, 12);
    let ch = read_u32(bytes, 16);
    if 20 + (c as u128) + (ch as u128) > end as u128 {
        return true;
    }
    let cend = 20 + c as usize;
    if ch == 0 {
        content_ok(bytes, 8, 20, cend)
    } else {
        !tag_is(bytes, 8, [80, 65, 67, 75]) && children_ok(bytes, cend, cend + ch as usize)
    }
}

/// Calls `dot_vox::load_bytes`, which parses a MagicaVoxel file from bytes, and
/// keeps its palette and, of each model, the size and the voxels. Trusted: the
/// result is the parse named `vox_parse` of the bytes; nothing is stated of it.
/// The parser indexes the bytes without testing their length first, so it is
/// only called on bytes whose chunk framing `vox_readable` has checked.
#[verifier::external_body]
fn parse_vox(bytes: &[u8]) -> (r: Option<VoxFile>)
    requires
        vox_readable(bytes@),
    ensures
        r == vox_parse(bytes@),
{
    match dot_vox::load_bytes(bytes) {
        Ok(data) => Some(VoxFile {
            palette: data.palette,
            models: data.models.into_iter().map(|m| VoxModel {
                size: [m.size.x, m.size.y, m.size.z],
                voxels: m.voxels.into_iter().map(|v| VoxVoxel { x: v.x, y: v.y, z: v.z, i: v.i }).collect(),
            }).collect(),
        }),
        Err(_) => None,
    }
}

/// The red, green and blue bytes of a palette word (its three low bytes, lowest first).
pub open spec fn palette_color(p: u32) -> [u8; 3] {
    [(p % 256) as u8, ((p / 256) % 256) as u8, ((p / 65536) % 256) as u8]
}

/// Where a voxel lands in the structure: y and z are swapped.
pub open spec fn voxel_pos(v: VoxVoxel) -> [usize; 3] {
    [v.x as usize, v.z as usize, v.y as usize]
}

/// The size of the structure made from a model: y and z are swapped.
pub open spec fn model_size(m: VoxModel) -> [usize; 3] {
    [m.size[0] as usize, m.size[2] as usize, m.size[1] as usize]
}

/// Whether every voxel indexes a colour of the palette.
pub open spec fn palette_covers(palette: Seq<u32>, vs: Seq<VoxVoxel>) -> bool {
    forall|j: int| 0 <= j < vs.len() ==> (#[trigger] vs[j]).i < palette.len()
}

/// The block painted at `c` by the last voxel of `vs` that lands there, if any.
pub open spec fn last_voxel_block(palette: Seq<u32>, vs: Seq<VoxVoxel>, c: [usize; 3]) -> Option<Block>
    decreases vs.len(),
{
    if vs.len() == 0 {
        None
    } else if voxel_pos(vs.last()) == c {
        Some(spec_from_color(palette_color(palette[vs.last().i as int])))
    } else {
        last_voxel_block(palette, vs.drop_last(), c)
    }
}

/// Whether `s` is the structure made from `model` with `palette`: of the model's
/// size (y and z swapped), each block painted by the last voxel that lands on
/// it, `Empty` where none does.
pub open spec fn is_model_structure(palette: Seq<u32>, model: VoxModel, s: Structure) -> bool {
    &&& s.wf()
    &&& s.size == model_size(model)
    &&& forall|c: [usize; 3]| in_box(s.size, c) ==> #[trigger] s.spec_get(c) == Some(
        match last_voxel_block(palette, model.voxels@, c) {
            Some(b) => b,
            None => Block::Empty,
        })
}

/// The colour bytes of a palette word.
fn color_of(p: u32) -> (r: [u8; 3])
    ensures
        r == palette_color(p),
{
    let r = [(p % 256) as u8, ((p / 256) % 256) as u8, ((p / 65536) % 256) as u8];
    assert(r =~= palette_color(p));
    r
}

/// The structure made from `model` with `palette`; `None` where a voxel indexes
/// no colour of the palette.
pub fn structure_from_model(palette: &Vec<u32>, model: &VoxModel) -> (r: Option<Structure>)
    ensures
        r is Some <==> palette_covers(palette@, model.voxels@),
        r matches Some(s) ==> is_model_structure(palette@, *model, s),
{
    let n = model.voxels.len();
    let mut j: usize = 0;
    while j < n
        invariant
            n == model.voxels@.len(),
            j <= n,
            forall|k: int| 0 <= k < j ==> (#[trigger] model.voxels@[k]).i < palette@.len(),
        decreases n - j,
    {
        if model.voxels[j].i as usize >= palette.len() {
            return None;
        }
        j = j + 1;
    }
    let size = [model.size[0] as usize, model.size[2] as usize, model.size[1] as usize];
    let mut s = Structure::new(size);
    assert(size == model_size(*model));
    let mut j: usize = 0;
    while j < n
        invariant
            n == model.voxels@.len(),
            j <= n,
            palette_covers(palette@, model.voxels@),
            s.wf(),
            s.size == model_size(*model),
            forall|c: [usize; 3]| in_box(s.size, c) ==> #[trigger] s.spec_get(c) == Some(
                match last_voxel_block(palette@, model.voxels@.take(j as int), c) {
                    Some(b) => b,
                    None => Block::Empty,
                }),
        decreases n - j,
    {
        let v = model.voxels[j];
        let ghost pre = model.voxels@.take(j as int);
        let ghost post = model.voxels@.take(j + 1);
        assert(post.drop_last() =~= pre);
        assert(post.last() == v);
        let color = color_of(palette[v.i as usize]);
        let block = Block::from_color(color);
        let pos = [v.x as usize, v.z as usize, v.y as usize];
        assert(pos == voxel_pos(v));
        s.place(pos, block);
        j = j + 1;
    }
    assert(model.voxels@.take(n as int) =~= model.voxels@);
    Some(s)
}

/// The `.vox` file in `bytes`, as `dot_vox` reads it; `None` where the chunk
/// framing of the bytes is not readable (see `vox_framing_ok`) or the bytes are
/// not a valid file.
pub fn load_vox(bytes: &[u8]) -> (r: Option<VoxFile>)
    ensures
        r == (if vox_readable(bytes@) { vox_parse(bytes@) } else { None }),
{
    if vox_framing_ok(bytes) {
        parse_vox(bytes)
    } else {
        None
    }
}

/// The structure made from the first model of the `.vox` file in `bytes`;
/// `None` where the chunk framing of the bytes is not readable, the bytes are
/// not a valid file, the file holds no model, or a voxel of that model indexes
/// no colour of the palette.
pub fn load_structure(bytes: &[u8]) -> (r: Option<Structure>)
    ensures
        r is Some <==> (vox_readable(bytes@) && (vox_parse(bytes@) matches Some(f) && f.models@.len() > 0
            && palette_covers(f.palette@, f.models@[0].voxels@))),
        r matches Some(s) ==> is_model_structure(vox_parse(bytes@)->0.palette@, vox_parse(bytes@)->0.models@[0], s),
{
    match load_vox(bytes) {
        Some(file) => {
            if file.models.len() == 0 {
                None
            } else {
                structure_from_model(&file.palette, &file.models[0])
            }
        }
        None => None,
    }
}

} // verus!
