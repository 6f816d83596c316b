//! MagicaVoxel `.vox` files: the chunk stream with its models, palette and scene graph.
use crate::bytes::{in_bounds, le_u32, read_u32_le, trimmed_u8, parse_trimmed_u8};
use std::collections::HashMap;
use vstd::prelude::*;

verus! {

broadcast use vstd::std_specs::hash::group_hash_axioms;

/// What makes a `.vox` file unreadable; each names the part that could not be read.
#[derive(Debug, Clone, Copy, PartialEq, Eq)]
pub enum VoxError {
    /// A little-endian word ran past the end of the data.
    Truncated,
    /// The magic number or the version is not that of a `.vox` file.
    Header,
    /// A dictionary string ran past the end of the data.
    StringBytes,
    /// A chunk id ran past the end of the data.
    ChunkId,
    /// Voxels came before any model size.
    XyziBeforeSize,
    /// The voxel list ran past the end of the data.
    Voxels,
}

/// One model: its size and its voxels as `(x, y, z, color index)`.
pub struct VoxChunk {
    pub size: (usize, usize, usize),
    pub voxels: Vec<(u8, u8, u8, u8)>,
}

/// A node of the scene graph.
pub enum VoxNode {
    /// A transform over one child; `translation` holds the raw `_t` text and `rotation`
    /// the `_r` value of the first frame.
    Transform { child: u32, translation: Option<Vec<u8>>, rotation: Option<u8> },
    /// A group of child nodes.
    Group(Vec<u32>),
    /// A shape over model ids.
    Shape(Vec<u32>),
}

/// The mathematical value of a model.
pub struct ChunkModel {
    pub size: (usize, usize, usize),
    pub voxels: Seq<(u8, u8, u8, u8)>,
}

/// The mathematical value of a scene-graph node.
pub enum NodeModel {
    Transform { child: u32, translation: Option<Seq<u8>>, rotation: Option<u8> },
    Group(Seq<u32>),
    Shape(Seq<u32>),
}

impl View for VoxChunk {
    type V = ChunkModel;

    open spec fn view(&self) -> ChunkModel {
        ChunkModel { size: self.size, voxels: self.voxels@ }
    }
}

/// The view of an optional byte string.
pub open spec fn bytes_view(o: Option<Vec<u8>>) -> Option<Seq<u8>> {
    match o {
        Some(v) => Some(v@),
        None => None,
    }
}

impl View for VoxNode {
    type V = NodeModel;

    open spec fn view(&self) -> NodeModel {
        match self {
            VoxNode::Transform { child, translation, rotation } => NodeModel::Transform {
                child: *child,
                translation: bytes_view(*translation),
                rotation: *rotation,
            },
            VoxNode::Group(c) => NodeModel::Group(c@),
            VoxNode::Shape(m) => NodeModel::Shape(m@),
        }
    }
}

/// The parsed file: models in file order, the palette and the scene graph by node id.
pub struct Vox {
    pub chunks: Vec<VoxChunk>,
    pub palette: Vec<u32>,
    pub nodes: HashMap<u32, VoxNode>,
}

/// The mathematical value of a parsed file.
pub struct VoxModel {
    pub chunks: Seq<ChunkModel>,
    pub palette: Seq<u32>,
    pub nodes: Map<u32, NodeModel>,
}

/// The models of a file, taken by value.
pub open spec fn chunks_view(c: Seq<VoxChunk>) -> Seq<ChunkModel> {
    c.map_values(|k: VoxChunk| k@)
}

/// The scene graph of a file, taken by value.
pub open spec fn nodes_view(m: Map<u32, VoxNode>) -> Map<u32, NodeModel> {
    m.map_values(|n: VoxNode| n@)
}

impl View for Vox {
    type V = VoxModel;

    open spec fn view(&self) -> VoxModel {
        VoxModel {
            chunks: chunks_view(self.chunks@),
            palette: self.palette@,
            nodes: nodes_view(self.nodes@),
        }
    }
}

/// The magic number `VOX ` as a little-endian word.
pub const VOX_MAGIC: u32 = 542658390;

// ------------------------------------------------------------------ the format

/// A word at `i`, or `Truncated`.
pub open spec fn word_at(d: Seq<u8>, i: int) -> Result<u32, VoxError> {
    if in_bounds(d, i, 4) {
        Ok(le_u32(d, i))
    } else {
        Err(VoxError::Truncated)
    }
}

/// A string at `i`: a word `n` and `n` bytes; the bytes and the size consumed.
pub open spec fn string_at(d: Seq<u8>, i: int) -> Result<(Seq<u8>, int), VoxError> {
    match word_at(d, i) {
        Err(e) => Err(e),
        Ok(n) => if in_bounds(d, i + 4, n as int) {
            Ok((d.subrange(i + 4, i + 4 + n), 4 + n))
        } else {
            Err(VoxError::StringBytes)
        },
    }
}

/// The first `count` key-value pairs of a dictionary whose pairs start at `o`, and where
/// they end.
pub open spec fn dict_pairs(d: Seq<u8>, o: int, count: nat) -> Result<
    (Seq<(Seq<u8>, Seq<u8>)>, int),
    VoxError,
>
    decreases count,
{
    if count == 0 {
        Ok((seq![], o))
    } else {
        match dict_pairs(d, o, (count - 1) as nat) {
            Err(e) => Err(e),
            Ok((pairs, p)) => match string_at(d, p) {
                Err(e) => Err(e),
                Ok((k, a)) => match string_at(d, p + a) {
                    Err(e) => Err(e),
                    Ok((v, b)) => Ok((pairs.push((k, v)), p + a + b)),
                },
            },
        }
    }
}

/// A dictionary at `i`: a word `count` and `count` string pairs; the pairs and the size
/// consumed.
#[verifier::opaque]
pub open spec fn dict_at(d: Seq<u8>, i: int) -> Result<(Seq<(Seq<u8>, Seq<u8>)>, int), VoxError> {
    match word_at(d, i) {
        Err(e) => Err(e),
        Ok(count) => match dict_pairs(d, i + 4, count as nat) {
            Err(e) => Err(e),
            Ok((pairs, end)) => Ok((pairs, end - i)),
        },
    }
}

/// The value a dictionary holds for `key`: the last pair with that key wins.
pub open spec fn dict_get(pairs: Seq<(Seq<u8>, Seq<u8>)>, key: Seq<u8>) -> Option<Seq<u8>>
    decreases pairs.len(),
{
    if pairs.len() == 0 {
        None
    } else if pairs.last().0 == key {
        Some(pairs.last().1)
    } else {
        dict_get(pairs.drop_last(), key)
    }
}

/// The key `_r`.
pub open spec fn key_r() -> Seq<u8> {
    seq![0x5fu8, 0x72u8]
}

/// The key `_t`.
pub open spec fn key_t() -> Seq<u8> {
    seq![0x5fu8, 0x74u8]
}

/// Where `count` frame dictionaries that start at `o` end.
pub open spec fn frames_end(d: Seq<u8>, o: int, count: nat) -> Result<int, VoxError>
    decreases count,
{
    if count == 0 {
        Ok(o)
    } else {
        match frames_end(d, o, (count - 1) as nat) {
            Err(e) => Err(e),
            Ok(p) => match dict_at(d, p) {
                Err(e) => Err(e),
                Ok((_, s)) => Ok(p + s),
            },
        }
    }
}

/// `count` shape models that start at `o`, each a model id and an attribute dictionary;
/// the ids and where they end.
pub open spec fn shape_models(d: Seq<u8>, o: int, count: nat) -> Result<(Seq<u32>, int), VoxError>
    decreases count,
{
    if count == 0 {
        Ok((seq![], o))
    } else {
        match shape_models(d, o, (count - 1) as nat) {
            Err(e) => Err(e),
            Ok((ids, p)) => match word_at(d, p) {
                Err(e) => Err(e),
                Ok(id) => match dict_at(d, p + 4) {
                    Err(e) => Err(e),
                    Ok((_, s)) => Ok((ids.push(id), p + 4 + s)),
                },
            },
        }
    }
}

/// `n` words that start at `o`.
pub open spec fn words(d: Seq<u8>, o: int, n: nat) -> Seq<u32> {
    Seq::new(n, |k: int| le_u32(d, o + 4 * k))
}

/// `n` voxels of four bytes that start at `o`.
pub open spec fn voxel_seq(d: Seq<u8>, o: int, n: nat) -> Seq<(u8, u8, u8, u8)> {
    Seq::new(n, |k: int| (d[o + 4 * k], d[o + 4 * k + 1], d[o + 4 * k + 2], d[o + 4 * k + 3]))
}

/// The four bytes at `i` are `tag`.
pub open spec fn has_tag(d: Seq<u8>, i: int, tag: Seq<u8>) -> bool {
    in_bounds(d, i, 4) && d.subrange(i, i + 4) == tag
}

pub open spec fn tag_size() -> Seq<u8> {
    seq![0x53u8, 0x49u8, 0x5au8, 0x45u8]
}

pub open spec fn tag_xyzi() -> Seq<u8> {
    seq![0x58u8, 0x59u8, 0x5au8, 0x49u8]
}

pub open spec fn tag_rgba() -> Seq<u8> {
    seq![0x52u8, 0x47u8, 0x42u8, 0x41u8]
}

pub open spec fn tag_ntrn() -> Seq<u8> {
    seq![0x6eu8, 0x54u8, 0x52u8, 0x4eu8]
}

pub open spec fn tag_ngrp() -> Seq<u8> {
    seq![0x6eu8, 0x47u8, 0x52u8, 0x50u8]
}

pub open spec fn tag_nshp() -> Seq<u8> {
    seq![0x6eu8, 0x53u8, 0x48u8, 0x50u8]
}

/// The transform node whose content starts at `i`, and where it ends.
pub open spec fn transform_chunk(d: Seq<u8>, i: int) -> Result<(u32, NodeModel, int), VoxError> {
    match word_at(d, i) {
        Err(e) => Err(e),
        Ok(node) => match dict_at(d, i + 4) {
            Err(e) => Err(e),
            Ok((_, a)) => match word_at(d, i + 4 + a) {
                Err(e) => Err(e),
                Ok(child) => match word_at(d, i + 4 + a + 12) {
                    Err(e) => Err(e),
                    Ok(frames) => {
                        let o = i + 4 + a + 16;
                        match frames_end(d, o, frames as nat) {
                            Err(e) => Err(e),
                            Ok(end) => {
                                let first = if frames > 0 {
                                    dict_at(d, o)->Ok_0.0
                                } else {
                                    seq![]
                                };
                                let rotation = match dict_get(first, key_r()) {
                                    Some(r) => trimmed_u8(r),
                                    None => None,
                                };
                                Ok(
                                    (
                                        node,
                                        NodeModel::Transform {
                                            child,
                                            translation: dict_get(first, key_t()),
                                            rotation,
                                        },
                                        end,
                                    ),
                                )
                            },
                        }
                    },
                },
            },
        },
    }
}

/// The group node whose content starts at `i`, and where it ends.
pub open spec fn group_chunk(d: Seq<u8>, i: int) -> Result<(u32, NodeModel, int), VoxError> {
    match word_at(d, i) {
        Err(e) => Err(e),
        Ok(node) => match dict_at(d, i + 4) {
            Err(e) => Err(e),
            Ok((_, a)) => match word_at(d, i + 4 + a) {
                Err(e) => Err(e),
                Ok(n) => {
                    let o = i + 4 + a + 4;
                    if in_bounds(d, o, 4 * n) {
                        Ok((node, NodeModel::Group(words(d, o, n as nat)), o + 4 * n))
                    } else {
                        Err(VoxError::Truncated)
                    }
                },
            },
        },
    }
}

/// The shape node whose content starts at `i`, and where it ends.
pub open spec fn shape_chunk(d: Seq<u8>, i: int) -> Result<(u32, NodeModel, int), VoxError> {
    match word_at(d, i) {
        Err(e) => Err(e),
        Ok(node) => match dict_at(d, i + 4) {
            Err(e) => Err(e),
            Ok((_, a)) => match word_at(d, i + 4 + a) {
                Err(e) => Err(e),
                Ok(n) => match shape_models(d, i + 4 + a + 4, n as nat) {
                    Err(e) => Err(e),
                    Ok((ids, end)) => Ok((node, NodeModel::Shape(ids), end)),
                },
            },
        },
    }
}

/// One chunk at `i` applied to the file read so far: where the next chunk starts and
/// what has been read.
#[verifier::opaque]
pub open spec fn chunk_step(d: Seq<u8>, i: int, st: VoxModel) -> Result<(int, VoxModel), VoxError> {
    if !in_bounds(d, i, 4) {
        Err(VoxError::ChunkId)
    } else {
        match word_at(d, i + 4) {
            Err(e) => Err(e),
            Ok(size) => {
                let b = i + 12;
                if has_tag(d, i, tag_size()) {
                    if in_bounds(d, b, 12) {
                        let c = ChunkModel {
                            size: (
                                le_u32(d, b) as usize,
                                le_u32(d, b + 4) as usize,
                                le_u32(d, b + 8) as usize,
                            ),
                            voxels: seq![],
                        };
                        Ok((b + size, VoxModel { chunks: st.chunks.push(c), ..st }))
                    } else {
                        Err(VoxError::Truncated)
                    }
                } else if has_tag(d, i, tag_xyzi()) {
                    match word_at(d, b) {
                        Err(e) => Err(e),
                        Ok(n) => if st.chunks.len() == 0 {
                            Err(VoxError::XyziBeforeSize)
                        } else if !in_bounds(d, b + 4, 4 * n) {
                            Err(VoxError::Voxels)
                        } else {
                            let last = st.chunks.last();
                            let c = ChunkModel { size: last.size, voxels: voxel_seq(d, b + 4, n as nat) };
                            Ok(
                                (
                                    b + 4 + 4 * n,
                                    VoxModel {
                                        chunks: st.chunks.update(st.chunks.len() - 1, c),
                                        ..st
                                    },
                                ),
                            )
                        },
                    }
                } else if has_tag(d, i, tag_rgba()) {
                    if in_bounds(d, b, 1024) {
                        Ok(
                            (
                                b + 1024,
                                VoxModel { palette: seq![0u32] + words(d, b, 256), ..st },
                            ),
                        )
                    } else {
                        Err(VoxError::Truncated)
                    }
                } else if has_tag(d, i, tag_ntrn()) || has_tag(d, i, tag_ngrp()) || has_tag(
                    d,
                    i,
                    tag_nshp(),
                ) {
                    let r = if has_tag(d, i, tag_ntrn()) {
                        transform_chunk(d, b)
                    } else if has_tag(d, i, tag_ngrp()) {
                        group_chunk(d, b)
                    } else {
                        shape_chunk(d, b)
                    };
                    match r {
                        Err(e) => Err(e),
                        Ok((id, node, end)) => Ok(
                            (end, VoxModel { nodes: st.nodes.insert(id, node), ..st }),
                        ),
                    }
                } else {
                    Ok((b + size, st))
                }
            },
        }
    }
}

/// The palette a file uses until an `RGBA` chunk replaces it.
pub open spec fn default_palette() -> Seq<u32> {
    seq![
        0x00000000u32, 0xffffffffu32, 0xffccffffu32, 0xff99ffffu32, 0xff66ffffu32, 0xff33ffffu32, 0xff00ffffu32, 0xffffccffu32,
        0xffccccffu32, 0xff99ccffu32, 0xff66ccffu32, 0xff33ccffu32, 0xff00ccffu32, 0xffff99ffu32, 0xffcc99ffu32, 0xff9999ffu32,
        0xff6699ffu32, 0xff3399ffu32, 0xff0099ffu32, 0xffff66ffu32, 0xffcc66ffu32, 0xff9966ffu32, 0xff6666ffu32, 0xff3366ffu32,
        0xff0066ffu32, 0xffff33ffu32, 0xffcc33ffu32, 0xff9933ffu32, 0xff6633ffu32, 0xff3333ffu32, 0xff0033ffu32, 0xffff00ffu32,
        0xffcc00ffu32, 0xff9900ffu32, 0xff6600ffu32, 0xff3300ffu32, 0xff0000ffu32, 0xffffffccu32, 0xffccffccu32, 0xff99ffccu32,
        0xff66ffccu32, 0xff33ffccu32, 0xff00ffccu32, 0xffffccccu32, 0xffccccccu32, 0xff99ccccu32, 0xff66ccccu32, 0xff33ccccu32,
        0xff00ccccu32, 0xffff99ccu32, 0xffcc99ccu32, 0xff9999ccu32, 0xff6699ccu32, 0xff3399ccu32, 0xff0099ccu32, 0xffff66ccu32,
        0xffcc66ccu32, 0xff9966ccu32, 0xff6666ccu32, 0xff3366ccu32, 0xff0066ccu32, 0xffff33ccu32, 0xffcc33ccu32, 0xff9933ccu32,
        0xff6633ccu32, 0xff3333ccu32, 0xff0033ccu32, 0xffff00ccu32, 0xffcc00ccu32, 0xff9900ccu32, 0xff6600ccu32, 0xff3300ccu32,
        0xff0000ccu32, 0xffffff99u32, 0xffccff99u32, 0xff99ff99u32, 0xff66ff99u32, 0xff33ff99u32, 0xff00ff99u32, 0xffffcc99u32,
        0xffcccc99u32, 0xff99cc99u32, 0xff66cc99u32, 0xff33cc99u32, 0xff00cc99u32, 0xffff9999u32, 0xffcc9999u32, 0xff999999u32,
        0xff669999u32, 0xff339999u32, 0xff009999u32, 0xffff6699u32, 0xffcc6699u32, 0xff996699u32, 0xff666699u32, 0xff336699u32,
        0xff006699u32, 0xffff3399u32, 0xffcc3399u32, 0xff993399u32, 0xff663399u32, 0xff333399u32, 0xff003399u32, 0xffff0099u32,
        0xffcc0099u32, 0xff990099u32, 0xff660099u32, 0xff330099u32, 0xff000099u32, 0xffffff66u32, 0xffccff66u32, 0xff99ff66u32,
        0xff66ff66u32, 0xff33ff66u32, 0xff00ff66u32, 0xffffcc66u32, 0xffcccc66u32, 0xff99cc66u32, 0xff66cc66u32, 0xff33cc66u32,
        0xff00cc66u32, 0xffff9966u32, 0xffcc9966u32, 0xff999966u32, 0xff669966u32, 0xff339966u32, 0xff009966u32, 0xffff6666u32,
        0xffcc6666u32, 0xff996666u32, 0xff666666u32, 0xff336666u32, 0xff006666u32, 0xffff3366u32, 0xffcc3366u32, 0xff993366u32,
        0xff663366u32, 0xff333366u32, 0xff003366u32, 0xffff0066u32, 0xffcc0066u32, 0xff990066u32, 0xff660066u32, 0xff330066u32,
        0xff000066u32, 0xffffff33u32, 0xffccff33u32, 0xff99ff33u32, 0xff66ff33u32, 0xff33ff33u32, 0xff00ff33u32, 0xffffcc33u32,
        0xffcccc33u32, 0xff99cc33u32, 0xff66cc33u32, 0xff33cc33u32, 0xff00cc33u32, 0xffff9933u32, 0xffcc9933u32, 0xff999933u32,
        0xff669933u32, 0xff339933u32, 0xff009933u32, 0xffff6633u32, 0xffcc6633u32, 0xff996633u32, 0xff666633u32, 0xff336633u32,
        0xff006633u32, 0xffff3333u32, 0xffcc3333u32, 0xff993333u32, 0xff663333u32, 0xff333333u32, 0xff003333u32, 0xffff0033u32,
        0xffcc0033u32, 0xff990033u32, 0xff660033u32, 0xff330033u32, 0xff000033u32, 0xffffff00u32, 0xffccff00u32, 0xff99ff00u32,
        0xff66ff00u32, 0xff33ff00u32, 0xff00ff00u32, 0xffffcc00u32, 0xffcccc00u32, 0xff99cc00u32, 0xff66cc00u32, 0xff33cc00u32,
        0xff00cc00u32, 0xffff9900u32, 0xffcc9900u32, 0xff999900u32, 0xff669900u32, 0xff339900u32, 0xff009900u32, 0xffff6600u32,
        0xffcc6600u32, 0xff996600u32, 0xff666600u32, 0xff336600u32, 0xff006600u32, 0xffff3300u32, 0xffcc3300u32, 0xff993300u32,
        0xff663300u32, 0xff333300u32, 0xff003300u32, 0xffff0000u32, 0xffcc0000u32, 0xff990000u32, 0xff660000u32, 0xff330000u32,
        0xff0000eeu32, 0xff0000ddu32, 0xff0000bbu32, 0xff0000aau32, 0xff000088u32, 0xff000077u32, 0xff000055u32, 0xff000044u32,
        0xff000022u32, 0xff000011u32, 0xff00ee00u32, 0xff00dd00u32, 0xff00bb00u32, 0xff00aa00u32, 0xff008800u32, 0xff007700u32,
        0xff005500u32, 0xff004400u32, 0xff002200u32, 0xff001100u32, 0xffee0000u32, 0xffdd0000u32, 0xffbb0000u32, 0xffaa0000u32,
        0xff880000u32, 0xff770000u32, 0xff550000u32, 0xff440000u32, 0xff220000u32, 0xff110000u32, 0xffeeeeeeu32, 0xffddddddu32,
        0xffbbbbbbu32, 0xffaaaaaau32, 0xff888888u32, 0xff777777u32, 0xff555555u32, 0xff444444u32, 0xff222222u32, 0xff111111u32,
    ]
}

/// The state before the first chunk.
pub open spec fn initial_model() -> VoxModel {
    VoxModel { chunks: seq![], palette: default_palette(), nodes: Map::empty() }
}


// ------------------------------------------------------------------ lemmas

pub proof fn lemma_dict_pairs_grow(d: Seq<u8>, o: int, count: nat)
    ensures
        dict_pairs(d, o, count) matches Ok((pairs, end)) ==> end >= o && pairs.len() == count,
    decreases count,
{
    if count > 0 {
        lemma_dict_pairs_grow(d, o, (count - 1) as nat);
    }
}

pub proof fn lemma_dict_at_grows(d: Seq<u8>, i: int)
    ensures
        dict_at(d, i) matches Ok((_, s)) ==> s >= 4,
{
    reveal(dict_at);
    if let Ok(count) = word_at(d, i) {
        lemma_dict_pairs_grow(d, i + 4, count as nat);
    }
}

pub proof fn lemma_frames_grow(d: Seq<u8>, o: int, count: nat)
    ensures
        frames_end(d, o, count) matches Ok(end) ==> end >= o,
    decreases count,
{
    if count > 0 {
        lemma_frames_grow(d, o, (count - 1) as nat);
        if let Ok(p) = frames_end(d, o, (count - 1) as nat) {
            lemma_dict_at_grows(d, p);
        }
    }
}

pub proof fn lemma_shape_models_grow(d: Seq<u8>, o: int, count: nat)
    ensures
        shape_models(d, o, count) matches Ok((ids, end)) ==> end >= o && ids.len() == count,
    decreases count,
{
    if count > 0 {
        lemma_shape_models_grow(d, o, (count - 1) as nat);
        if let Ok((_, p)) = shape_models(d, o, (count - 1) as nat) {
            lemma_dict_at_grows(d, p + 4);
        }
    }
}

/// Every chunk moves the reading position forward.
pub proof fn lemma_step_advances(d: Seq<u8>, i: int, st: VoxModel)
    ensures
        chunk_step(d, i, st) matches Ok((j, _)) ==> j > i,
{
    reveal(chunk_step);
    lemma_dict_at_grows(d, i + 16);
    if let Ok((_, a)) = dict_at(d, i + 16) {
        lemma_frames_grow(d, i + 16 + a + 16, le_u32(d, i + 16 + a + 12) as nat);
        lemma_shape_models_grow(d, i + 16 + a + 4, le_u32(d, i + 16 + a) as nat);
    }
}

/// The chunks from `i` on applied to the file read so far.
pub open spec fn parse_from(d: Seq<u8>, i: int, st: VoxModel) -> Result<VoxModel, VoxError>
    decreases (if i < d.len() {
        d.len() - i
    } else {
        0
    }),
{
    if i >= d.len() {
        Ok(st)
    } else {
        match chunk_step(d, i, st) {
            Err(e) => Err(e),
            Ok((j, next)) => {
                proof {
                    lemma_step_advances(d, i, st);
                }
                parse_from(d, j, next)
            },
        }
    }
}

/// A whole `.vox` file: the magic word, a version of 150 or 200, then chunks to the end.
pub open spec fn vox_file(d: Seq<u8>) -> Result<VoxModel, VoxError> {
    match word_at(d, 0) {
        Err(e) => Err(e),
        Ok(magic) => if magic != VOX_MAGIC {
            Err(VoxError::Header)
        } else {
            match word_at(d, 4) {
                Err(e) => Err(e),
                Ok(version) => if version != 150 && version != 200 {
                    Err(VoxError::Header)
                } else {
                    parse_from(d, 8, initial_model())
                },
            }
        },
    }
}


/// Once a dictionary fails to read, it stays unreadable with the same error.
pub proof fn lemma_dict_pairs_err(d: Seq<u8>, o: int, m: nat, n: nat)
    requires
        dict_pairs(d, o, m) is Err,
        m <= n,
    ensures
        dict_pairs(d, o, n) == dict_pairs(d, o, m),
    decreases n - m,
{
    if m < n {
        lemma_dict_pairs_err(d, o, m, (n - 1) as nat);
    }
}

pub proof fn lemma_frames_err(d: Seq<u8>, o: int, m: nat, n: nat)
    requires
        frames_end(d, o, m) is Err,
        m <= n,
    ensures
        frames_end(d, o, n) == frames_end(d, o, m),
    decreases n - m,
{
    if m < n {
        lemma_frames_err(d, o, m, (n - 1) as nat);
    }
}

pub proof fn lemma_shape_models_err(d: Seq<u8>, o: int, m: nat, n: nat)
    requires
        shape_models(d, o, m) is Err,
        m <= n,
    ensures
        shape_models(d, o, n) == shape_models(d, o, m),
    decreases n - m,
{
    if m < n {
        lemma_shape_models_err(d, o, m, (n - 1) as nat);
    }
}

// ------------------------------------------------------------------ reading

/// The word at `base + off`.
fn word(d: &[u8], base: usize, off: usize) -> (r: Result<u32, VoxError>)
    ensures
        r == word_at(d@, base + off),
{
    assert(d@.len() == d.len());
    match base.checked_add(off) {
        None => Err(VoxError::Truncated),
        Some(p) => match read_u32_le(d, p) {
            Some(w) => Ok(w),
            None => Err(VoxError::Truncated),
        },
    }
}

/// A copy of `d[start..start + n]`.
fn copy_bytes(d: &[u8], start: usize, n: usize) -> (v: Vec<u8>)
    requires
        in_bounds(d@, start as int, n as int),
    ensures
        v@ == d@.subrange(start as int, start + n),
{
    assert(d@.len() == d.len());
    let mut v: Vec<u8> = Vec::new();
    let mut k: usize = 0;
    while k < n
        invariant
            in_bounds(d@, start as int, n as int),
            d@.len() == d.len(),
            k <= n,
            v@ == d@.subrange(start as int, start + k),
        decreases n - k,
    {
        v.push(d[start + k]);
        k = k + 1;
        assert(v@ =~= d@.subrange(start as int, start + k));
    }
    v
}

/// The string at `i`, as the start and length of its bytes.
fn read_string(d: &[u8], i: usize) -> (r: Result<(usize, usize), VoxError>)
    ensures
        match r {
            Ok((s, n)) => s == i + 4 && s + n <= d@.len() && string_at(d@, i as int) == Ok::<
                _,
                VoxError,
            >((d@.subrange(s as int, s + n), 4 + n)),
            Err(e) => string_at(d@, i as int) == Err::<(Seq<u8>, int), _>(e),
        },
{
    assert(d@.len() == d.len());
    let n = word(d, i, 0)?;
    let s = i + 4;
    let n = n as usize;
    if n > d.len() - s {
        return Err(VoxError::StringBytes);
    }
    Ok((s, n))
}

/// The bytes `d[s..s + n]` are the two-byte key `k0 k1`.
fn is_key(d: &[u8], s: usize, n: usize, k0: u8, k1: u8) -> (b: bool)
    requires
        in_bounds(d@, s as int, n as int),
    ensures
        b == (d@.subrange(s as int, s + n) == seq![k0, k1]),
{
    assert(d@.len() == d.len());
    if n == 2 && d[s] == k0 && d[s + 1] == k1 {
        assert(d@.subrange(s as int, s + n) =~= seq![k0, k1]);
        true
    } else {
        if n == 2 {
            assert(d@.subrange(s as int, s + n)[0] == d@[s as int]);
            assert(d@.subrange(s as int, s + n)[1] == d@[s + 1]);
            assert(seq![k0, k1][0] == k0);
            assert(seq![k0, k1][1] == k1);
        } else {
            assert(seq![k0, k1].len() == 2);
        }
        false
    }
}

proof fn lemma_dict_get_push(pairs: Seq<(Seq<u8>, Seq<u8>)>, k: Seq<u8>, v: Seq<u8>, key: Seq<u8>)
    ensures
        dict_get(pairs.push((k, v)), key) == (if k == key {
            Some(v)
        } else {
            dict_get(pairs, key)
        }),
{
    assert(pairs.push((k, v)).drop_last() =~= pairs);
}

/// The dictionary at `i`: its `_r` and `_t` values and the size it takes.
fn read_dict(d: &[u8], i: usize) -> (r: Result<(Option<Vec<u8>>, Option<Vec<u8>>, usize), VoxError>)
    requires
        i <= d@.len(),
    ensures
        match r {
            Ok((rv, tv, s)) => {
                &&& dict_at(d@, i as int) is Ok
                &&& dict_at(d@, i as int)->Ok_0.1 == s
                &&& bytes_view(rv) == dict_get(dict_at(d@, i as int)->Ok_0.0, key_r())
                &&& bytes_view(tv) == dict_get(dict_at(d@, i as int)->Ok_0.0, key_t())
                &&& i + s <= d@.len()
            },
            Err(e) => dict_at(d@, i as int) == Err::<(Seq<(Seq<u8>, Seq<u8>)>, int), _>(e),
        },
{
    reveal(dict_at);
    assert(d@.len() == d.len());
    let count = word(d, i, 0)?;
    let start = i + 4;
    let mut o = start;
    let mut k: u32 = 0;
    let ghost mut pairs: Seq<(Seq<u8>, Seq<u8>)> = seq![];
    let mut rv: Option<Vec<u8>> = None;
    let mut tv: Option<Vec<u8>> = None;
    while k < count
        invariant
            start == i + 4,
            start <= o <= d@.len(),
            d@.len() == d.len(),
            k <= count,
            word_at(d@, i as int) == Ok::<u32, VoxError>(count),
            dict_pairs(d@, start as int, k as nat) == Ok::<_, VoxError>((pairs, o as int)),
            bytes_view(rv) == dict_get(pairs, key_r()),
            bytes_view(tv) == dict_get(pairs, key_t()),
        decreases count - k,
    {
        let (ks, kn) = match read_string(d, o) {
            Ok(x) => x,
            Err(e) => {
                proof {
                    reveal(dict_at);
                    lemma_dict_pairs_err(d@, start as int, (k + 1) as nat, count as nat);
                }
                return Err(e);
            },
        };
        let (vs, vn) = match read_string(d, ks + kn) {
            Ok(x) => x,
            Err(e) => {
                proof {
                    reveal(dict_at);
                    lemma_dict_pairs_err(d@, start as int, (k + 1) as nat, count as nat);
                }
                return Err(e);
            },
        };
        let ghost key = d@.subrange(ks as int, ks + kn);
        let ghost value = d@.subrange(vs as int, vs + vn);
        proof {
            lemma_dict_get_push(pairs, key, value, key_r());
            lemma_dict_get_push(pairs, key, value, key_t());
            pairs = pairs.push((key, value));
        }
        if is_key(d, ks, kn, 0x5f, 0x72) {
            rv = Some(copy_bytes(d, vs, vn));
        }
        if is_key(d, ks, kn, 0x5f, 0x74) {
            tv = Some(copy_bytes(d, vs, vn));
        }
        o = vs + vn;
        k = k + 1;
    }
    Ok((rv, tv, o - i))
}


/// The transform node whose content starts at `i`.
fn read_transform(d: &[u8], i: usize) -> (r: Result<(u32, VoxNode, usize), VoxError>)
    requires
        i <= d@.len(),
    ensures
        match r {
            Ok((id, node, end)) => transform_chunk(d@, i as int) == Ok::<_, VoxError>(
                (id, node@, end as int),
            ) && end <= d@.len(),
            Err(e) => transform_chunk(d@, i as int) == Err::<(u32, NodeModel, int), _>(e),
        },
{
    assert(d@.len() == d.len());
    let node = word(d, i, 0)?;
    let (_, _, a) = read_dict(d, i + 4)?;
    let o = i + 4 + a;
    let child = word(d, o, 0)?;
    let frames = word(d, o, 12)?;
    let start = o + 16;
    let mut p = start;
    let mut f: u32 = 0;
    let mut rv: Option<Vec<u8>> = None;
    let mut tv: Option<Vec<u8>> = None;
    while f < frames
        invariant
            start <= p <= d@.len(),
            d@.len() == d.len(),
            f <= frames,
            start == o + 16,
            o == i + 4 + a,
            word_at(d@, i as int) == Ok::<u32, VoxError>(node),
            dict_at(d@, i + 4) is Ok,
            dict_at(d@, i + 4)->Ok_0.1 == a,
            word_at(d@, o as int) == Ok::<u32, VoxError>(child),
            word_at(d@, o + 12) == Ok::<u32, VoxError>(frames),
            frames_end(d@, start as int, f as nat) == Ok::<int, VoxError>(p as int),
            f == 0 ==> rv is None && tv is None,
            f > 0 ==> dict_at(d@, start as int) is Ok,
            f > 0 ==> bytes_view(rv) == dict_get(dict_at(d@, start as int)->Ok_0.0, key_r()),
            f > 0 ==> bytes_view(tv) == dict_get(dict_at(d@, start as int)->Ok_0.0, key_t()),
        decreases frames - f,
    {
        let (r, t, s) = match read_dict(d, p) {
            Ok(x) => x,
            Err(e) => {
                proof {
                    assert(frames_end(d@, start as int, (f + 1) as nat) == Err::<int, VoxError>(e));
                    lemma_frames_err(d@, start as int, (f + 1) as nat, frames as nat);
                }
                return Err(e);
            },
        };
        if f == 0 {
            assert(frames_end(d@, start as int, 0) == Ok::<int, VoxError>(start as int));
            rv = r;
            tv = t;
        }
        p = p + s;
        f = f + 1;
    }
    let rotation = match &rv {
        Some(b) => parse_trimmed_u8(b.as_slice()),
        None => None,
    };
    proof {
        if frames == 0 {
            assert(dict_get(seq![], key_r()) == None::<Seq<u8>>);
            assert(dict_get(seq![], key_t()) == None::<Seq<u8>>);
        }
    }
    Ok((node, VoxNode::Transform { child, translation: tv, rotation }, p))
}

/// The group node whose content starts at `i`.
fn read_group(d: &[u8], i: usize) -> (r: Result<(u32, VoxNode, usize), VoxError>)
    requires
        i <= d@.len(),
    ensures
        match r {
            Ok((id, node, end)) => group_chunk(d@, i as int) == Ok::<_, VoxError>(
                (id, node@, end as int),
            ) && end <= d@.len(),
            Err(e) => group_chunk(d@, i as int) == Err::<(u32, NodeModel, int), _>(e),
        },
{
    assert(d@.len() == d.len());
    let node = word(d, i, 0)?;
    let (_, _, a) = read_dict(d, i + 4)?;
    let o = i + 4 + a;
    let n = word(d, o, 0)?;
    let start = o + 4;
    let n = n as usize;
    if n > (d.len() - start) / 4 {
        return Err(VoxError::Truncated);
    }
    let mut children: Vec<u32> = Vec::new();
    let mut k: usize = 0;
    while k < n
        invariant
            d@.len() == d.len(),
            start + 4 * n <= d@.len(),
            k <= n,
            children@ == words(d@, start as int, k as nat),
        decreases n - k,
    {
        let w = read_u32_le(d, start + 4 * k);
        children.push(w.unwrap());
        k = k + 1;
        assert(children@ =~= words(d@, start as int, k as nat));
    }
    Ok((node, VoxNode::Group(children), start + 4 * n))
}

/// The shape node whose content starts at `i`.
fn read_shape(d: &[u8], i: usize) -> (r: Result<(u32, VoxNode, usize), VoxError>)
    requires
        i <= d@.len(),
    ensures
        match r {
            Ok((id, node, end)) => shape_chunk(d@, i as int) == Ok::<_, VoxError>(
                (id, node@, end as int),
            ) && end <= d@.len(),
            Err(e) => shape_chunk(d@, i as int) == Err::<(u32, NodeModel, int), _>(e),
        },
{
    assert(d@.len() == d.len());
    let node = word(d, i, 0)?;
    let (_, _, a) = read_dict(d, i + 4)?;
    let o = i + 4 + a;
    let n = word(d, o, 0)?;
    let start = o + 4;
    let mut p = start;
    let mut models: Vec<u32> = Vec::new();
    let mut k: u32 = 0;
    while k < n
        invariant
            start <= p <= d@.len(),
            d@.len() == d.len(),
            k <= n,
            start == o + 4,
            o == i + 4 + a,
            word_at(d@, i as int) == Ok::<u32, VoxError>(node),
            dict_at(d@, i + 4) is Ok,
            dict_at(d@, i + 4)->Ok_0.1 == a,
            word_at(d@, o as int) == Ok::<u32, VoxError>(n),
            shape_models(d@, start as int, k as nat) == Ok::<_, VoxError>((models@, p as int)),
        decreases n - k,
    {
        let id = match word(d, p, 0) {
            Ok(w) => w,
            Err(e) => {
                proof {
                    assert(shape_models(d@, start as int, (k + 1) as nat) == Err::<(Seq<u32>, int), VoxError>(e));
                    lemma_shape_models_err(d@, start as int, (k + 1) as nat, n as nat);
                }
                return Err(e);
            },
        };
        let (_, _, s) = match read_dict(d, p + 4) {
            Ok(x) => x,
            Err(e) => {
                proof {
                    assert(shape_models(d@, start as int, (k + 1) as nat) == Err::<(Seq<u32>, int), VoxError>(e));
                    lemma_shape_models_err(d@, start as int, (k + 1) as nat, n as nat);
                }
                return Err(e);
            },
        };
        models.push(id);
        p = p + 4 + s;
        k = k + 1;
    }
    Ok((node, VoxNode::Shape(models), p))
}


/// The model a parse has built so far.
pub open spec fn model_of(chunks: Seq<VoxChunk>, palette: Seq<u32>, nodes: Map<u32, VoxNode>) -> VoxModel {
    VoxModel { chunks: chunks_view(chunks), palette, nodes: nodes_view(nodes) }
}

/// The palette of a file without an `RGBA` chunk.
fn default_palette_vec() -> (v: Vec<u32>)
    ensures
        v@ == default_palette(),
{
    let v: Vec<u32> = vec![
        0x00000000, 0xffffffff, 0xffccffff, 0xff99ffff, 0xff66ffff, 0xff33ffff, 0xff00ffff, 0xffffccff,
        0xffccccff, 0xff99ccff, 0xff66ccff, 0xff33ccff, 0xff00ccff, 0xffff99ff, 0xffcc99ff, 0xff9999ff,
        0xff6699ff, 0xff3399ff, 0xff0099ff, 0xffff66ff, 0xffcc66ff, 0xff9966ff, 0xff6666ff, 0xff3366ff,
        0xff0066ff, 0xffff33ff, 0xffcc33ff, 0xff9933ff, 0xff6633ff, 0xff3333ff, 0xff0033ff, 0xffff00ff,
        0xffcc00ff, 0xff9900ff, 0xff6600ff, 0xff3300ff, 0xff0000ff, 0xffffffcc, 0xffccffcc, 0xff99ffcc,
        0xff66ffcc, 0xff33ffcc, 0xff00ffcc, 0xffffcccc, 0xffcccccc, 0xff99cccc, 0xff66cccc, 0xff33cccc,
        0xff00cccc, 0xffff99cc, 0xffcc99cc, 0xff9999cc, 0xff6699cc, 0xff3399cc, 0xff0099cc, 0xffff66cc,
        0xffcc66cc, 0xff9966cc, 0xff6666cc, 0xff3366cc, 0xff0066cc, 0xffff33cc, 0xffcc33cc, 0xff9933cc,
        0xff6633cc, 0xff3333cc, 0xff0033cc, 0xffff00cc, 0xffcc00cc, 0xff9900cc, 0xff6600cc, 0xff3300cc,
        0xff0000cc, 0xffffff99, 0xffccff99, 0xff99ff99, 0xff66ff99, 0xff33ff99, 0xff00ff99, 0xffffcc99,
        0xffcccc99, 0xff99cc99, 0xff66cc99, 0xff33cc99, 0xff00cc99, 0xffff9999, 0xffcc9999, 0xff999999,
        0xff669999, 0xff339999, 0xff009999, 0xffff6699, 0xffcc6699, 0xff996699, 0xff666699, 0xff336699,
        0xff006699, 0xffff3399, 0xffcc3399, 0xff993399, 0xff663399, 0xff333399, 0xff003399, 0xffff0099,
        0xffcc0099, 0xff990099, 0xff660099, 0xff330099, 0xff000099, 0xffffff66, 0xffccff66, 0xff99ff66,
        0xff66ff66, 0xff33ff66, 0xff00ff66, 0xffffcc66, 0xffcccc66, 0xff99cc66, 0xff66cc66, 0xff33cc66,
        0xff00cc66, 0xffff9966, 0xffcc9966, 0xff999966, 0xff669966, 0xff339966, 0xff009966, 0xffff6666,
        0xffcc6666, 0xff996666, 0xff666666, 0xff336666, 0xff006666, 0xffff3366, 0xffcc3366, 0xff993366,
        0xff663366, 0xff333366, 0xff003366, 0xffff0066, 0xffcc0066, 0xff990066, 0xff660066, 0xff330066,
        0xff000066, 0xffffff33, 0xffccff33, 0xff99ff33, 0xff66ff33, 0xff33ff33, 0xff00ff33, 0xffffcc33,
        0xffcccc33, 0xff99cc33, 0xff66cc33, 0xff33cc33, 0xff00cc33, 0xffff9933, 0xffcc9933, 0xff999933,
        0xff669933, 0xff339933, 0xff009933, 0xffff6633, 0xffcc6633, 0xff996633, 0xff666633, 0xff336633,
        0xff006633, 0xffff3333, 0xffcc3333, 0xff993333, 0xff663333, 0xff333333, 0xff003333, 0xffff0033,
        0xffcc0033, 0xff990033, 0xff660033, 0xff330033, 0xff000033, 0xffffff00, 0xffccff00, 0xff99ff00,
        0xff66ff00, 0xff33ff00, 0xff00ff00, 0xffffcc00, 0xffcccc00, 0xff99cc00, 0xff66cc00, 0xff33cc00,
        0xff00cc00, 0xffff9900, 0xffcc9900, 0xff999900, 0xff669900, 0xff339900, 0xff009900, 0xffff6600,
        0xffcc6600, 0xff996600, 0xff666600, 0xff336600, 0xff006600, 0xffff3300, 0xffcc3300, 0xff993300,
        0xff663300, 0xff333300, 0xff003300, 0xffff0000, 0xffcc0000, 0xff990000, 0xff660000, 0xff330000,
        0xff0000ee, 0xff0000dd, 0xff0000bb, 0xff0000aa, 0xff000088, 0xff000077, 0xff000055, 0xff000044,
        0xff000022, 0xff000011, 0xff00ee00, 0xff00dd00, 0xff00bb00, 0xff00aa00, 0xff008800, 0xff007700,
        0xff005500, 0xff004400, 0xff002200, 0xff001100, 0xffee0000, 0xffdd0000, 0xffbb0000, 0xffaa0000,
        0xff880000, 0xff770000, 0xff550000, 0xff440000, 0xff220000, 0xff110000, 0xffeeeeee, 0xffdddddd,
        0xffbbbbbb, 0xffaaaaaa, 0xff888888, 0xff777777, 0xff555555, 0xff444444, 0xff222222, 0xff111111,
    ];
    assert(v@ =~= default_palette());
    v
}

/// The four bytes at `i` are `a b c e`.
fn tag_is(d: &[u8], i: usize, a: u8, b: u8, c: u8, e: u8) -> (r: bool)
    requires
        in_bounds(d@, i as int, 4),
    ensures
        r == has_tag(d@, i as int, seq![a, b, c, e]),
{
    assert(d@.len() == d.len());
    let r = d[i] == a && d[i + 1] == b && d[i + 2] == c && d[i + 3] == e;
    let ghost t = d@.subrange(i as int, i + 4);
    if r {
        assert(t =~= seq![a, b, c, e]);
    } else {
        assert(t[0] == d@[i as int] && t[1] == d@[i + 1] && t[2] == d@[i + 2] && t[3] == d@[i + 3]);
        assert(seq![a, b, c, e][0] == a && seq![a, b, c, e][1] == b && seq![a, b, c, e][2] == c
            && seq![a, b, c, e][3] == e);
    }
    r
}

proof fn lemma_nodes_insert(m: Map<u32, VoxNode>, k: u32, v: VoxNode)
    ensures
        nodes_view(m.insert(k, v)) == nodes_view(m).insert(k, v@),
{
    assert(nodes_view(m.insert(k, v)) =~= nodes_view(m).insert(k, v@));
}

/// Reads the chunk at `i` into the file read so far; returns where the next chunk starts
/// (any position past the end when the chunk's size runs past it).
fn read_chunk(
    d: &[u8],
    i: usize,
    chunks: &mut Vec<VoxChunk>,
    palette: &mut Vec<u32>,
    nodes: &mut HashMap<u32, VoxNode>,
) -> (r: Result<usize, VoxError>)
    requires
        i < d@.len(),
    ensures
        match r {
            Ok(j) => {
                let step = chunk_step(d@, i as int, model_of(old(chunks)@, old(palette)@, old(nodes)@));
                &&& step is Ok
                &&& model_of(final(chunks)@, final(palette)@, final(nodes)@) == step->Ok_0.1
                &&& (j == step->Ok_0.0 || (j >= d@.len() && step->Ok_0.0 >= d@.len()))
            },
            Err(e) => chunk_step(d@, i as int, model_of(old(chunks)@, old(palette)@, old(nodes)@))
                == Err::<(int, VoxModel), VoxError>(e),
        },
{
    reveal(chunk_step);
    assert(d@.len() == d.len());
    let ghost st = model_of(chunks@, palette@, nodes@);
    if d.len() - i < 4 {
        return Err(VoxError::ChunkId);
    }
    let size = word(d, i, 4)?;
    let is_size = tag_is(d, i, 0x53, 0x49, 0x5a, 0x45);
    let is_xyzi = tag_is(d, i, 0x58, 0x59, 0x5a, 0x49);
    let is_rgba = tag_is(d, i, 0x52, 0x47, 0x42, 0x41);
    let is_ntrn = tag_is(d, i, 0x6e, 0x54, 0x52, 0x4e);
    let is_ngrp = tag_is(d, i, 0x6e, 0x47, 0x52, 0x50);
    let is_nshp = tag_is(d, i, 0x6e, 0x53, 0x48, 0x50);
    if d.len() - i < 12 {
        if is_size || is_xyzi || is_rgba || is_ntrn || is_ngrp || is_nshp {
            return Err(VoxError::Truncated);
        }
        return Ok(usize::MAX);
    }
    let b = i + 12;
    if is_size {
        if d.len() - b < 12 {
            return Err(VoxError::Truncated);
        }
        let x = word(d, b, 0)?;
        let y = word(d, b, 4)?;
        let z = word(d, b, 8)?;
        let c = VoxChunk { size: (x as usize, y as usize, z as usize), voxels: Vec::new() };
        proof {
            assert(chunks_view(chunks@.push(c)) =~= chunks_view(chunks@).push(c@));
        }
        chunks.push(c);
        return Ok(b.saturating_add(size as usize));
    }
    if is_xyzi {
        let n = word(d, b, 0)?;
        if chunks.len() == 0 {
            return Err(VoxError::XyziBeforeSize);
        }
        let start = b + 4;
        let n4 = match (n as usize).checked_mul(4) {
            Some(v) => v,
            None => return Err(VoxError::Voxels),
        };
        if n4 > d.len() - start {
            return Err(VoxError::Voxels);
        }
        let mut voxels: Vec<(u8, u8, u8, u8)> = Vec::new();
        let mut k: usize = 0;
        let n = n as usize;
        while k < n
            invariant
                d@.len() == d.len(),
                n4 == 4 * n,
                start + n4 <= d@.len(),
                k <= n,
                voxels@ == voxel_seq(d@, start as int, k as nat),
            decreases n - k,
        {
            let p = start + 4 * k;
            voxels.push((d[p], d[p + 1], d[p + 2], d[p + 3]));
            k = k + 1;
            assert(voxels@ =~= voxel_seq(d@, start as int, k as nat));
        }
        let mut last = chunks.pop().unwrap();
        last.voxels = voxels;
        proof {
            assert(chunks_view(chunks@.push(last)) =~= chunks_view(old(chunks)@).update(
                old(chunks)@.len() - 1,
                last@,
            ));
        }
        chunks.push(last);
        return Ok(start + n4);
    }
    if is_rgba {
        if d.len() - b < 1024 {
            return Err(VoxError::Truncated);
        }
        let mut fresh: Vec<u32> = Vec::new();
        fresh.push(0);
        let mut j: usize = 0;
        while j < 256
            invariant
                d@.len() == d.len(),
                b + 1024 <= d@.len(),
                j <= 256,
                fresh@ == seq![0u32] + words(d@, b as int, j as nat),
            decreases 256 - j,
        {
            let w = read_u32_le(d, b + 4 * j);
            fresh.push(w.unwrap());
            j = j + 1;
            assert(fresh@ =~= seq![0u32] + words(d@, b as int, j as nat));
        }
        *palette = fresh;
        return Ok(b + 1024);
    }
    if is_ntrn || is_ngrp || is_nshp {
        let (id, node, end) = if is_ntrn {
            read_transform(d, b)?
        } else if is_ngrp {
            read_group(d, b)?
        } else {
            read_shape(d, b)?
        };
        proof {
            lemma_nodes_insert(nodes@, id, node);
        }
        nodes.insert(id, node);
        return Ok(end);
    }
    Ok(b.saturating_add(size as usize))
}

/// Reads a `.vox` file: the models in file order with their voxels, the palette (the
/// default one unless an `RGBA` chunk replaces it) and the scene-graph nodes by id, a
/// later node replacing an earlier one with the same id.
pub fn parse_vox(data: &[u8]) -> (r: Result<Vox, VoxError>)
    ensures
        match r {
            Ok(v) => vox_file(data@) == Ok::<VoxModel, VoxError>(v@),
            Err(e) => vox_file(data@) == Err::<VoxModel, VoxError>(e),
        },
{
    assert(data@.len() == data.len());
    let magic = word(data, 0, 0)?;
    if magic != VOX_MAGIC {
        return Err(VoxError::Header);
    }
    let version = word(data, 4, 0)?;
    if version != 150 && version != 200 {
        return Err(VoxError::Header);
    }
    let mut chunks: Vec<VoxChunk> = Vec::new();
    let mut palette = default_palette_vec();
    let mut nodes: HashMap<u32, VoxNode> = HashMap::new();
    proof {
        assert(chunks_view(chunks@) =~= seq![]);
        assert(nodes_view(nodes@) =~= Map::empty());
        assert(model_of(chunks@, palette@, nodes@) == initial_model());
    }
    let mut i: usize = 8;
    while i < data.len()
        invariant
            data@.len() == data.len(),
            vox_file(data@) == parse_from(data@, i as int, model_of(chunks@, palette@, nodes@)),
        decreases (if i < data@.len() {
            data@.len() - i
        } else {
            0
        }),
    {
        let ghost st = model_of(chunks@, palette@, nodes@);
        proof {
            lemma_step_advances(data@, i as int, st);
        }
        let j = read_chunk(data, i, &mut chunks, &mut palette, &mut nodes)?;
        proof {
            let step = chunk_step(data@, i as int, st);
            let next = model_of(chunks@, palette@, nodes@);
            assert(parse_from(data@, i as int, st) == parse_from(data@, step->Ok_0.0, next));
            if j != step->Ok_0.0 {
                assert(parse_from(data@, j as int, next) == Ok::<VoxModel, VoxError>(next));
                assert(parse_from(data@, step->Ok_0.0, next) == Ok::<VoxModel, VoxError>(next));
            }
        }
        i = j;
    }
    Ok(Vox { chunks, palette, nodes })
}


/// One chunk leaves a palette of 256 or 257 entries so.
proof fn lemma_step_palette(d: Seq<u8>, i: int, st: VoxModel)
    requires
        st.palette.len() == 256 || st.palette.len() == 257,
    ensures
        chunk_step(d, i, st) matches Ok((_, m)) ==> m.palette.len() == 256 || m.palette.len()
            == 257,
{
    reveal(chunk_step);
}

/// The chunks from `i` on leave a palette of 256 or 257 entries so.
proof fn lemma_parse_palette(d: Seq<u8>, i: int, st: VoxModel)
    requires
        st.palette.len() == 256 || st.palette.len() == 257,
    ensures
        parse_from(d, i, st) matches Ok(m) ==> m.palette.len() == 256 || m.palette.len() == 257,
    decreases (if i < d.len() {
        d.len() - i
    } else {
        0
    }),
{
    if i < d.len() {
        lemma_step_palette(d, i, st);
        lemma_step_advances(d, i, st);
        if let Ok((j, next)) = chunk_step(d, i, st) {
            lemma_parse_palette(d, j, next);
        }
    }
}

/// A file's palette has the 256 default colors, or the 256 colors of its `RGBA` chunk
/// after the unused entry 0: every color index a voxel can hold names an entry.
pub proof fn lemma_vox_palette_size(d: Seq<u8>)
    ensures
        vox_file(d) matches Ok(m) ==> m.palette.len() == 256 || m.palette.len() == 257,
{
    assert(default_palette().len() == 256);
    lemma_parse_palette(d, 8, initial_model());
}

/// An `XYZI` chunk fills the model read last with its voxels, each four bytes in file
/// order: x, y, z and color index. With `n` the word after the chunk header, the chunk is
/// read exactly when its `4 n` voxel bytes are there; it then ends after them, voxel `k` is
/// `(d[o + 4k], d[o + 4k + 1], d[o + 4k + 2], d[o + 4k + 3])` for `o` the first voxel byte,
/// and the model's size, the other models, the palette and the scene stay as they were.
pub proof fn lemma_xyzi_voxels(d: Seq<u8>, i: int, st: VoxModel)
    requires
        0 <= i,
        i + 16 <= d.len(),
        d[i] == 0x58 && d[i + 1] == 0x59 && d[i + 2] == 0x5a && d[i + 3] == 0x49,
        st.chunks.len() > 0,
    ensures
        (chunk_step(d, i, st) is Ok) <==> i + 16 + 4 * le_u32(d, i + 12) <= d.len(),
        chunk_step(d, i, st) matches Ok((j, m)) ==> {
            let n = le_u32(d, i + 12) as int;
            let o = i + 16;
            &&& j == o + 4 * n
            &&& m.palette == st.palette
            &&& m.nodes == st.nodes
            &&& m.chunks.len() == st.chunks.len()
            &&& forall|c: int| 0 <= c < st.chunks.len() - 1 ==> #[trigger] m.chunks[c] == st.chunks[c]
            &&& m.chunks.last().size == st.chunks.last().size
            &&& m.chunks.last().voxels.len() == n
            &&& forall|k: int|
                0 <= k < n ==> #[trigger] m.chunks.last().voxels[k] == (
                    d[o + 4 * k],
                    d[o + 4 * k + 1],
                    d[o + 4 * k + 2],
                    d[o + 4 * k + 3],
                )
        },
{
    reveal(chunk_step);
    assert(d.subrange(i, i + 4) =~= tag_xyzi());
    assert(d.subrange(i, i + 4)[0] != tag_size()[0]);
}

} // verus!
