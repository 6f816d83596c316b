use gallery::bytes::{parse_trimmed_u8, read_u32_le};
use gallery::geometry_blob::{geometries, BlobError};
use gallery::greedy::{merge_rects, Rect};
use gallery::half::{half_from_f32_bits, half_table};
use gallery::rgbe::{parse_rgbe, read_rgbe_header, RgbeError};
use gallery::vox::{parse_vox, VoxError, VoxNode};
use gallery::vox_mesh::{vox_mesh, Quad};
use gallery::vox_scene::{first_vox_mesh, vox_walk_stops};
use std::collections::HashMap;

fn word(out: &mut Vec<u8>, w: u32) {
    out.extend_from_slice(&w.to_le_bytes());
}

fn chunk(out: &mut Vec<u8>, id: &[u8; 4], content: &[u8], children: u32) {
    out.extend_from_slice(id);
    word(out, content.len() as u32);
    word(out, children);
    out.extend_from_slice(content);
}

fn one_voxel_file() -> Vec<u8> {
    let mut d = b"VOX ".to_vec();
    word(&mut d, 150);
    chunk(&mut d, b"MAIN", &[], 40);
    let mut size = vec![];
    for v in [1u32, 1, 1] {
        word(&mut size, v);
    }
    chunk(&mut d, b"SIZE", &size, 0);
    let mut xyzi = vec![];
    word(&mut xyzi, 1);
    xyzi.extend_from_slice(&[0, 0, 0, 1]);
    chunk(&mut d, b"XYZI", &xyzi, 0);
    d
}

#[test]
fn vox_reads_models_and_default_palette() {
    let vox = parse_vox(&one_voxel_file()).unwrap();
    assert_eq!(vox.chunks.len(), 1);
    assert_eq!(vox.chunks[0].size, (1, 1, 1));
    assert_eq!(vox.chunks[0].voxels, vec![(0, 0, 0, 1)]);
    assert_eq!(vox.palette.len(), 256);
    assert_eq!(vox.palette[0], 0);
    assert_eq!(vox.palette[1], 0xffff_ffff);
    assert!(vox.nodes.is_empty());
}

#[test]
fn vox_palette_chunk_replaces_the_default() {
    let mut d = one_voxel_file();
    let mut rgba = vec![];
    for i in 0..256u32 {
        word(&mut rgba, i);
    }
    chunk(&mut d, b"RGBA", &rgba, 0);
    let vox = parse_vox(&d).unwrap();
    assert_eq!(vox.palette.len(), 257);
    assert_eq!(vox.palette[0], 0);
    assert_eq!(vox.palette[1], 0);
    assert_eq!(vox.palette[256], 255);
}

#[test]
fn vox_errors() {
    assert_eq!(parse_vox(b"VOX").err(), Some(VoxError::Truncated));
    let mut bad = b"XOV ".to_vec();
    word(&mut bad, 150);
    assert_eq!(parse_vox(&bad).err(), Some(VoxError::Header));
    let mut old = b"VOX ".to_vec();
    word(&mut old, 100);
    assert_eq!(parse_vox(&old).err(), Some(VoxError::Header));
    let mut early = b"VOX ".to_vec();
    word(&mut early, 200);
    let mut xyzi = vec![];
    word(&mut xyzi, 0);
    chunk(&mut early, b"XYZI", &xyzi, 0);
    assert_eq!(parse_vox(&early).err(), Some(VoxError::XyziBeforeSize));
    let mut short = one_voxel_file();
    let n = short.len();
    short[n - 8] = 5;
    assert_eq!(parse_vox(&short).err(), Some(VoxError::Voxels));
    let mut id = b"VOX ".to_vec();
    word(&mut id, 150);
    id.extend_from_slice(b"MA");
    assert_eq!(parse_vox(&id).err(), Some(VoxError::ChunkId));
    let mut strings = b"VOX ".to_vec();
    word(&mut strings, 150);
    let mut trn = vec![];
    word(&mut trn, 0);
    word(&mut trn, 1);
    word(&mut trn, 100);
    chunk(&mut strings, b"nTRN", &trn, 0);
    assert_eq!(parse_vox(&strings).err(), Some(VoxError::StringBytes));
}

#[test]
fn vox_scene_nodes_and_first_shape() {
    let mut d = b"VOX ".to_vec();
    word(&mut d, 150);
    // Transform 0 over group 1 with no attributes and one empty frame.
    let mut t0 = vec![];
    for w in [0u32, 0, 1, 0, 0, 1, 0] {
        word(&mut t0, w);
    }
    chunk(&mut d, b"nTRN", &t0, 0);
    let mut g1 = vec![];
    for w in [1u32, 0, 1, 2] {
        word(&mut g1, w);
    }
    chunk(&mut d, b"nGRP", &g1, 0);
    // Transform 2 over shape 3, its frame holding `_t = "1 2 3"`.
    let mut t2 = vec![];
    for w in [2u32, 0, 3, 0, 0, 1, 1, 2] {
        word(&mut t2, w);
    }
    t2.extend_from_slice(b"_t");
    word(&mut t2, 5);
    t2.extend_from_slice(b"1 2 3");
    chunk(&mut d, b"nTRN", &t2, 0);
    let mut s3 = vec![];
    for w in [3u32, 0, 1, 7, 0] {
        word(&mut s3, w);
    }
    chunk(&mut d, b"nSHP", &s3, 0);
    let vox = parse_vox(&d).unwrap();
    assert_eq!(vox.nodes.len(), 4);
    match vox.nodes.get(&2) {
        Some(VoxNode::Transform { child, translation, rotation }) => {
            assert_eq!(*child, 3);
            assert_eq!(translation.as_deref(), Some(&b"1 2 3"[..]));
            assert_eq!(*rotation, None);
        }
        _ => panic!("transform 2"),
    }
    assert!(vox_walk_stops(&vox.nodes));
    assert_eq!(first_vox_mesh(&vox.nodes), Some((7, Some(b"1 2 3".to_vec()))));
}

#[test]
fn vox_walk_detects_cycles() {
    let mut nodes = HashMap::new();
    nodes.insert(0u32, VoxNode::Transform { child: 1, translation: None, rotation: None });
    nodes.insert(1u32, VoxNode::Transform { child: 0, translation: None, rotation: None });
    assert!(!vox_walk_stops(&nodes));
    let empty: HashMap<u32, VoxNode> = HashMap::new();
    assert!(vox_walk_stops(&empty));
    assert_eq!(first_vox_mesh(&empty), None);
    nodes.insert(1u32, VoxNode::Group(vec![]));
    assert!(vox_walk_stops(&nodes));
    assert_eq!(first_vox_mesh(&nodes), None);
}

#[test]
fn vox_mesh_of_one_voxel_has_six_faces() {
    let vox = parse_vox(&one_voxel_file()).unwrap();
    let mesh = vox_mesh(&vox.chunks[0], &vox.palette);
    let rect = |value| Rect { u: 0, v: 0, w: 1, h: 1, value };
    let mut expected = vec![];
    for axis in 0..3 {
        expected.push(Quad { axis, slice: 0, rect: rect(-1), hex: 0xffff_ffff });
        expected.push(Quad { axis, slice: 1, rect: rect(1), hex: 0xffff_ffff });
    }
    assert_eq!(mesh.quads, expected);
    assert!(mesh.has_colors);
    let black = vec![0u32; 256];
    assert!(!vox_mesh(&vox.chunks[0], &black).has_colors);
}

#[test]
fn greedy_merges_equal_cells() {
    assert_eq!(
        merge_rects(vec![vec![5, 5], vec![5, 5]], 2),
        vec![Rect { u: 0, v: 0, w: 2, h: 2, value: 5 }]
    );
    assert_eq!(
        merge_rects(vec![vec![1, 2], vec![1, 2]], 2),
        vec![
            Rect { u: 0, v: 0, w: 1, h: 2, value: 1 },
            Rect { u: 1, v: 0, w: 1, h: 2, value: 2 },
        ]
    );
    assert_eq!(
        merge_rects(vec![vec![0, 3], vec![3, 3]], 2),
        vec![
            Rect { u: 1, v: 0, w: 1, h: 2, value: 3 },
            Rect { u: 0, v: 1, w: 1, h: 1, value: 3 },
        ]
    );
    assert!(merge_rects(vec![vec![0, 0]], 2).is_empty());
}

const HEADER: &[u8] = b"#?RADIANCE\nFORMAT=32-bit_rle_rgbe\n\n-Y 2 +X 3\n";

#[test]
fn rgbe_flat_scanlines() {
    let mut d = HEADER.to_vec();
    let pixels: Vec<u8> = (0..24).collect();
    d.extend_from_slice(&pixels);
    assert_eq!(read_rgbe_header(&d), Ok((3, 2, HEADER.len())));
    assert_eq!(parse_rgbe(&d), Ok((3, 2, pixels)));
    assert_eq!(parse_rgbe(&d[..d.len() - 1]), Err(RgbeError::FlatScanline));
}

#[test]
fn rgbe_run_length_scanline() {
    let mut d = b"-Y 1 +X 8\n".to_vec();
    d.extend_from_slice(&[2, 2, 0, 8, 136, 10, 136, 20, 136, 30, 8, 1, 2, 3, 4, 5, 6, 7, 8]);
    let (w, h, img) = parse_rgbe(&d).unwrap();
    assert_eq!((w, h), (8, 1));
    let mut expected = vec![];
    for k in 1..=8u8 {
        expected.extend_from_slice(&[10, 20, 30, k]);
    }
    assert_eq!(img, expected);
}

#[test]
fn rgbe_errors() {
    assert_eq!(parse_rgbe(b"#?RADIANCE\n\n"), Err(RgbeError::Resolution));
    assert_eq!(parse_rgbe(b"-Y x +X 3\n"), Err(RgbeError::Height));
    assert_eq!(parse_rgbe(b"-Y 2 +X y\n"), Err(RgbeError::Width));
    assert_eq!(parse_rgbe(b"-Y 0 +X 3\n"), Err(RgbeError::Resolution));
    let line = b"-Y 1 +X 8\n";
    let with = |rest: &[u8]| {
        let mut d = line.to_vec();
        d.extend_from_slice(rest);
        parse_rgbe(&d)
    };
    assert_eq!(with(&[2, 2, 0, 9]), Err(RgbeError::ScanlineWidth));
    assert_eq!(with(&[2, 2, 0, 8, 137, 1]), Err(RgbeError::Run));
    assert_eq!(with(&[2, 2, 0, 8, 9, 1, 2, 3, 4, 5, 6, 7, 8, 9]), Err(RgbeError::Literal));
    assert_eq!(with(&[2, 2, 0, 8, 136]), Err(RgbeError::Truncated));
}

fn words(ws: &[u32]) -> Vec<u8> {
    let mut d = vec![];
    for &w in ws {
        word(&mut d, w);
    }
    d
}

#[test]
fn geometry_blob_records() {
    let d = words(&[1, 1, 3, 10, 11, 12, 20, 21, 22, 30, 31, 0, 0, 0]);
    let gs = geometries(&d).unwrap();
    assert_eq!(gs.len(), 1);
    assert_eq!(gs[0].positions, vec![10, 11, 12]);
    assert_eq!(gs[0].normals, vec![20, 21, 22]);
    assert_eq!(gs[0].uvs, vec![30, 31]);
    assert_eq!(gs[0].indices, Some(vec![0, 0, 0]));
    let d = words(&[2, 0, 0, 0, 0]);
    let gs = geometries(&d).unwrap();
    assert_eq!(gs.len(), 2);
    assert_eq!(gs[1].indices, None);
}

#[test]
fn geometry_blob_errors() {
    assert_eq!(geometries(&[0, 0, 0]).err(), Some(BlobError::ByteLength));
    assert_eq!(geometries(&[]).err(), Some(BlobError::Truncated));
    assert_eq!(geometries(&words(&[1])).err(), Some(BlobError::Truncated));
    assert_eq!(geometries(&words(&[1, 1, 0, 1, 2])).err(), Some(BlobError::Truncated));
    assert_eq!(geometries(&words(&[0, 7])).err(), Some(BlobError::Trailing));
}

#[test]
fn half_tables_and_conversion() {
    assert_eq!(half_table(127), (0x3c00, 13));
    assert_eq!(half_table(0x100 + 127), (0xbc00, 13));
    assert_eq!(half_table(255), (0x7c00, 13));
    assert_eq!(half_table(0), (0, 24));
    assert_eq!(half_table(127 - 20), (16, 19));
    assert_eq!(half_from_f32_bits(1.0f32.to_bits()), 0x3c00);
    assert_eq!(half_from_f32_bits(0.5f32.to_bits()), 0x3800);
    assert_eq!(half_from_f32_bits((-2.0f32).to_bits()), 0xc000);
    assert_eq!(half_from_f32_bits(65536.0f32.to_bits()), 0x7c00);
    assert_eq!(half_from_f32_bits(0x7fc0_0000), 0x7e00);
    assert_eq!(half_from_f32_bits(1e-10f32.to_bits()), 0);
    assert_eq!(half_from_f32_bits(0x3580_0000), 0x0010);
}

#[test]
fn byte_helpers() {
    assert_eq!(read_u32_le(&[1, 2, 3, 4, 5], 1), Some(0x0504_0302));
    assert_eq!(read_u32_le(&[1, 2, 3], 0), None);
    assert_eq!(parse_trimmed_u8(b" +42\t"), Some(42));
    assert_eq!(parse_trimmed_u8(b"256"), None);
    assert_eq!(parse_trimmed_u8("\u{a0}7\u{3000}".as_bytes()), Some(7));
    assert_eq!(parse_trimmed_u8(b""), None);
}
