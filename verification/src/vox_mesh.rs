//! The faces of a `.vox` model: per-axis slice masks merged greedily into quads.
use crate::greedy::{Rect, greedy_rects, merge_rects, rows_view, well_shaped};
use crate::vox::{ChunkModel, VoxChunk};
use vstd::prelude::*;

verus! {

/// One face quad: the axis it faces along, the slice between two layers of cells, its
/// rectangle in the slice (columns along axis `(axis + 1) % 3`, rows along
/// `(axis + 2) % 3`), whose value is the color index, positive where the cell behind the
/// slice is solid and negative where the cell in front is, and the palette color.
#[derive(Clone, Copy, PartialEq, Eq, Debug)]
pub struct Quad {
    pub axis: usize,
    pub slice: usize,
    pub rect: Rect,
    pub hex: u32,
}

/// A model's quads in the order the mesher emits them, and whether any palette color they
/// use has a nonzero red, green or blue channel.
pub struct VoxMesh {
    pub quads: Vec<Quad>,
    pub has_colors: bool,
}

/// The extent of the model along `axis`.
pub open spec fn dim(size: (usize, usize, usize), axis: int) -> int {
    if axis == 0 {
        size.0 as int
    } else if axis == 1 {
        size.1 as int
    } else {
        size.2 as int
    }
}

/// The flat index of the cell `(x, y, z)`.
pub open spec fn cell_index(size: (usize, usize, usize), x: int, y: int, z: int) -> int {
    x + y * size.0 + z * size.0 * size.1
}

/// The number of cells of the model.
pub open spec fn cell_count(size: (usize, usize, usize)) -> int {
    size.0 * size.1 * size.2
}

/// The cells after the first `k` voxels are written: each voxel whose index falls inside
/// the model sets that cell to its color index, a later voxel overwriting an earlier one.
pub open spec fn fill(size: (usize, usize, usize), voxels: Seq<(u8, u8, u8, u8)>, k: int) -> Seq<u8>
    decreases k,
{
    if k <= 0 {
        Seq::new(cell_count(size) as nat, |i: int| 0u8)
    } else {
        let prev = fill(size, voxels, k - 1);
        let v = voxels[k - 1];
        let i = cell_index(size, v.0 as int, v.1 as int, v.2 as int);
        if i < cell_count(size) {
            prev.update(i, v.3)
        } else {
            prev
        }
    }
}

/// The model's cells.
pub open spec fn volume(c: ChunkModel) -> Seq<u8> {
    fill(c.size, c.voxels, c.voxels.len() as int)
}

/// The coordinates of column `u` and row `v` of slice `s` along `axis`.
pub open spec fn coords(axis: int, s: int, u: int, v: int) -> (int, int, int) {
    if axis == 0 {
        (s, u, v)
    } else if axis == 1 {
        (v, s, u)
    } else {
        (u, v, s)
    }
}

/// The cell of `vol` at layer `s` along `axis`, column `u` and row `v`.
pub open spec fn layer_cell(size: (usize, usize, usize), vol: Seq<u8>, axis: int, s: int, u: int, v: int) -> u8 {
    let p = coords(axis, s, u, v);
    vol[cell_index(size, p.0, p.1, p.2)]
}

/// The mask value at column `u`, row `v` of slice `s` along `axis`: the color of the solid
/// cell behind the slice when the one in front is empty, the negated color of the solid
/// cell in front when the one behind is empty, else 0.
pub open spec fn face(size: (usize, usize, usize), vol: Seq<u8>, axis: int, s: int, u: int, v: int) -> i16 {
    let behind = if s > 0 {
        layer_cell(size, vol, axis, s - 1, u, v)
    } else {
        0u8
    };
    let infront = if s < dim(size, axis) {
        layer_cell(size, vol, axis, s, u, v)
    } else {
        0u8
    };
    if behind > 0 && infront == 0 {
        behind as i16
    } else if infront > 0 && behind == 0 {
        (-(infront as int)) as i16
    } else {
        0i16
    }
}

/// The mask of slice `s` along `axis`.
pub open spec fn slice_mask(size: (usize, usize, usize), vol: Seq<u8>, axis: int, s: int) -> Seq<Seq<i16>> {
    let du = dim(size, (axis + 1) % 3);
    let dv = dim(size, (axis + 2) % 3);
    Seq::new(dv as nat, |v: int| Seq::new(du as nat, |u: int| face(size, vol, axis, s, u, v)))
}

/// The palette color of a mask value: the entry at its magnitude, or 0 past the palette.
pub open spec fn hex_of(palette: Seq<u32>, c: i16) -> u32 {
    let k = if c < 0 {
        -(c as int)
    } else {
        c as int
    };
    if k < palette.len() {
        palette[k]
    } else {
        0
    }
}

/// The quads of slice `s` along `axis`.
pub open spec fn slice_quads(size: (usize, usize, usize), vol: Seq<u8>, palette: Seq<u32>, axis: int, s: int) -> Seq<Quad> {
    greedy_rects(slice_mask(size, vol, axis, s), dim(size, (axis + 1) % 3)).map_values(
        |r: Rect| Quad { axis: axis as usize, slice: s as usize, rect: r, hex: hex_of(palette, r.value) },
    )
}

/// The quads of the first `n` slices along `axis`.
pub open spec fn axis_quads(size: (usize, usize, usize), vol: Seq<u8>, palette: Seq<u32>, axis: int, n: int) -> Seq<Quad>
    decreases n,
{
    if n <= 0 {
        seq![]
    } else {
        axis_quads(size, vol, palette, axis, n - 1) + slice_quads(size, vol, palette, axis, n - 1)
    }
}

/// The quads of the first `a` axes, each over all of its slices.
pub open spec fn mesh_quads(size: (usize, usize, usize), vol: Seq<u8>, palette: Seq<u32>, a: int) -> Seq<Quad>
    decreases a,
{
    if a <= 0 {
        seq![]
    } else {
        mesh_quads(size, vol, palette, a - 1) + axis_quads(
            size,
            vol,
            palette,
            a - 1,
            dim(size, a - 1) + 1,
        )
    }
}

/// A color with a nonzero red, green or blue byte.
pub open spec fn colored(hex: u32) -> bool {
    hex % 0x100_0000 != 0
}

/// The model's sizes can be multiplied without overflow, as the mesher does.
pub open spec fn size_fits(size: (usize, usize, usize)) -> bool {
    &&& size.0 * size.1 <= usize::MAX
    &&& size.1 * size.2 <= usize::MAX
    &&& size.2 * size.0 <= usize::MAX
    &&& size.0 * size.1 * size.2 <= usize::MAX
}

pub proof fn lemma_cell_in_model(size: (usize, usize, usize), x: int, y: int, z: int)
    requires
        0 <= x < size.0,
        0 <= y < size.1,
        0 <= z < size.2,
    ensures
        0 <= cell_index(size, x, y, z) < cell_count(size),
        cell_index(size, x, y, z) == x + size.0 * (y + size.1 * z),
{
    let sx = size.0 as int;
    let sy = size.1 as int;
    let sz = size.2 as int;
    assert(y * sx + z * sx * sy == sx * (y + sy * z)) by (nonlinear_arith);
    assert(y + sy * z <= sy * sz - 1) by (nonlinear_arith)
        requires
            0 <= y < sy,
            0 <= z < sz,
    ;
    assert(sx * (y + sy * z) <= sx * (sy * sz - 1)) by (nonlinear_arith)
        requires
            y + sy * z <= sy * sz - 1,
            0 <= sx,
    ;
    assert(sx * (sy * sz - 1) == sx * sy * sz - sx) by (nonlinear_arith);
    assert(0 <= sx * (y + sy * z)) by (nonlinear_arith)
        requires
            0 <= y,
            0 <= z,
            0 <= sx,
            0 <= sy,
    ;
}


/// The extent of `size` along `axis`, executable.
fn dim_of(size: (usize, usize, usize), axis: usize) -> (n: usize)
    ensures
        n == dim(size, axis as int),
{
    if axis == 0 {
        size.0
    } else if axis == 1 {
        size.1
    } else {
        size.2
    }
}

/// Writes the voxels into a model of empty cells.
fn build_volume(chunk: &VoxChunk) -> (vol: Vec<u8>)
    requires
        size_fits(chunk.size),
    ensures
        vol@ == volume(chunk@),
        vol@.len() == cell_count(chunk.size),
{
    let (sx, sy, sz) = chunk.size;
    let total = sx * sy * sz;
    let mut vol: Vec<u8> = Vec::new();
    let mut i: usize = 0;
    while i < total
        invariant
            i <= total,
            vol@ =~= Seq::new(i as nat, |k: int| 0u8),
        decreases total - i,
    {
        vol.push(0);
        i = i + 1;
    }
    assert(vol@ =~= fill(chunk.size, chunk.voxels@, 0));
    let mut k: usize = 0;
    while k < chunk.voxels.len()
        invariant
            k <= chunk.voxels@.len(),
            total == cell_count(chunk.size),
            (sx, sy, sz) == chunk.size,
            vol@ == fill(chunk.size, chunk.voxels@, k as int),
            vol@.len() == total,
        decreases chunk.voxels@.len() - k,
    {
        let (x, y, z, c) = chunk.voxels[k];
        let x = x as usize;
        let y = y as usize;
        let z = z as usize;
        let ghost idx = cell_index(chunk.size, x as int, y as int, z as int);
        let index = match z.checked_mul(sx) {
            None => None,
            Some(zx) => match zx.checked_mul(sy) {
                None => None,
                Some(zxy) => match y.checked_mul(sx) {
                    None => None,
                    Some(yx) => match x.checked_add(yx) {
                        None => None,
                        Some(a) => a.checked_add(zxy),
                    },
                },
            },
        };
        proof {
            assert(z * sx * sy == (z * sx) * sy);
        }
        match index {
            Some(i) => {
                assert(i == idx);
                if i < total {
                    vol.set(i, c);
                }
            },
            None => {
                assert(idx >= total) by {
                    if sx == 0 || sy == 0 || sz == 0 {
                        assert(total == 0) by (nonlinear_arith)
                            requires
                                total == sx * sy * sz,
                                sx == 0 || sy == 0 || sz == 0,
                        ;
                        assert(idx >= 0) by (nonlinear_arith)
                            requires
                                idx == x + y * sx + z * sx * sy,
                                x >= 0,
                                y >= 0,
                                z >= 0,
                                sx >= 0,
                                sy >= 0,
                        ;
                    } else {
                        assert(idx > usize::MAX) by (nonlinear_arith)
                            requires
                                idx == x + y * sx + z * sx * sy,
                                x >= 0,
                                y >= 0,
                                z >= 0,
                                sx >= 1,
                                sy >= 1,
                                z * sx > usize::MAX || z * sx * sy > usize::MAX || y * sx
                                    > usize::MAX || x + y * sx > usize::MAX || x + y * sx + z
                                    * sx * sy > usize::MAX,
                        ;
                    }
                }
            },
        }
        k = k + 1;
    }
    vol
}

/// The cell at layer `s` along `axis`, column `u`, row `v`.
fn cell_at(vol: &Vec<u8>, size: (usize, usize, usize), axis: usize, s: usize, u: usize, v: usize) -> (c: u8)
    requires
        axis < 3,
        size_fits(size),
        vol@.len() == cell_count(size),
        s < dim(size, axis as int),
        u < dim(size, (axis + 1) % 3),
        v < dim(size, (axis + 2) % 3),
    ensures
        c == layer_cell(size, vol@, axis as int, s as int, u as int, v as int),
{
    let (x, y, z) = if axis == 0 {
        (s, u, v)
    } else if axis == 1 {
        (v, s, u)
    } else {
        (u, v, s)
    };
    proof {
        lemma_cell_in_model(size, x as int, y as int, z as int);
        assert(size.1 * z <= size.1 * size.2) by (nonlinear_arith)
            requires
                z < size.2,
        ;
        assert(size.0 * (y + size.1 * z) < cell_count(size));
        assert(y + size.1 * z < size.1 * size.2) by (nonlinear_arith)
            requires
                y < size.1,
                z < size.2,
        ;
    }
    let (sx, sy, _) = size;
    let inner = y + sy * z;
    vol[x + sx * inner]
}

/// The mask value of column `u`, row `v` of slice `s` along `axis`.
fn face_at(vol: &Vec<u8>, size: (usize, usize, usize), axis: usize, s: usize, u: usize, v: usize) -> (f: i16)
    requires
        axis < 3,
        size_fits(size),
        vol@.len() == cell_count(size),
        s <= dim(size, axis as int),
        u < dim(size, (axis + 1) % 3),
        v < dim(size, (axis + 2) % 3),
    ensures
        f == face(size, vol@, axis as int, s as int, u as int, v as int),
{
    let behind = if s > 0 {
        cell_at(vol, size, axis, s - 1, u, v)
    } else {
        0
    };
    let infront = if s < dim_of(size, axis) {
        cell_at(vol, size, axis, s, u, v)
    } else {
        0
    };
    if behind > 0 && infront == 0 {
        behind as i16
    } else if infront > 0 && behind == 0 {
        -(infront as i16)
    } else {
        0
    }
}

/// The mask of slice `s` along `axis`, as rows.
fn mask_of(vol: &Vec<u8>, size: (usize, usize, usize), axis: usize, s: usize) -> (m: Vec<Vec<i16>>)
    requires
        axis < 3,
        size_fits(size),
        vol@.len() == cell_count(size),
        s <= dim(size, axis as int),
    ensures
        rows_view(m@) == slice_mask(size, vol@, axis as int, s as int),
        well_shaped(rows_view(m@), dim(size, (axis + 1) % 3)),
{
    let du = dim_of(size, (axis + 1) % 3);
    let dv = dim_of(size, (axis + 2) % 3);
    let ghost target = slice_mask(size, vol@, axis as int, s as int);
    let mut m: Vec<Vec<i16>> = Vec::new();
    let mut v: usize = 0;
    while v < dv
        invariant
            axis < 3,
            size_fits(size),
            vol@.len() == cell_count(size),
            s <= dim(size, axis as int),
            du == dim(size, (axis + 1) % 3),
            dv == dim(size, (axis + 2) % 3),
            target == slice_mask(size, vol@, axis as int, s as int),
            v <= dv,
            m@.len() == v,
            forall|r: int| 0 <= r < v ==> (#[trigger] m@[r])@ == target[r],
        decreases dv - v,
    {
        let mut row: Vec<i16> = Vec::new();
        let mut u: usize = 0;
        while u < du
            invariant
                axis < 3,
                size_fits(size),
                vol@.len() == cell_count(size),
                s <= dim(size, axis as int),
                du == dim(size, (axis + 1) % 3),
                v < dv,
                dv == dim(size, (axis + 2) % 3),
                target == slice_mask(size, vol@, axis as int, s as int),
                u <= du,
                row@ =~= target[v as int].subrange(0, u as int),
            decreases du - u,
        {
            let f = face_at(vol, size, axis, s, u, v);
            row.push(f);
            u = u + 1;
        }
        assert(row@ =~= target[v as int]);
        m.push(row);
        v = v + 1;
    }
    assert(rows_view(m@) =~= target);
    m
}

/// Meshes one model: for each axis in turn and each slice along it, the slice's mask merged
/// into quads of equal color, with their palette colors.
pub fn vox_mesh(chunk: &VoxChunk, palette: &[u32]) -> (mesh: VoxMesh)
    requires
        size_fits(chunk.size),
    ensures
        mesh.quads@ == mesh_quads(chunk.size, volume(chunk@), palette@, 3),
        mesh.has_colors == exists|i: int|
            0 <= i < mesh.quads@.len() && colored(#[trigger] mesh.quads@[i].hex),
{
    let vol = build_volume(chunk);
    let size = chunk.size;
    let ghost vs = volume(chunk@);
    let mut quads: Vec<Quad> = Vec::new();
    let mut has_colors = false;
    let mut axis: usize = 0;
    while axis < 3
        invariant
            axis <= 3,
            size == chunk.size,
            size_fits(size),
            vol@ == vs,
            vs.len() == cell_count(size),
            quads@ == mesh_quads(size, vs, palette@, axis as int),
            has_colors == exists|i: int|
                0 <= i < quads@.len() && colored(#[trigger] quads@[i].hex),
        decreases 3 - axis,
    {
        let dd = dim_of(size, axis);
        let mut s: usize = 0;
        loop
            invariant_except_break
                quads@ == mesh_quads(size, vs, palette@, axis as int) + axis_quads(
                    size,
                    vs,
                    palette@,
                    axis as int,
                    s as int,
                ),
            invariant
                axis < 3,
                size == chunk.size,
                size_fits(size),
                vol@ == vs,
                vs.len() == cell_count(size),
                dd == dim(size, axis as int),
                s <= dd,
                has_colors == exists|i: int|
                    0 <= i < quads@.len() && colored(#[trigger] quads@[i].hex),
            ensures
                quads@ == mesh_quads(size, vs, palette@, axis as int) + axis_quads(
                    size,
                    vs,
                    palette@,
                    axis as int,
                    dd + 1,
                ),
                has_colors == exists|i: int|
                    0 <= i < quads@.len() && colored(#[trigger] quads@[i].hex),
            decreases dd - s,
        {
            let mask = mask_of(&vol, size, axis, s);
            let rects = merge_rects(mask, dim_of(size, (axis + 1) % 3));
            let ghost before = quads@;
            let ghost added = slice_quads(size, vs, palette@, axis as int, s as int);
            assert(rects@.map_values(
                |r: Rect| Quad { axis: axis, slice: s, rect: r, hex: hex_of(palette@, r.value) },
            ) == added);
            let mut k: usize = 0;
            while k < rects.len()
                invariant
                    k <= rects@.len(),
                    added == rects@.map_values(
                        |r: Rect| Quad { axis: axis, slice: s, rect: r, hex: hex_of(palette@, r.value) },
                    ),
                    quads@ == before + added.subrange(0, k as int),
                    has_colors == exists|i: int|
                        0 <= i < quads@.len() && colored(#[trigger] quads@[i].hex),
                decreases rects@.len() - k,
            {
                let r = rects[k];
                let c = r.value;
                let mag: usize = if c < 0 {
                    (-(c as i32)) as usize
                } else {
                    c as usize
                };
                let hex = if mag < palette.len() {
                    palette[mag]
                } else {
                    0
                };
                let q = Quad { axis, slice: s, rect: r, hex };
                assert(q == added[k as int]);
                let lit = hex & 0x00ff_ffff != 0;
                assert((hex & 0x00ff_ffff != 0) == (hex % 0x100_0000 != 0)) by (bit_vector);
                let ghost old_quads = quads@;
                quads.push(q);
                proof {
                    if lit {
                        assert(colored(quads@[quads@.len() - 1].hex));
                    }
                    if !lit && !has_colors {
                        assert forall|i: int| 0 <= i < quads@.len() implies !colored(
                            #[trigger] quads@[i].hex,
                        ) by {
                            if i < old_quads.len() {
                                assert(quads@[i] == old_quads[i]);
                            }
                        }
                    }
                    if has_colors {
                        let j = choose|i: int| 0 <= i < old_quads.len() && colored(#[trigger] old_quads[i].hex);
                        assert(quads@[j] == old_quads[j]);
                    }
                }
                has_colors = has_colors || lit;
                k = k + 1;
                assert(quads@ =~= before + added.subrange(0, k as int));
            }
            assert(added.subrange(0, rects@.len() as int) =~= added);
            assert(quads@ =~= mesh_quads(size, vs, palette@, axis as int) + axis_quads(
                size,
                vs,
                palette@,
                axis as int,
                s + 1,
            ));
            if s == dd {
                break ;
            }
            s = s + 1;
        }
        axis = axis + 1;
    }
    VoxMesh { quads, has_colors }
}

/// Filling keeps one cell per position of the model.
proof fn lemma_fill_len(size: (usize, usize, usize), vs: Seq<(u8, u8, u8, u8)>, m: int)
    requires
        0 <= m <= vs.len(),
        cell_count(size) >= 0,
    ensures
        fill(size, vs, m).len() == cell_count(size),
    decreases m,
{
    if m > 0 {
        lemma_fill_len(size, vs, m - 1);
    }
}

/// After the first `m` voxels, cell `i` holds the color of voxel `k < m` written there when
/// no voxel between them was written there too.
proof fn lemma_fill_last(size: (usize, usize, usize), vs: Seq<(u8, u8, u8, u8)>, k: int, m: int, i: int)
    requires
        0 <= k < m <= vs.len(),
        0 <= i < cell_count(size),
        i == cell_index(size, vs[k].0 as int, vs[k].1 as int, vs[k].2 as int),
        forall|j: int|
            k < j < m ==> cell_index(size, (#[trigger] vs[j]).0 as int, vs[j].1 as int, vs[j].2 as int) != i,
    ensures
        fill(size, vs, m)[i] == vs[k].3,
    decreases m,
{
    lemma_fill_len(size, vs, m - 1);
    if m - 1 > k {
        lemma_fill_last(size, vs, k, m - 1, i);
        let v = vs[m - 1];
        assert(cell_index(size, v.0 as int, v.1 as int, v.2 as int) != i);
    }
}

/// After the first `m` voxels, a cell that none of them was written to is empty.
proof fn lemma_fill_untouched(size: (usize, usize, usize), vs: Seq<(u8, u8, u8, u8)>, m: int, i: int)
    requires
        0 <= m <= vs.len(),
        0 <= i < cell_count(size),
        forall|j: int|
            0 <= j < m ==> cell_index(size, (#[trigger] vs[j]).0 as int, vs[j].1 as int, vs[j].2 as int) != i,
    ensures
        fill(size, vs, m)[i] == 0,
    decreases m,
{
    if m > 0 {
        lemma_fill_len(size, vs, m - 1);
        lemma_fill_untouched(size, vs, m - 1, i);
        let v = vs[m - 1];
        assert(cell_index(size, v.0 as int, v.1 as int, v.2 as int) != i);
    }
}

/// The model's cells are laid out x fastest, then y, then z: a model of size
/// `(sx, sy, sz)` has `sx sy sz` cells; a voxel `(x, y, z, c)` inside the model leaves cell
/// `x + y sx + z sx sy` holding its color `c` unless a later voxel lands on that cell; and a
/// cell no voxel lands on stays empty.
pub proof fn lemma_volume_cells(c: ChunkModel, k: int, i: int)
    ensures
        volume(c).len() == c.size.0 * c.size.1 * c.size.2,
        0 <= k < c.voxels.len() && (c.voxels[k].0 as int) < c.size.0 && (c.voxels[k].1 as int)
            < c.size.1 && (c.voxels[k].2 as int) < c.size.2 && (forall|j: int|
            k < j < c.voxels.len() ==> (#[trigger] c.voxels[j]).0 as int + (c.voxels[j].1 as int)
                * c.size.0 + (c.voxels[j].2 as int) * c.size.0 * c.size.1 != (c.voxels[k].0 as int)
                + (c.voxels[k].1 as int) * c.size.0 + (c.voxels[k].2 as int) * c.size.0 * c.size.1)
            ==> volume(c)[(c.voxels[k].0 as int) + (c.voxels[k].1 as int) * c.size.0
            + (c.voxels[k].2 as int) * c.size.0 * c.size.1] == c.voxels[k].3,
        0 <= i < c.size.0 * c.size.1 * c.size.2 && (forall|j: int|
            0 <= j < c.voxels.len() ==> (#[trigger] c.voxels[j]).0 as int + (c.voxels[j].1 as int)
                * c.size.0 + (c.voxels[j].2 as int) * c.size.0 * c.size.1 != i) ==> volume(c)[i]
            == 0,
{
    let size = c.size;
    let vs = c.voxels;
    assert(cell_count(size) >= 0) by (nonlinear_arith)
        requires
            cell_count(size) == size.0 * size.1 * size.2,
            size.0 >= 0,
            size.1 >= 0,
            size.2 >= 0,
    ;
    lemma_fill_len(size, vs, vs.len() as int);
    if 0 <= k < vs.len() && (vs[k].0 as int) < size.0 && (vs[k].1 as int) < size.1 && (
    vs[k].2 as int) < size.2 && (forall|j: int|
        k < j < vs.len() ==> (#[trigger] vs[j]).0 as int + (vs[j].1 as int) * size.0 + (
        vs[j].2 as int) * size.0 * size.1 != (vs[k].0 as int) + (vs[k].1 as int) * size.0 + (
        vs[k].2 as int) * size.0 * size.1) {
        lemma_cell_in_model(size, vs[k].0 as int, vs[k].1 as int, vs[k].2 as int);
        let ci = cell_index(size, vs[k].0 as int, vs[k].1 as int, vs[k].2 as int);
        lemma_fill_last(size, vs, k, vs.len() as int, ci);
    }
    if 0 <= i < cell_count(size) && (forall|j: int|
        0 <= j < vs.len() ==> (#[trigger] vs[j]).0 as int + (vs[j].1 as int) * size.0 + (
        vs[j].2 as int) * size.0 * size.1 != i) {
        lemma_fill_untouched(size, vs, vs.len() as int, i);
    }
}

} // verus!
