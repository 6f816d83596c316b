//! The packed geometry files of the material scenes: little-endian words holding a count,
//! then per geometry its vertex and index counts, positions, normals, uvs and indices.
use crate::bytes::{le_u32, read_u32_le};
use vstd::prelude::*;

verus! {

/// What makes a packed geometry file unreadable.
#[derive(Debug, Clone, Copy, PartialEq, Eq)]
pub enum BlobError {
    /// The byte length is not a whole number of words.
    ByteLength,
    /// A count or value ran past the last word.
    Truncated,
    /// Words remain after the last geometry.
    Trailing,
}

/// One geometry: float attributes as their IEEE-754 bits, three per position and normal
/// and two per uv, and the indices when there are any.
pub struct GeometryRecord {
    pub positions: Vec<u32>,
    pub normals: Vec<u32>,
    pub uvs: Vec<u32>,
    pub indices: Option<Vec<u32>>,
}

/// The mathematical value of a geometry.
pub struct GeometryModel {
    pub positions: Seq<u32>,
    pub normals: Seq<u32>,
    pub uvs: Seq<u32>,
    pub indices: Option<Seq<u32>>,
}

impl View for GeometryRecord {
    type V = GeometryModel;

    open spec fn view(&self) -> GeometryModel {
        GeometryModel {
            positions: self.positions@,
            normals: self.normals@,
            uvs: self.uvs@,
            indices: match self.indices {
                Some(v) => Some(v@),
                None => None,
            },
        }
    }
}

/// The words of the file.
pub open spec fn words_of(d: Seq<u8>) -> Seq<u32> {
    Seq::new((d.len() / 4) as nat, |k: int| le_u32(d, 4 * k))
}

/// The geometry whose counts start at word `p`, and the word after it.
pub open spec fn geometry_at(ws: Seq<u32>, p: int) -> Result<(GeometryModel, int), BlobError> {
    if p < 0 || p + 2 > ws.len() {
        Err(BlobError::Truncated)
    } else {
        let v = ws[p] as int;
        let n = ws[p + 1] as int;
        let q = p + 2;
        if q + 8 * v + n > ws.len() {
            Err(BlobError::Truncated)
        } else {
            Ok(
                (
                    GeometryModel {
                        positions: ws.subrange(q, q + 3 * v),
                        normals: ws.subrange(q + 3 * v, q + 6 * v),
                        uvs: ws.subrange(q + 6 * v, q + 8 * v),
                        indices: if n > 0 {
                            Some(ws.subrange(q + 8 * v, q + 8 * v + n))
                        } else {
                            None
                        },
                    },
                    q + 8 * v + n,
                ),
            )
        }
    }
}

/// The first `count` geometries from word `p`, and the word after them.
pub open spec fn geometries_from(ws: Seq<u32>, p: int, count: nat) -> Result<
    (Seq<GeometryModel>, int),
    BlobError,
>
    decreases count,
{
    if count == 0 {
        Ok((seq![], p))
    } else {
        match geometries_from(ws, p, (count - 1) as nat) {
            Err(e) => Err(e),
            Ok((gs, q)) => match geometry_at(ws, q) {
                Err(e) => Err(e),
                Ok((g, r)) => Ok((gs.push(g), r)),
            },
        }
    }
}

/// A whole file: whole words, a geometry count, that many geometries and nothing after.
pub open spec fn blob_file(d: Seq<u8>) -> Result<Seq<GeometryModel>, BlobError> {
    let ws = words_of(d);
    if d.len() % 4 != 0 {
        Err(BlobError::ByteLength)
    } else if ws.len() == 0 {
        Err(BlobError::Truncated)
    } else {
        match geometries_from(ws, 1, ws[0] as nat) {
            Err(e) => Err(e),
            Ok((gs, end)) => if end < ws.len() {
                Err(BlobError::Trailing)
            } else {
                Ok(gs)
            },
        }
    }
}

/// The geometries of a file, taken by value.
pub open spec fn records_view(v: Seq<GeometryRecord>) -> Seq<GeometryModel> {
    v.map_values(|g: GeometryRecord| g@)
}

pub proof fn lemma_geometries_err(ws: Seq<u32>, p: int, m: nat, n: nat)
    requires
        geometries_from(ws, p, m) is Err,
        m <= n,
    ensures
        geometries_from(ws, p, n) == geometries_from(ws, p, m),
    decreases n - m,
{
    if m < n {
        lemma_geometries_err(ws, p, m, (n - 1) as nat);
    }
}

pub proof fn lemma_geometries_grow(ws: Seq<u32>, p: int, count: nat)
    requires
        0 <= p,
    ensures
        geometries_from(ws, p, count) matches Ok((_, q)) ==> p <= q <= ws.len() || (count == 0
            && q == p),
    decreases count,
{
    if count > 0 {
        lemma_geometries_grow(ws, p, (count - 1) as nat);
    }
}

/// Words `start .. start + n` of the file.
fn copy_words(d: &[u8], start: usize, n: usize) -> (v: Vec<u32>)
    requires
        d@.len() % 4 == 0,
        start + n <= d@.len() / 4,
    ensures
        v@ == words_of(d@).subrange(start as int, start + n),
{
    assert(d@.len() == d.len());
    let mut v: Vec<u32> = Vec::new();
    let mut k: usize = 0;
    while k < n
        invariant
            d@.len() == d.len(),
            d@.len() % 4 == 0,
            start + n <= d@.len() / 4,
            k <= n,
            v@ == words_of(d@).subrange(start as int, start + k),
        decreases n - k,
    {
        let w = read_u32_le(d, 4 * (start + k));
        v.push(w.unwrap());
        k = k + 1;
        assert(v@ =~= words_of(d@).subrange(start as int, start + k));
    }
    v
}

/// The geometry whose counts start at word `p`.
fn read_geometry(d: &[u8], p: usize) -> (r: Result<(GeometryRecord, usize), BlobError>)
    requires
        d@.len() % 4 == 0,
    ensures
        match r {
            Ok((g, q)) => geometry_at(words_of(d@), p as int) == Ok::<_, BlobError>((g@, q as int)),
            Err(e) => geometry_at(words_of(d@), p as int) == Err::<(GeometryModel, int), _>(e),
        },
{
    assert(d@.len() == d.len());
    let ghost ws = words_of(d@);
    let nwords = d.len() / 4;
    if p > nwords || nwords - p < 2 {
        return Err(BlobError::Truncated);
    }
    let v = read_u32_le(d, 4 * p).unwrap() as usize;
    let n = read_u32_le(d, 4 * (p + 1)).unwrap() as usize;
    assert(v == ws[p as int] && n == ws[p + 1]);
    let q = p + 2;
    let avail = nwords - q;
    let v8 = match v.checked_mul(8) {
        Some(x) => x,
        None => return Err(BlobError::Truncated),
    };
    if v8 > avail || n > avail - v8 {
        return Err(BlobError::Truncated);
    }
    let positions = copy_words(d, q, 3 * v);
    let normals = copy_words(d, q + 3 * v, 3 * v);
    let uvs = copy_words(d, q + 6 * v, 2 * v);
    let indices = if n > 0 {
        Some(copy_words(d, q + v8, n))
    } else {
        None
    };
    Ok((GeometryRecord { positions, normals, uvs, indices }, q + v8 + n))
}

/// Reads a packed geometry file: every geometry's attributes as float bits and its
/// indices, when it has any.
pub fn geometries(bytes: &[u8]) -> (r: Result<Vec<GeometryRecord>, BlobError>)
    ensures
        match r {
            Ok(gs) => blob_file(bytes@) == Ok::<_, BlobError>(records_view(gs@)),
            Err(e) => blob_file(bytes@) == Err::<Seq<GeometryModel>, _>(e),
        },
{
    assert(bytes@.len() == bytes.len());
    if bytes.len() % 4 != 0 {
        return Err(BlobError::ByteLength);
    }
    let nwords = bytes.len() / 4;
    let ghost ws = words_of(bytes@);
    if nwords == 0 {
        return Err(BlobError::Truncated);
    }
    let count = read_u32_le(bytes, 0).unwrap();
    assert(count == ws[0]);
    let mut out: Vec<GeometryRecord> = Vec::new();
    let mut p: usize = 1;
    let mut k: u32 = 0;
    assert(records_view(out@) =~= seq![]);
    while k < count
        invariant
            bytes@.len() % 4 == 0,
            ws == words_of(bytes@),
            nwords == ws.len(),
            1 <= p <= nwords,
            k <= count,
            count == ws[0],
            geometries_from(ws, 1, k as nat) == Ok::<_, BlobError>((records_view(out@), p as int)),
        decreases count - k,
    {
        let (g, q) = match read_geometry(bytes, p) {
            Ok(x) => x,
            Err(e) => {
                proof {
                    assert(geometries_from(ws, 1, (k + 1) as nat) == Err::<(Seq<GeometryModel>, int), _>(e));
                    lemma_geometries_err(ws, 1, (k + 1) as nat, count as nat);
                }
                return Err(e);
            },
        };
        let ghost before = out@;
        out.push(g);
        assert(records_view(out@) =~= records_view(before).push(g@));
        p = q;
        k = k + 1;
    }
    if p < nwords {
        return Err(BlobError::Trailing);
    }
    Ok(out)
}

} // verus!
