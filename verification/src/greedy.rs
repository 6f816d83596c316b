//! Greedy meshing of one slice mask: runs of equal nonzero cells merged into rectangles.
use vstd::prelude::*;

verus! {

/// A rectangle of equal cells: column `u`, row `v`, width `w`, height `h` and the value.
#[derive(Clone, Copy, PartialEq, Eq, Debug)]
pub struct Rect {
    pub u: usize,
    pub v: usize,
    pub w: usize,
    pub h: usize,
    pub value: i16,
}

/// Every row of `m` has `du` cells.
pub open spec fn well_shaped(m: Seq<Seq<i16>>, du: int) -> bool {
    forall|r: int| 0 <= r < m.len() ==> #[trigger] m[r].len() == du
}

/// The width of the run of cells equal to `c` in row `r` from column `u`, counting on from
/// `w` cells.
pub open spec fn width_run(m: Seq<Seq<i16>>, du: int, r: int, u: int, c: i16, w: int) -> int
    decreases du - u - w,
{
    if u + w < du && m[r][u + w] == c {
        width_run(m, du, r, u, c, w + 1)
    } else {
        w
    }
}

/// Row `r` holds `c` in columns `u .. u + w`.
pub open spec fn row_equal(m: Seq<Seq<i16>>, r: int, u: int, w: int, c: i16) -> bool {
    forall|k: int| 0 <= k < w ==> #[trigger] m[r][u + k] == c
}

/// The height of the block of rows from `r` that hold `c` in columns `u .. u + w`, counting
/// on from `h` rows.
pub open spec fn height_run(m: Seq<Seq<i16>>, r: int, u: int, w: int, c: i16, h: int) -> int
    decreases m.len() - r - h,
{
    if r + h < m.len() && row_equal(m, r + h, u, w, c) {
        height_run(m, r, u, w, c, h + 1)
    } else {
        h
    }
}

/// `m` with the rectangle at row `r`, column `u`, width `w` and height `h` set to zero.
pub open spec fn clear_rect(m: Seq<Seq<i16>>, r: int, u: int, w: int, h: int) -> Seq<Seq<i16>> {
    Seq::new(
        m.len(),
        |y: int|
            if r <= y < r + h {
                Seq::new(m[y].len(), |x: int| if u <= x < u + w { 0i16 } else { m[y][x] })
            } else {
                m[y]
            },
    )
}

/// The rectangles found scanning `m` row by row from row `r`, column `u`: a nonzero cell
/// starts a rectangle as wide as its run of equal cells and as high as the rows below
/// repeat that run; its cells are then cleared and the scan goes on after it.
pub open spec fn scan(m: Seq<Seq<i16>>, du: int, r: int, u: int) -> Seq<Rect>
    decreases m.len() - r, du - u,
{
    if r >= m.len() || du <= 0 || u < 0 || r < 0 {
        seq![]
    } else if u >= du {
        scan(m, du, r + 1, 0)
    } else if m[r][u] == 0 {
        scan(m, du, r, u + 1)
    } else {
        let c = m[r][u];
        let w = width_run(m, du, r, u, c, 1);
        let h = height_run(m, r, u, w, c, 1);
        proof {
            lemma_width_run_bounds(m, du, r, u, c, 1);
        }
        seq![Rect { u: u as usize, v: r as usize, w: w as usize, h: h as usize, value: c }] + scan(
            clear_rect(m, r, u, w, h),
            du,
            r,
            u + w,
        )
    }
}

/// The whole mask's rectangles.
pub open spec fn greedy_rects(m: Seq<Seq<i16>>, du: int) -> Seq<Rect> {
    scan(m, du, 0, 0)
}

pub proof fn lemma_width_run_bounds(m: Seq<Seq<i16>>, du: int, r: int, u: int, c: i16, w: int)
    requires
        w >= 1,
        u + w <= du,
    ensures
        w <= width_run(m, du, r, u, c, w) <= du - u,
    decreases du - u - w,
{
    if u + w < du && m[r][u + w] == c {
        lemma_width_run_bounds(m, du, r, u, c, w + 1);
    }
}

pub proof fn lemma_height_run_bounds(m: Seq<Seq<i16>>, r: int, u: int, w: int, c: i16, h: int)
    requires
        h >= 1,
        r + h <= m.len(),
    ensures
        h <= height_run(m, r, u, w, c, h) <= m.len() - r,
    decreases m.len() - r - h,
{
    if r + h < m.len() && row_equal(m, r + h, u, w, c) {
        lemma_height_run_bounds(m, r, u, w, c, h + 1);
    }
}

/// Sets the rectangle's cells of `m` to zero.
fn clear(m: &mut Vec<Vec<i16>>, r: usize, u: usize, w: usize, h: usize)
    requires
        r + h <= old(m)@.len(),
        forall|y: int| r <= y < r + h ==> u + w <= (#[trigger] old(m)@[y]).len(),
    ensures
        final(m)@.len() == old(m)@.len(),
        forall|y: int|
            0 <= y < final(m)@.len() ==> (#[trigger] final(m)@[y])@ == clear_rect(
                rows_view(old(m)@),
                r as int,
                u as int,
                w as int,
                h as int,
            )[y],
{
    let ghost m0 = rows_view(m@);
    assert(m@.len() == m.len());
    let end = r + h;
    let mut y = r;
    while y < end
        invariant
            end == r + h,
            r <= y <= r + h,
            r + h <= m@.len(),
            m@.len() == m0.len(),
            forall|yy: int| r <= yy < r + h ==> u + w <= (#[trigger] m0[yy]).len(),
            forall|yy: int|
                0 <= yy < m@.len() ==> (#[trigger] m@[yy])@ == (if r <= yy < y {
                    clear_rect(m0, r as int, u as int, w as int, h as int)[yy]
                } else {
                    m0[yy]
                }),
        decreases r + h - y,
    {
        let mut row = m[y].clone();
        assert(row@ =~= m0[y as int]);
        assert(row@.len() == row.len());
        let stop = u + w;
        let mut x = u;
        while x < stop
            invariant
                y < m0.len(),
                stop == u + w,
                u <= x <= u + w,
                u + w <= row@.len(),
                row@.len() == m0[y as int].len(),
                forall|xx: int|
                    0 <= xx < row@.len() ==> #[trigger] row@[xx] == (if u <= xx < x {
                        0i16
                    } else {
                        m0[y as int][xx]
                    }),
            decreases u + w - x,
        {
            row.set(x, 0);
            x = x + 1;
        }
        assert(row@ =~= clear_rect(m0, r as int, u as int, w as int, h as int)[y as int]);
        m.set(y, row);
        y = y + 1;
    }
}

/// The rows of a mask as sequences.
pub open spec fn rows_view(m: Seq<Vec<i16>>) -> Seq<Seq<i16>> {
    m.map_values(|row: Vec<i16>| row@)
}


/// Row `r` of `m` holds `c` in columns `u .. u + w`.
fn row_has(m: &Vec<Vec<i16>>, r: usize, u: usize, w: usize, c: i16) -> (b: bool)
    requires
        r < m@.len(),
        u + w <= m@[r as int]@.len(),
    ensures
        b == row_equal(rows_view(m@), r as int, u as int, w as int, c),
{
    let ghost mm = rows_view(m@);
    assert(mm[r as int] == m@[r as int]@);
    let rl = m[r].len();
    assert(rl == m@[r as int]@.len());
    let mut k: usize = 0;
    while k < w
        invariant
            k <= w,
            r < m@.len(),
            u + w <= m@[r as int]@.len(),
            rl == m@[r as int]@.len(),
            mm == rows_view(m@),
            forall|kk: int| 0 <= kk < k ==> #[trigger] mm[r as int][u + kk] == c,
        decreases w - k,
    {
        if m[r][u + k] != c {
            assert(mm[r as int][u + k] != c);
            return false;
        }
        k = k + 1;
    }
    true
}

/// Merges the nonzero cells of a mask of rows of `du` cells into rectangles of equal
/// cells, scanning rows top to bottom and each row left to right.
pub fn merge_rects(mask: Vec<Vec<i16>>, du: usize) -> (rects: Vec<Rect>)
    requires
        well_shaped(rows_view(mask@), du as int),
    ensures
        rects@ == greedy_rects(rows_view(mask@), du as int),
{
    let ghost m0 = rows_view(mask@);
    let mut m = mask;
    let mut out: Vec<Rect> = Vec::new();
    let dv = m.len();
    let mut vv: usize = 0;
    while vv < dv
        invariant
            vv <= dv,
            m@.len() == dv,
            well_shaped(rows_view(m@), du as int),
            greedy_rects(m0, du as int) == out@ + scan(rows_view(m@), du as int, vv as int, 0),
        decreases dv - vv,
    {
        let mut uu: usize = 0;
        while uu < du
            invariant
                vv < dv,
                uu <= du,
                m@.len() == dv,
                well_shaped(rows_view(m@), du as int),
                greedy_rects(m0, du as int) == out@ + scan(
                    rows_view(m@),
                    du as int,
                    vv as int,
                    uu as int,
                ),
            decreases du - uu,
        {
            let ghost cur = rows_view(m@);
            assert(cur[vv as int] == m@[vv as int]@);
            assert(cur[vv as int].len() == du);
            let c = m[vv][uu];
            if c == 0 {
                uu = uu + 1;
            } else {
                let mut w: usize = 1;
                while uu + w < du && m[vv][uu + w] == c
                    invariant
                        vv < dv,
                        m@.len() == dv,
                        cur == rows_view(m@),
                        cur[vv as int].len() == du,
                        1 <= w,
                        uu + w <= du,
                        width_run(cur, du as int, vv as int, uu as int, c, w as int) == width_run(
                            cur,
                            du as int,
                            vv as int,
                            uu as int,
                            c,
                            1,
                        ),
                    decreases du - uu - w,
                {
                    assert(cur[vv as int][uu + w] == m@[vv as int]@[uu + w]);
                    w = w + 1;
                }
                proof {
                    if uu + w < du {
                        assert(cur[vv as int][uu + w] == m@[vv as int]@[uu + w]);
                    }
                }
                let mut h: usize = 1;
                while vv + h < dv
                    invariant
                        vv < dv,
                        m@.len() == dv,
                        cur == rows_view(m@),
                        well_shaped(cur, du as int),
                        1 <= h,
                        vv + h <= dv,
                        uu + w <= du,
                        height_run(cur, vv as int, uu as int, w as int, c, h as int) == height_run(
                            cur,
                            vv as int,
                            uu as int,
                            w as int,
                            c,
                            1,
                        ),
                    ensures
                        vv + h <= dv,
                        1 <= h,
                        height_run(cur, vv as int, uu as int, w as int, c, h as int) == h,
                        height_run(cur, vv as int, uu as int, w as int, c, 1) == h,
                    decreases dv - vv - h,
                {
                    assert(cur[vv + h].len() == du);
                    assert(cur[vv + h] == m@[vv + h]@);
                    if !row_has(&m, vv + h, uu, w, c) {
                        break ;
                    }
                    h = h + 1;
                }
                out.push(Rect { u: uu, v: vv, w, h, value: c });
                proof {
                    lemma_width_run_bounds(cur, du as int, vv as int, uu as int, c, 1);
                    assert forall|y: int| vv <= y < vv + h implies uu + w <= (#[trigger] m@[y]).len() by {
                        assert(cur[y] == m@[y]@);
                        assert(cur[y].len() == du);
                    }
                }
                clear(&mut m, vv, uu, w, h);
                proof {
                    assert(rows_view(m@) =~= clear_rect(cur, vv as int, uu as int, w as int, h as int));
                    assert forall|r: int| 0 <= r < rows_view(m@).len() implies #[trigger] rows_view(
                        m@,
                    )[r].len() == du by {
                        assert(cur[r].len() == du);
                    }
                }
                uu = uu + w;
            }
        }
        vv = vv + 1;
    }
    out
}


// ------------------------------------------------------------------ the partition law

/// Cell `(y, x)` lies in the rectangle.
pub open spec fn covers(r: Rect, y: int, x: int) -> bool {
    r.v <= y < r.v + r.h && r.u <= x < r.u + r.w
}

/// Cell `(y, x)` lies in the mask.
pub open spec fn in_mask(m: Seq<Seq<i16>>, du: int, y: int, x: int) -> bool {
    0 <= y < m.len() && 0 <= x < du
}

/// Each rectangle has cells, lies in the mask, and all its cells hold its nonzero value.
pub open spec fn rects_uniform(m: Seq<Seq<i16>>, du: int, rs: Seq<Rect>) -> bool {
    forall|i: int|
        0 <= i < rs.len() ==> {
            let r = #[trigger] rs[i];
            &&& r.w >= 1 && r.h >= 1
            &&& r.u + r.w <= du && r.v + r.h <= m.len()
            &&& r.value != 0
            &&& forall|y: int, x: int| covers(r, y, x) ==> #[trigger] m[y][x] == r.value
        }
}

/// No cell lies in two rectangles.
pub open spec fn rects_disjoint(rs: Seq<Rect>) -> bool {
    forall|i: int, j: int, y: int, x: int|
        0 <= i < j < rs.len() && #[trigger] covers(rs[i], y, x) ==> !#[trigger] covers(rs[j], y, x)
}

/// Every nonzero cell from row `r`, column `u` on (row by row) lies in some rectangle.
pub open spec fn rects_cover_from(m: Seq<Seq<i16>>, du: int, rs: Seq<Rect>, r: int, u: int) -> bool {
    forall|y: int, x: int|
        in_mask(m, du, y, x) && (y > r || (y == r && x >= u)) && #[trigger] m[y][x] != 0
            ==> exists|i: int| 0 <= i < rs.len() && #[trigger] covers(rs[i], y, x)
}

/// Every cell before row `r`, column `u` is zero.
pub open spec fn zero_before(m: Seq<Seq<i16>>, du: int, r: int, u: int) -> bool {
    forall|y: int, x: int|
        in_mask(m, du, y, x) && (y < r || (y == r && x < u)) ==> #[trigger] m[y][x] == 0
}

proof fn lemma_width_run_equal(m: Seq<Seq<i16>>, du: int, r: int, u: int, c: i16, w: int)
    requires
        w >= 1,
        u + w <= du,
        forall|k: int| 0 <= k < w ==> #[trigger] m[r][u + k] == c,
    ensures
        forall|k: int| 0 <= k < width_run(m, du, r, u, c, w) ==> #[trigger] m[r][u + k] == c,
    decreases du - u - w,
{
    if u + w < du && m[r][u + w] == c {
        assert forall|k: int| 0 <= k < w + 1 implies #[trigger] m[r][u + k] == c by {
            if k < w {
                assert(m[r][u + k] == c);
            }
        }
        lemma_width_run_equal(m, du, r, u, c, w + 1);
    }
}

proof fn lemma_height_run_equal(m: Seq<Seq<i16>>, r: int, u: int, w: int, c: i16, h: int)
    requires
        h >= 1,
        r + h <= m.len(),
        forall|j: int| 0 <= j < h ==> #[trigger] row_equal(m, r + j, u, w, c),
    ensures
        forall|j: int| 0 <= j < height_run(m, r, u, w, c, h) ==> #[trigger] row_equal(m, r + j, u, w, c),
    decreases m.len() - r - h,
{
    if r + h < m.len() && row_equal(m, r + h, u, w, c) {
        assert forall|j: int| 0 <= j < h + 1 implies #[trigger] row_equal(m, r + j, u, w, c) by {
            if j < h {
                assert(row_equal(m, r + j, u, w, c));
            }
        }
        lemma_height_run_equal(m, r, u, w, c, h + 1);
    }
}

/// The scan from row `r`, column `u` of a mask whose earlier cells are all zero finds
/// rectangles of equal nonzero cells that do not overlap and cover every nonzero cell.
proof fn lemma_scan_partition(m: Seq<Seq<i16>>, du: int, r: int, u: int)
    requires
        well_shaped(m, du),
        1 <= du <= usize::MAX,
        m.len() <= usize::MAX,
        0 <= r,
        0 <= u <= du,
        zero_before(m, du, r, u),
    ensures
        rects_uniform(m, du, scan(m, du, r, u)),
        rects_disjoint(scan(m, du, r, u)),
        rects_cover_from(m, du, scan(m, du, r, u), r, u),
    decreases m.len() - r, du - u,
{
    let rs = scan(m, du, r, u);
    if r >= m.len() {
        assert(rs =~= seq![]);
        assert forall|y: int, x: int|
            in_mask(m, du, y, x) && (y > r || (y == r && x >= u)) && #[trigger] m[y][x] != 0
                implies exists|i: int| 0 <= i < rs.len() && #[trigger] covers(rs[i], y, x) by {
        }
    } else if u >= du {
        assert(zero_before(m, du, r + 1, 0)) by {
            assert forall|y: int, x: int|
                in_mask(m, du, y, x) && (y < r + 1 || (y == r + 1 && x < 0)) implies #[trigger] m[y][x]
                    == 0 by {
                if y == r {
                    assert(x < u);
                }
            }
        }
        lemma_scan_partition(m, du, r + 1, 0);
    } else if m[r][u] == 0 {
        assert(zero_before(m, du, r, u + 1));
        lemma_scan_partition(m, du, r, u + 1);
    } else {
        let c = m[r][u];
        assert(m[r].len() == du);
        lemma_width_run_bounds(m, du, r, u, c, 1);
        let w = width_run(m, du, r, u, c, 1);
        lemma_height_run_bounds(m, r, u, w, c, 1);
        let h = height_run(m, r, u, w, c, 1);
        let rect = Rect { u: u as usize, v: r as usize, w: w as usize, h: h as usize, value: c };
        assert(rect.u == u && rect.v == r && rect.w == w && rect.h == h);
        let m2 = clear_rect(m, r, u, w, h);
        let rest = scan(m2, du, r, u + w);
        assert(rs == seq![rect] + rest);
        assert(forall|k: int| 0 <= k < 1 ==> #[trigger] m[r][u + k] == c);
        lemma_width_run_equal(m, du, r, u, c, 1);
        assert(row_equal(m, r, u, w, c));
        assert(forall|j: int| 0 <= j < 1 ==> #[trigger] row_equal(m, r + j, u, w, c));
        lemma_height_run_equal(m, r, u, w, c, 1);
        assert forall|y: int, x: int| covers(rect, y, x) implies #[trigger] m[y][x] == c by {
            assert(0 <= y - r < h);
            assert(row_equal(m, r + (y - r), u, w, c));
            assert(m[y][u + (x - u)] == c);
        }
        assert(well_shaped(m2, du)) by {
            assert forall|y: int| 0 <= y < m2.len() implies #[trigger] m2[y].len() == du by {
                assert(m[y].len() == du);
            }
        }
        assert(zero_before(m2, du, r, u + w)) by {
            assert forall|y: int, x: int|
                in_mask(m2, du, y, x) && (y < r || (y == r && x < u + w)) implies #[trigger] m2[y][x]
                    == 0 by {
                if !(r <= y < r + h && u <= x < u + w) {
                    assert(m2[y][x] == m[y][x]);
                }
            }
        }
        lemma_scan_partition(m2, du, r, u + w);
        // cells of m2 are cells of m or cleared
        assert forall|y: int, x: int| in_mask(m, du, y, x) && #[trigger] m2[y][x] != 0 implies m2[y][x]
            == m[y][x] && !covers(rect, y, x) by {
        }
        assert(rects_uniform(m, du, rs)) by {
            assert forall|i: int| 0 <= i < rs.len() implies {
                let q = #[trigger] rs[i];
                &&& q.w >= 1 && q.h >= 1
                &&& q.u + q.w <= du && q.v + q.h <= m.len()
                &&& q.value != 0
                &&& forall|y: int, x: int| covers(q, y, x) ==> #[trigger] m[y][x] == q.value
            } by {
                if i > 0 {
                    let q = rs[i];
                    assert(q == rest[i - 1]);
                    assert forall|y: int, x: int| covers(q, y, x) implies #[trigger] m[y][x] == q.value by {
                        assert(m2[y][x] == q.value);
                        assert(in_mask(m, du, y, x));
                    }
                }
            }
        }
        assert(rects_disjoint(rs)) by {
            assert forall|i: int, j: int, y: int, x: int|
                0 <= i < j < rs.len() && #[trigger] covers(rs[i], y, x) implies !#[trigger] covers(
                    rs[j],
                    y,
                    x,
                ) by {
                if i == 0 {
                    let q = rest[j - 1];
                    assert(rs[j] == q);
                    if covers(q, y, x) {
                        assert(m2[y][x] == q.value);
                        assert(m2[y][x] == 0);
                    }
                } else {
                    assert(rs[i] == rest[i - 1]);
                    assert(rs[j] == rest[j - 1]);
                }
            }
        }
        assert(rects_cover_from(m, du, rs, r, u)) by {
            assert forall|y: int, x: int|
                in_mask(m, du, y, x) && (y > r || (y == r && x >= u)) && #[trigger] m[y][x] != 0
                    implies exists|i: int| 0 <= i < rs.len() && #[trigger] covers(rs[i], y, x) by {
                if covers(rect, y, x) {
                    assert(covers(rs[0], y, x));
                } else {
                    assert(m2[y][x] == m[y][x]);
                    if y == r && x < u + w {
                        assert(covers(rect, y, x));
                    }
                    let i = choose|i: int| 0 <= i < rest.len() && #[trigger] covers(rest[i], y, x);
                    assert(rs[i + 1] == rest[i]);
                    assert(covers(rs[i + 1], y, x));
                }
            }
        }
    }
}

/// The greedy rectangles of a mask partition its nonzero cells: each rectangle lies in the
/// mask with all its cells holding its nonzero value, no cell lies in two rectangles, and
/// every nonzero cell lies in one.
pub proof fn lemma_greedy_partition(m: Seq<Seq<i16>>, du: int)
    requires
        well_shaped(m, du),
        1 <= du <= usize::MAX,
        m.len() <= usize::MAX,
    ensures
        rects_uniform(m, du, greedy_rects(m, du)),
        rects_disjoint(greedy_rects(m, du)),
        forall|y: int, x: int|
            in_mask(m, du, y, x) && #[trigger] m[y][x] != 0 ==> exists|i: int|
                0 <= i < greedy_rects(m, du).len() && #[trigger] covers(greedy_rects(m, du)[i], y, x),
{
    lemma_scan_partition(m, du, 0, 0);
    let rs = greedy_rects(m, du);
    assert forall|y: int, x: int| in_mask(m, du, y, x) && #[trigger] m[y][x] != 0 implies exists|i: int|
        0 <= i < rs.len() && #[trigger] covers(rs[i], y, x) by {
        assert(y > 0 || (y == 0 && x >= 0));
    }
}

} // verus!
